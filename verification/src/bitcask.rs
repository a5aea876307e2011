//! The storage logic of a Bitcask store: an append-only log of records, each a header
//! (checksum, timestamp, key size, value size, big-endian) then the key and the value, with a
//! tombstone size marking a deletion; and the in-memory index from each live key to where its
//! value lies in the log, kept on writes and rebuilt by replaying the log. The file itself is
//! the caller's.

use vstd::prelude::*;
use crate::log_structured_storage::{lemma_pow256_bound, pow256};

verus! {

/// The size of a record header.
pub const HEADER_SIZE: usize = 20;

/// The value size that marks a deletion.
const TOMBSTONE_VALUE_SZ: u32 = 0xFFFF_FFFFu32;

/// Where a key's value lies in the log.
#[derive(Debug, Clone, Copy, PartialEq, Eq)]
pub struct EntryLocation {
    pub file_id: u32,
    pub value_sz: u32,
    pub value_pos: u64,
    pub timestamp: u64,
}

/// The header of a record.
#[derive(Debug, Clone, Copy, PartialEq, Eq)]
pub struct EntryHeader {
    pub crc: u32,
    pub timestamp: u64,
    pub key_sz: u32,
    pub value_sz: u32,
}

/// The low `k` bytes of `n`, most significant first.
pub open spec fn be_bytes(n: nat, k: nat) -> Seq<u8>
    decreases k,
{
    if k == 0 {
        seq![]
    } else {
        be_bytes(n / 256, (k - 1) as nat) + seq![(n % 256) as u8]
    }
}

/// The number whose bytes, most significant first, are `s`.
pub open spec fn be_value(s: Seq<u8>) -> nat
    decreases s.len(),
{
    if s.len() == 0 {
        0
    } else {
        be_value(s.drop_last()) * 256 + s.last() as nat
    }
}

/// The twenty bytes of a header.
pub open spec fn header_bytes(h: EntryHeader) -> Seq<u8> {
    be_bytes(h.crc as nat, 4) + be_bytes(h.timestamp as nat, 8) + be_bytes(h.key_sz as nat, 4) + be_bytes(
        h.value_sz as nat,
        4,
    )
}

/// The header that twenty bytes hold.
pub open spec fn header_of(b: Seq<u8>) -> EntryHeader {
    EntryHeader {
        crc: be_value(b.subrange(0, 4)) as u32,
        timestamp: be_value(b.subrange(4, 12)) as u64,
        key_sz: be_value(b.subrange(12, 16)) as u32,
        value_sz: be_value(b.subrange(16, 20)) as u32,
    }
}

pub proof fn lemma_be_round_trip(n: nat, k: nat)
    requires
        n < pow256(k),
    ensures
        be_bytes(n, k).len() == k,
        be_value(be_bytes(n, k)) == n,
    decreases k,
{
    if k > 0 {
        lemma_be_round_trip(n / 256, (k - 1) as nat);
        let s = be_bytes(n, k);
        assert(s.drop_last() =~= be_bytes(n / 256, (k - 1) as nat));
    }
}

proof fn lemma_pow256_values()
    ensures
        pow256(4) == 0x1_0000_0000,
        pow256(8) == 0x1_0000_0000_0000_0000,
{
    reveal_with_fuel(pow256, 9);
}

/// Decoding an encoded header gives it back.
pub proof fn lemma_header_round_trip(h: EntryHeader)
    ensures
        header_bytes(h).len() == HEADER_SIZE,
        header_of(header_bytes(h)) == h,
{
    lemma_pow256_values();
    lemma_be_round_trip(h.crc as nat, 4);
    lemma_be_round_trip(h.timestamp as nat, 8);
    lemma_be_round_trip(h.key_sz as nat, 4);
    lemma_be_round_trip(h.value_sz as nat, 4);
    let b = header_bytes(h);
    assert(b.subrange(0, 4) =~= be_bytes(h.crc as nat, 4));
    assert(b.subrange(4, 12) =~= be_bytes(h.timestamp as nat, 8));
    assert(b.subrange(12, 16) =~= be_bytes(h.key_sz as nat, 4));
    assert(b.subrange(16, 20) =~= be_bytes(h.value_sz as nat, 4));
}

fn push_be(out: &mut Vec<u8>, n: u64, k: usize)
    ensures
        final(out)@ == old(out)@ + be_bytes(n as nat, k as nat),
    decreases k,
{
    if k > 0 {
        push_be(out, n / 256, k - 1);
        out.push((n % 256) as u8);
        proof {
            assert(final(out)@ =~= old(out)@ + be_bytes(n as nat, k as nat)) by {
                assert(be_bytes(n as nat, k as nat) =~= be_bytes((n / 256) as nat, (k - 1) as nat) + seq![(n % 256) as u8]);
            }
        }
    } else {
        assert(old(out)@ + be_bytes(n as nat, 0) =~= old(out)@);
    }
}

fn read_be(d: &[u8], p: usize, k: usize) -> (r: u64)
    requires
        k <= 8,
        p + k <= d.len(),
    ensures
        r == be_value(d@.subrange(p as int, p + k)),
        r < pow256(k as nat),
{
    let mut acc: u64 = 0;
    let mut i: usize = 0;
    proof {
        assert(d@.subrange(p as int, p as int).len() == 0);
        reveal_with_fuel(pow256, 1);
    }
    while i < k
        invariant
            i <= k <= 8,
            p + k <= d.len(),
            acc == be_value(d@.subrange(p as int, p + i)),
            acc < pow256(i as nat),
        decreases k - i,
    {
        proof {
            assert(d@.subrange(p as int, p + i + 1).drop_last() =~= d@.subrange(p as int, p + i));
            lemma_pow256_bound(i as nat);
            assert(pow256((i + 1) as nat) == 256 * pow256(i as nat));
        }
        acc = acc * 256 + d[p + i] as u64;
        i = i + 1;
    }
    acc
}

/// The twenty header bytes.
pub fn encode_header(h: &EntryHeader) -> (b: Vec<u8>)
    ensures
        b@ == header_bytes(*h),
{
    let mut b: Vec<u8> = Vec::new();
    push_be(&mut b, h.crc as u64, 4);
    push_be(&mut b, h.timestamp, 8);
    push_be(&mut b, h.key_sz as u64, 4);
    push_be(&mut b, h.value_sz as u64, 4);
    assert(b@ =~= header_bytes(*h));
    b
}

/// The header held by the twenty bytes at `p`.
pub fn decode_header(buf: &[u8], p: usize) -> (h: EntryHeader)
    requires
        p + HEADER_SIZE <= buf.len(),
    ensures
        h == header_of(buf@.subrange(p as int, p + HEADER_SIZE)),
{
    proof {
        lemma_pow256_values();
    }
    let crc = read_be(buf, p, 4);
    let timestamp = read_be(buf, p + 4, 8);
    let key_sz = read_be(buf, p + 12, 4);
    let value_sz = read_be(buf, p + 16, 4);
    let ghost b = buf@.subrange(p as int, p + HEADER_SIZE);
    assert(b.subrange(0, 4) =~= buf@.subrange(p as int, p + 4));
    assert(b.subrange(4, 12) =~= buf@.subrange(p + 4, p + 12));
    assert(b.subrange(12, 16) =~= buf@.subrange(p + 12, p + 16));
    assert(b.subrange(16, 20) =~= buf@.subrange(p + 16, p + 20));
    EntryHeader { crc: crc as u32, timestamp, key_sz: key_sz as u32, value_sz: value_sz as u32 }
}

pub proof fn lemma_be_bound(s: Seq<u8>)
    ensures
        be_value(s) < pow256(s.len()),
    decreases s.len(),
{
    if s.len() > 0 {
        lemma_be_bound(s.drop_last());
        assert(pow256(s.len()) == 256 * pow256(s.drop_last().len()));
    }
}

/// The header of a record of `key`: checksum zero, and the value's size or the tombstone size.
pub open spec fn record_header(key: Seq<u8>, value: Option<Seq<u8>>, ts: u64) -> EntryHeader {
    EntryHeader {
        crc: 0,
        timestamp: ts,
        key_sz: key.len() as u32,
        value_sz: match value {
            Some(v) => v.len() as u32,
            None => 0xFFFF_FFFFu32,
        },
    }
}

/// The record of writing `value` under `key` (a deletion for `None`) at time `ts`.
pub open spec fn record_bytes(key: Seq<u8>, value: Option<Seq<u8>>, ts: u64) -> Seq<u8> {
    match value {
        Some(v) => header_bytes(record_header(key, value, ts)) + key + v,
        None => header_bytes(record_header(key, value, ts)) + key,
    }
}

/// Where the record at the start of `d` ends, given its header.
pub open spec fn record_end(h: EntryHeader) -> int {
    if h.value_sz == 0xFFFF_FFFF {
        20 + h.key_sz
    } else {
        20 + h.key_sz + h.value_sz
    }
}

/// The index after applying the record with header `h` and key `key` found at offset `base`.
pub open spec fn apply_record(
    kd: Map<Seq<u8>, EntryLocation>,
    h: EntryHeader,
    key: Seq<u8>,
    base: nat,
    file_id: u32,
) -> Map<Seq<u8>, EntryLocation> {
    if h.value_sz == 0xFFFF_FFFF {
        kd.remove(key)
    } else {
        kd.insert(
            key,
            EntryLocation {
                file_id,
                value_sz: h.value_sz,
                value_pos: (base + 20 + h.key_sz) as u64,
                timestamp: h.timestamp,
            },
        )
    }
}

/// The index rebuilt from the log bytes `d` (found at offset `base`), starting from `kd`: each
/// record in turn sets its key's location, or removes the key for a tombstone. Fewer than a
/// header's bytes left end the replay, and so does a record whose value runs past the end;
/// `None` when the bytes end inside a key.
pub open spec fn replay(d: Seq<u8>, base: nat, kd: Map<Seq<u8>, EntryLocation>, file_id: u32) -> Option<
    Map<Seq<u8>, EntryLocation>,
>
    decreases d.len(),
{
    if d.len() < 20 {
        Some(kd)
    } else {
        let h = header_of(d.subrange(0, 20));
        if d.len() < 20 + h.key_sz {
            None
        } else {
            let kd2 = apply_record(kd, h, d.subrange(20, 20 + h.key_sz), base, file_id);
            let next = record_end(h);
            if next >= d.len() {
                Some(kd2)
            } else {
                replay(d.subrange(next, d.len() as int), base + next as nat, kd2, file_id)
            }
        }
    }
}

/// The log is whole records, the last ending exactly at its end.
pub open spec fn clean_log(d: Seq<u8>) -> bool
    decreases d.len(),
{
    if d.len() == 0 {
        true
    } else if d.len() < 20 {
        false
    } else {
        let next = record_end(header_of(d.subrange(0, 20)));
        if next > d.len() {
            false
        } else if next == d.len() {
            true
        } else {
            clean_log(d.subrange(next, d.len() as int))
        }
    }
}

/// Replaying whole records and then more bytes is replaying the more bytes from where the
/// records left the index.
pub proof fn lemma_replay_append(a: Seq<u8>, b: Seq<u8>, base: nat, kd: Map<Seq<u8>, EntryLocation>, file_id: u32)
    requires
        clean_log(a),
    ensures
        replay(a, base, kd, file_id) is Some,
        replay(a + b, base, kd, file_id) == replay(b, base + a.len(), replay(a, base, kd, file_id)->0, file_id),
        clean_log(b) ==> clean_log(a + b),
    decreases a.len(),
{
    if a.len() == 0 {
        assert(a + b =~= b);
    } else {
        let ab = a + b;
        let h = header_of(a.subrange(0, 20));
        assert(ab.subrange(0, 20) =~= a.subrange(0, 20));
        assert(ab.subrange(20, 20 + h.key_sz) =~= a.subrange(20, 20 + h.key_sz));
        let next = record_end(h);
        let kd2 = apply_record(kd, h, a.subrange(20, 20 + h.key_sz), base, file_id);
        if next == a.len() {
            assert(ab.subrange(next, ab.len() as int) =~= b);
            if b.len() == 0 {
                assert(ab =~= a);
            }
        } else {
            let a2 = a.subrange(next, a.len() as int);
            assert(ab.subrange(next, ab.len() as int) =~= a2 + b);
            lemma_replay_append(a2, b, base + next as nat, kd2, file_id);
        }
    }
}

/// A record whose lengths fit is whole, and replaying it applies it.
pub proof fn lemma_replay_record(
    key: Seq<u8>,
    value: Option<Seq<u8>>,
    ts: u64,
    base: nat,
    kd: Map<Seq<u8>, EntryLocation>,
    file_id: u32,
)
    requires
        key.len() < 0x1_0000_0000,
        value matches Some(v) ==> v.len() < 0xFFFF_FFFF,
    ensures
        clean_log(record_bytes(key, value, ts)),
        replay(record_bytes(key, value, ts), base, kd, file_id) == Some(
            apply_record(kd, record_header(key, value, ts), key, base, file_id),
        ),
{
    let h = record_header(key, value, ts);
    let r = record_bytes(key, value, ts);
    lemma_header_round_trip(h);
    assert(r.subrange(0, 20) =~= header_bytes(h));
    assert(r.subrange(20, 20 + key.len() as int) =~= key);
    assert(record_end(h) == r.len());
}

/// The map an index vector stands for (later entries win, though keys are kept distinct).
pub open spec fn kd_map(s: Seq<(Vec<u8>, EntryLocation)>) -> Map<Seq<u8>, EntryLocation>
    decreases s.len(),
{
    if s.len() == 0 {
        Map::empty()
    } else {
        kd_map(s.drop_last()).insert(s.last().0@, s.last().1)
    }
}

/// No key occurs twice.
pub open spec fn distinct_keys(s: Seq<(Vec<u8>, EntryLocation)>) -> bool {
    forall|i: int, j: int| 0 <= i < j < s.len() ==> s[i].0@ != s[j].0@
}

proof fn lemma_kd_find(s: Seq<(Vec<u8>, EntryLocation)>, k: Seq<u8>)
    requires
        distinct_keys(s),
    ensures
        kd_map(s).contains_key(k) <==> exists|i: int| 0 <= i < s.len() && s[i].0@ == k,
        forall|i: int| 0 <= i < s.len() && s[i].0@ == k ==> kd_map(s)[k] == s[i].1,
    decreases s.len(),
{
    if s.len() > 0 {
        let d = s.drop_last();
        lemma_kd_find(d, k);
        if exists|i: int| 0 <= i < d.len() && d[i].0@ == k {
            let i = choose|i: int| 0 <= i < d.len() && d[i].0@ == k;
            assert(s[i] == d[i]);
        }
        if exists|i: int| 0 <= i < s.len() && s[i].0@ == k {
            let i = choose|i: int| 0 <= i < s.len() && s[i].0@ == k;
            if i < s.len() - 1 {
                assert(d[i] == s[i]);
            }
        }
        assert forall|i: int| 0 <= i < s.len() && s[i].0@ == k implies kd_map(s)[k] == s[i].1 by {
            if i < s.len() - 1 {
                assert(d[i] == s[i]);
                assert(s[i].0@ != s[s.len() - 1].0@);
            }
        }
    }
}

proof fn lemma_kd_update(s: Seq<(Vec<u8>, EntryLocation)>, i: int, x: (Vec<u8>, EntryLocation))
    requires
        distinct_keys(s),
        0 <= i < s.len(),
        s[i].0@ == x.0@,
    ensures
        distinct_keys(s.update(i, x)),
        kd_map(s.update(i, x)) == kd_map(s).insert(x.0@, x.1),
    decreases s.len(),
{
    let u = s.update(i, x);
    assert(distinct_keys(u)) by {
        assert forall|a: int, b: int| 0 <= a < b < u.len() implies u[a].0@ != u[b].0@ by {
            assert(s[a].0@ != s[b].0@);
        }
    }
    let d = s.drop_last();
    if i == s.len() - 1 {
        assert(u.drop_last() =~= d);
        assert(kd_map(u) =~= kd_map(s).insert(x.0@, x.1));
    } else {
        assert(u.drop_last() =~= d.update(i, x));
        assert(distinct_keys(d)) by {
            assert forall|a: int, b: int| 0 <= a < b < d.len() implies d[a].0@ != d[b].0@ by {
                assert(s[a] == d[a] && s[b] == d[b]);
            }
        }
        lemma_kd_update(d, i, x);
        assert(s[i].0@ != s[s.len() - 1].0@);
        assert(kd_map(u) =~= kd_map(s).insert(x.0@, x.1));
    }
}

proof fn lemma_kd_remove(s: Seq<(Vec<u8>, EntryLocation)>, i: int)
    requires
        distinct_keys(s),
        0 <= i < s.len(),
    ensures
        distinct_keys(s.remove(i)),
        kd_map(s.remove(i)) == kd_map(s).remove(s[i].0@),
    decreases s.len(),
{
    let r = s.remove(i);
    let k = s[i].0@;
    assert(distinct_keys(r)) by {
        assert forall|a: int, b: int| 0 <= a < b < r.len() implies r[a].0@ != r[b].0@ by {
            let sa = if a < i { a } else { a + 1 };
            let sb = if b < i { b } else { b + 1 };
            assert(r[a] == s[sa] && r[b] == s[sb]);
        }
    }
    let d = s.drop_last();
    assert(distinct_keys(d)) by {
        assert forall|a: int, b: int| 0 <= a < b < d.len() implies d[a].0@ != d[b].0@ by {
            assert(s[a] == d[a] && s[b] == d[b]);
        }
    }
    if i == s.len() - 1 {
        assert(r =~= d);
        lemma_kd_find(d, k);
        if kd_map(d).contains_key(k) {
            let j = choose|j: int| 0 <= j < d.len() && d[j].0@ == k;
            assert(s[j] == d[j]);
        }
        assert(kd_map(r) =~= kd_map(s).remove(k));
    } else {
        assert(r.drop_last() =~= d.remove(i));
        assert(r.last() == s.last());
        lemma_kd_remove(d, i);
        assert(d[i] == s[i]);
        assert(s[i].0@ != s[s.len() - 1].0@);
        assert(kd_map(r) =~= kd_map(s).remove(k));
    }
}

fn bytes_eq(a: &[u8], b: &[u8]) -> (r: bool)
    ensures
        r == (a@ == b@),
{
    if a.len() != b.len() {
        return false;
    }
    let mut i: usize = 0;
    while i < a.len()
        invariant
            i <= a@.len() == b@.len(),
            forall|j: int| 0 <= j < i ==> a@[j] == b@[j],
        decreases a@.len() - i,
    {
        if a[i] != b[i] {
            return false;
        }
        i = i + 1;
    }
    assert(a@ =~= b@);
    true
}

fn copy_slice(d: &[u8], a: usize, b: usize) -> (c: Vec<u8>)
    requires
        a <= b <= d@.len(),
    ensures
        c@ == d@.subrange(a as int, b as int),
{
    let mut c: Vec<u8> = Vec::new();
    let mut i: usize = a;
    while i < b
        invariant
            a <= i <= b <= d@.len(),
            c@ == d@.subrange(a as int, i as int),
        decreases b - i,
    {
        c.push(d[i]);
        proof {
            assert(d@.subrange(a as int, i + 1) =~= d@.subrange(a as int, i as int).push(d@[i as int]));
        }
        i = i + 1;
    }
    c
}

/// Why a log could not be replayed: it ends inside a key.
#[derive(Debug, Clone, Copy, PartialEq, Eq)]
pub enum BitcaskError {
    TruncatedKey,
}

/// A Bitcask store's index: each live key with the location of its latest value, and the
/// length of the log written so far.
pub struct Bitcask {
    keydir: Vec<(Vec<u8>, EntryLocation)>,
    end: u64,
    current_file_id: u32,
}

impl Bitcask {
    /// Each live key and where its value lies.
    pub closed spec fn index(&self) -> Map<Seq<u8>, EntryLocation> {
        kd_map(self.keydir@)
    }

    /// The length of the log.
    pub closed spec fn log_len(&self) -> nat {
        self.end as nat
    }

    pub closed spec fn file_id(&self) -> u32 {
        self.current_file_id
    }

    pub closed spec fn wf(&self) -> bool {
        distinct_keys(self.keydir@)
    }

    fn find(&self, key: &[u8]) -> (r: Option<usize>)
        requires
            self.wf(),
        ensures
            match r {
                Some(i) => i < self.keydir@.len() && self.keydir@[i as int].0@ == key@,
                None => !self.index().contains_key(key@),
            },
    {
        let mut i: usize = 0;
        while i < self.keydir.len()
            invariant
                i <= self.keydir@.len(),
                forall|j: int| 0 <= j < i ==> self.keydir@[j].0@ != key@,
            decreases self.keydir@.len() - i,
        {
            if bytes_eq(self.keydir[i].0.as_slice(), key) {
                return Some(i);
            }
            i = i + 1;
        }
        proof {
            lemma_kd_find(self.keydir@, key@);
        }
        None
    }

    fn set(&mut self, key: Vec<u8>, loc: EntryLocation)
        requires
            old(self).wf(),
        ensures
            final(self).wf(),
            final(self).index() == old(self).index().insert(key@, loc),
            final(self).end == old(self).end,
            final(self).current_file_id == old(self).current_file_id,
    {
        match self.find(key.as_slice()) {
            Some(i) => {
                proof {
                    lemma_kd_update(self.keydir@, i as int, (key, loc));
                }
                self.keydir.set(i, (key, loc));
            },
            None => {
                let ghost before = self.keydir@;
                self.keydir.push((key, loc));
                proof {
                    assert(self.keydir@.drop_last() =~= before);
                    lemma_kd_find(before, key@);
                    assert forall|a: int, b: int| 0 <= a < b < self.keydir@.len() implies self.keydir@[a].0@
                        != self.keydir@[b].0@ by {
                        if b == before.len() {
                            assert(self.keydir@[a] == before[a]);
                        } else {
                            assert(self.keydir@[a] == before[a] && self.keydir@[b] == before[b]);
                        }
                    }
                }
            },
        }
    }

    fn unset(&mut self, key: &[u8])
        requires
            old(self).wf(),
        ensures
            final(self).wf(),
            final(self).index() == old(self).index().remove(key@),
            final(self).end == old(self).end,
            final(self).current_file_id == old(self).current_file_id,
    {
        match self.find(key) {
            Some(i) => {
                proof {
                    lemma_kd_remove(self.keydir@, i as int);
                }
                self.keydir.remove(i);
            },
            None => {
                assert(self.index() =~= self.index().remove(key@));
            },
        }
    }

    /// Rebuilds the index by replaying the log; fails when the log ends inside a key.
    pub fn open(log: &[u8]) -> (r: Result<Bitcask, BitcaskError>)
        ensures
            match r {
                Ok(s) => s.wf() && replay(log@, 0, Map::empty(), 0) == Some(s.index()) && s.log_len() == log@.len()
                    && s.file_id() == 0,
                Err(_) => replay(log@, 0, Map::empty(), 0) is None,
            },
            clean_log(log@) ==> r is Ok,
    {
        let mut store = Bitcask { keydir: Vec::new(), end: log.len() as u64, current_file_id: 0 };
        let mut pos: usize = 0;
        proof {
            assert(log@.subrange(0, log@.len() as int) =~= log@);
            assert(store.index() =~= Map::<Seq<u8>, EntryLocation>::empty());
        }
        while pos < log.len()
            invariant_except_break
                replay(log@.subrange(pos as int, log@.len() as int), pos as nat, store.index(), 0) == replay(
                    log@,
                    0,
                    Map::empty(),
                    0,
                ),
                clean_log(log@) ==> clean_log(log@.subrange(pos as int, log@.len() as int)),
            invariant
                pos <= log@.len(),
                store.wf(),
                store.end == log@.len(),
                store.current_file_id == 0,
            ensures
                replay(log@, 0, Map::empty(), 0) == Some(store.index()),
            decreases log@.len() - pos,
        {
            let ghost d = log@.subrange(pos as int, log@.len() as int);
            let rem = log.len() - pos;
            if rem < HEADER_SIZE {
                break;
            }
            let h = decode_header(log, pos);
            proof {
                assert(d.subrange(0, 20) =~= log@.subrange(pos as int, pos + 20));
            }
            let ks = h.key_sz as usize;
            if ks > rem - HEADER_SIZE {
                return Err(BitcaskError::TruncatedKey);
            }
            let key = copy_slice(log, pos + HEADER_SIZE, pos + HEADER_SIZE + ks);
            proof {
                assert(d.subrange(20, 20 + ks) =~= key@);
            }
            let next: u64;
            if h.value_sz == TOMBSTONE_VALUE_SZ {
                store.unset(key.as_slice());
                next = HEADER_SIZE as u64 + ks as u64;
            } else {
                let loc = EntryLocation {
                    file_id: store.current_file_id,
                    value_sz: h.value_sz,
                    value_pos: (pos + HEADER_SIZE + ks) as u64,
                    timestamp: h.timestamp,
                };
                store.set(key, loc);
                next = HEADER_SIZE as u64 + ks as u64 + h.value_sz as u64;
            }
            if next >= rem as u64 {
                break;
            }
            proof {
                assert(d.subrange(next as int, d.len() as int) =~= log@.subrange(pos + next, log@.len() as int));
            }
            pos = pos + next as usize;
        }
        Ok(store)
    }

    /// The location of `key`'s latest value, if it is live.
    pub fn get(&self, key: &[u8]) -> (r: Option<EntryLocation>)
        requires
            self.wf(),
        ensures
            match r {
                Some(l) => self.index().contains_key(key@) && self.index()[key@] == l,
                None => !self.index().contains_key(key@),
            },
    {
        match self.find(key) {
            Some(i) => {
                proof {
                    lemma_kd_find(self.keydir@, key@);
                }
                Some(self.keydir[i].1)
            },
            None => None,
        }
    }

    /// Writes `value` under `key` at time `timestamp`: returns the record the caller appends to
    /// the log, and points the key at the value inside it.
    pub fn put(&mut self, key: Vec<u8>, value: &[u8], timestamp: u64) -> (rec: Vec<u8>)
        requires
            old(self).wf(),
            key@.len() < 0x1_0000_0000,
            value@.len() < 0xFFFF_FFFF,
            old(self).log_len() + HEADER_SIZE + key@.len() + value@.len() <= u64::MAX,
        ensures
            final(self).wf(),
            rec@ == record_bytes(key@, Some(value@), timestamp),
            rec@.subrange(HEADER_SIZE + key@.len(), rec@.len() as int) == value@,
            final(self).index() == old(self).index().insert(
                key@,
                EntryLocation {
                    file_id: old(self).file_id(),
                    value_sz: value@.len() as u32,
                    value_pos: (old(self).log_len() + HEADER_SIZE + key@.len()) as u64,
                    timestamp,
                },
            ),
            final(self).log_len() == old(self).log_len() + rec@.len(),
            final(self).file_id() == old(self).file_id(),
    {
        let header = EntryHeader {
            crc: 0,
            timestamp,
            key_sz: key.len() as u32,
            value_sz: value.len() as u32,
        };
        let mut rec = encode_header(&header);
        proof {
            lemma_header_round_trip(header);
        }
        let start = self.end;
        let mut j: usize = 0;
        let ghost hb = rec@;
        while j < key.len()
            invariant
                j <= key@.len(),
                rec@ == hb + key@.subrange(0, j as int),
            decreases key@.len() - j,
        {
            rec.push(key[j]);
            proof {
                assert(key@.subrange(0, j + 1) =~= key@.subrange(0, j as int).push(key@[j as int]));
            }
            j = j + 1;
        }
        let ghost hk = rec@;
        let mut j: usize = 0;
        while j < value.len()
            invariant
                j <= value@.len(),
                rec@ == hk + value@.subrange(0, j as int),
            decreases value@.len() - j,
        {
            rec.push(value[j]);
            proof {
                assert(value@.subrange(0, j + 1) =~= value@.subrange(0, j as int).push(value@[j as int]));
            }
            j = j + 1;
        }
        proof {
            assert(key@.subrange(0, key@.len() as int) =~= key@);
            assert(value@.subrange(0, value@.len() as int) =~= value@);
            assert(header == record_header(key@, Some(value@), timestamp));
            assert(rec@ =~= record_bytes(key@, Some(value@), timestamp));
            assert(rec@.subrange(20 + key@.len() as int, rec@.len() as int) =~= value@);
        }
        let loc = EntryLocation {
            file_id: self.current_file_id,
            value_sz: value.len() as u32,
            value_pos: start + HEADER_SIZE as u64 + key.len() as u64,
            timestamp,
        };
        self.end = self.end + rec.len() as u64;
        self.set(key, loc);
        rec
    }

    /// Deletes `key` at time `timestamp`: returns the tombstone record the caller appends to the
    /// log, and drops the key from the index.
    pub fn delete(&mut self, key: Vec<u8>, timestamp: u64) -> (rec: Vec<u8>)
        requires
            old(self).wf(),
            key@.len() < 0x1_0000_0000,
            old(self).log_len() + HEADER_SIZE + key@.len() <= u64::MAX,
        ensures
            final(self).wf(),
            rec@ == record_bytes(key@, None, timestamp),
            final(self).index() == old(self).index().remove(key@),
            final(self).log_len() == old(self).log_len() + rec@.len(),
            final(self).file_id() == old(self).file_id(),
    {
        let header = EntryHeader { crc: 0, timestamp, key_sz: key.len() as u32, value_sz: TOMBSTONE_VALUE_SZ };
        let mut rec = encode_header(&header);
        proof {
            lemma_header_round_trip(header);
        }
        let mut j: usize = 0;
        let ghost hb = rec@;
        while j < key.len()
            invariant
                j <= key@.len(),
                rec@ == hb + key@.subrange(0, j as int),
            decreases key@.len() - j,
        {
            rec.push(key[j]);
            proof {
                assert(key@.subrange(0, j + 1) =~= key@.subrange(0, j as int).push(key@[j as int]));
            }
            j = j + 1;
        }
        proof {
            assert(key@.subrange(0, key@.len() as int) =~= key@);
            assert(header == record_header(key@, None, timestamp));
            assert(rec@ =~= record_bytes(key@, None, timestamp));
        }
        self.end = self.end + rec.len() as u64;
        self.unset(key.as_slice());
        rec
    }
}

/// Reopening a log after a write finds the key at the value just written, and every other key
/// as before: the index kept in memory is the one recovery rebuilds.
pub proof fn lemma_reopen_after_put(
    log: Seq<u8>,
    kd: Map<Seq<u8>, EntryLocation>,
    key: Seq<u8>,
    value: Seq<u8>,
    ts: u64,
)
    requires
        clean_log(log),
        replay(log, 0, Map::empty(), 0) == Some(kd),
        key.len() < 0x1_0000_0000,
        value.len() < 0xFFFF_FFFF,
        log.len() + HEADER_SIZE + key.len() <= u64::MAX,
    ensures
        clean_log(log + record_bytes(key, Some(value), ts)),
        replay(log + record_bytes(key, Some(value), ts), 0, Map::empty(), 0) == Some(
            kd.insert(
                key,
                EntryLocation {
                    file_id: 0,
                    value_sz: value.len() as u32,
                    value_pos: (log.len() + HEADER_SIZE + key.len()) as u64,
                    timestamp: ts,
                },
            ),
        ),
{
    lemma_replay_record(key, Some(value), ts, log.len(), kd, 0);
    lemma_replay_append(log, record_bytes(key, Some(value), ts), 0, Map::empty(), 0);
}

/// Reopening a log after a deletion no longer finds the key, and finds every other key as
/// before.
pub proof fn lemma_reopen_after_delete(log: Seq<u8>, kd: Map<Seq<u8>, EntryLocation>, key: Seq<u8>, ts: u64)
    requires
        clean_log(log),
        replay(log, 0, Map::empty(), 0) == Some(kd),
        key.len() < 0x1_0000_0000,
    ensures
        clean_log(log + record_bytes(key, None, ts)),
        replay(log + record_bytes(key, None, ts), 0, Map::empty(), 0) == Some(kd.remove(key)),
{
    lemma_replay_record(key, None, ts, log.len(), kd, 0);
    lemma_replay_append(log, record_bytes(key, None, ts), 0, Map::empty(), 0);
}

} // verus!
