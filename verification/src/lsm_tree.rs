//! The data path of an LSM tree: an in-memory table of the latest writes (deletions kept as
//! tombstones) that estimates its size, the binary sorted table it is flushed to, and the
//! search of such a table for a key. Files and locks stay with the caller.

use vstd::prelude::*;
use crate::cron::{all_digits, digits_value, is_digit, lemma_digits_value_monotone};
use crate::log_structured_storage::{le_bytes, le_value, lemma_le_round_trip, pow256};
use crate::text::chars_of;

verus! {

/// What a table holds for a key: data, or a tombstone marking a deletion.
#[derive(Debug, Clone, PartialEq)]
pub enum Entry {
    Data(Vec<u8>),
    Tombstone,
}

/// An entry as bytes, or none for a tombstone.
pub open spec fn entry_view(e: Entry) -> Option<Seq<u8>> {
    match e {
        Entry::Data(v) => Some(v@),
        Entry::Tombstone => None,
    }
}

/// `a` sorts before `b`, byte by byte.
pub open spec fn bytes_lt(a: Seq<u8>, b: Seq<u8>) -> bool
    decreases a.len(),
{
    if a.len() == 0 {
        b.len() > 0
    } else if b.len() == 0 {
        false
    } else if a[0] != b[0] {
        a[0] < b[0]
    } else {
        bytes_lt(a.drop_first(), b.drop_first())
    }
}

proof fn lemma_bytes_irreflexive(a: Seq<u8>)
    ensures
        !bytes_lt(a, a),
    decreases a.len(),
{
    if a.len() > 0 {
        lemma_bytes_irreflexive(a.drop_first());
    }
}

proof fn lemma_bytes_transitive(a: Seq<u8>, b: Seq<u8>, c: Seq<u8>)
    requires
        bytes_lt(a, b),
        bytes_lt(b, c),
    ensures
        bytes_lt(a, c),
    decreases a.len(),
{
    if a.len() > 0 && b.len() > 0 && c.len() > 0 && a[0] == b[0] && b[0] == c[0] {
        lemma_bytes_transitive(a.drop_first(), b.drop_first(), c.drop_first());
    }
}

proof fn lemma_bytes_total(a: Seq<u8>, b: Seq<u8>)
    ensures
        a == b || bytes_lt(a, b) || bytes_lt(b, a),
    decreases a.len(),
{
    if a.len() > 0 && b.len() > 0 {
        lemma_bytes_total(a.drop_first(), b.drop_first());
        if a[0] == b[0] && a.drop_first() == b.drop_first() {
            assert(a =~= seq![a[0]] + a.drop_first());
            assert(b =~= seq![b[0]] + b.drop_first());
        }
    } else if a.len() == 0 && b.len() == 0 {
        assert(a =~= b);
    }
}

/// Compares byte strings: -1, 0 or 1 as `a` sorts before, equal to or after `b`.
fn compare_bytes(a: &[u8], b: &[u8]) -> (r: i8)
    ensures
        -1 <= r <= 1,
        r == -1 <==> bytes_lt(a@, b@),
        r == 0 <==> a@ == b@,
        r == 1 <==> bytes_lt(b@, a@),
{
    proof {
        lemma_bytes_total(a@, b@);
        if bytes_lt(a@, b@) && bytes_lt(b@, a@) {
            lemma_bytes_transitive(a@, b@, a@);
            lemma_bytes_irreflexive(a@);
        }
        if a@ == b@ {
            lemma_bytes_irreflexive(a@);
        }
    }
    let mut i: usize = 0;
    proof {
        assert(a@.skip(0) =~= a@);
        assert(b@.skip(0) =~= b@);
    }
    while i < a.len() && i < b.len()
        invariant
            i <= a@.len(),
            i <= b@.len(),
            a@.subrange(0, i as int) == b@.subrange(0, i as int),
            bytes_lt(a@, b@) == bytes_lt(a@.skip(i as int), b@.skip(i as int)),
            bytes_lt(b@, a@) == bytes_lt(b@.skip(i as int), a@.skip(i as int)),
        decreases a@.len() - i,
    {
        assert(a@.skip(i as int)[0] == a@[i as int] && b@.skip(i as int)[0] == b@[i as int]);
        if a[i] < b[i] {
            return -1;
        }
        if b[i] < a[i] {
            return 1;
        }
        assert(a@.skip(i as int).drop_first() =~= a@.skip(i as int + 1));
        assert(b@.skip(i as int).drop_first() =~= b@.skip(i as int + 1));
        assert(a@.subrange(0, i as int + 1) =~= a@.subrange(0, i as int).push(a@[i as int]));
        assert(b@.subrange(0, i as int + 1) =~= b@.subrange(0, i as int).push(b@[i as int]));
        i = i + 1;
    }
    if a.len() == b.len() {
        assert(a@ =~= a@.subrange(0, i as int));
        assert(b@ =~= b@.subrange(0, i as int));
        0
    } else if i == a.len() {
        assert(a@.skip(i as int).len() == 0);
        -1
    } else {
        assert(b@.skip(i as int).len() == 0);
        1
    }
}

/// Keys in strictly increasing order.
pub open spec fn sorted_entries(es: Seq<(Vec<u8>, Entry)>) -> bool {
    forall|i: int, j: int| 0 <= i < j < es.len() ==> bytes_lt(es[i].0@, es[j].0@)
}

/// The size an entry adds: its key's and value's bytes (a tombstone has no value).
pub open spec fn entry_bytes(k: Seq<u8>, e: Option<Seq<u8>>) -> nat {
    k.len() + match e {
        Some(v) => v.len(),
        None => 0,
    }
}

/// The in-memory table: the latest entry of each key written, in key order, and an estimate
/// of its size.
pub struct MemTable {
    entries: Vec<(Vec<u8>, Entry)>,
    estimated_size: usize,
}

impl MemTable {
    /// The entries, in key order.
    pub closed spec fn ordered(&self) -> Seq<(Seq<u8>, Option<Seq<u8>>)> {
        view_entries(self.entries@)
    }

    /// The entry of `k`, if it was written (`Some(None)` for a tombstone).
    pub closed spec fn lookup(&self, k: Seq<u8>) -> Option<Option<Seq<u8>>> {
        lookup_in(self.entries@, k)
    }

    pub closed spec fn size(&self) -> nat {
        self.estimated_size as nat
    }

    pub closed spec fn wf(&self) -> bool {
        sorted_entries(self.entries@) && self.estimated_size == total_entry_bytes(self.entries@)
    }

    pub fn new() -> (m: Self)
        ensures
            m.wf(),
            m.ordered() == Seq::<(Seq<u8>, Option<Seq<u8>>)>::empty(),
            m.size() == 0,
    {
        let m = MemTable { entries: Vec::new(), estimated_size: 0 };
        assert(m.ordered() =~= Seq::<(Seq<u8>, Option<Seq<u8>>)>::empty());
        assert(total_entry_bytes(m.entries@) == 0);
        m
    }

    fn position(&self, key: &[u8]) -> (r: (usize, bool))
        requires
            self.wf(),
        ensures
            r.0 <= self.entries@.len(),
            forall|i: int| 0 <= i < r.0 ==> bytes_lt(#[trigger] self.entries@[i].0@, key@),
            r.1 <==> (r.0 < self.entries@.len() && self.entries@[r.0 as int].0@ == key@),
            !r.1 ==> forall|i: int| r.0 <= i < self.entries@.len() ==> bytes_lt(key@, #[trigger] self.entries@[i].0@),
    {
        let mut i: usize = 0;
        while i < self.entries.len()
            invariant
                self.wf(),
                i <= self.entries@.len(),
                forall|j: int| 0 <= j < i ==> bytes_lt(#[trigger] self.entries@[j].0@, key@),
            decreases self.entries@.len() - i,
        {
            let c = compare_bytes(self.entries[i].0.as_slice(), key);
            if c != -1 {
                proof {
                    if c == 1 {
                        assert forall|j: int| i <= j < self.entries@.len() implies bytes_lt(key@, #[trigger] self.entries@[j].0@) by {
                            if j > i {
                                lemma_bytes_transitive(key@, self.entries@[i as int].0@, self.entries@[j].0@);
                            }
                        }
                    }
                }
                return (i, c == 0);
            }
            i = i + 1;
        }
        (i, false)
    }

    /// Records `entry` for `key`; the estimate grows by the key and value bytes of a new key,
    /// or by the change in value bytes of an overwrite.
    pub fn put(&mut self, key: Vec<u8>, entry: Entry)
        requires
            old(self).wf(),
            old(self).size() + entry_bytes(key@, entry_view(entry)) <= usize::MAX,
        ensures
            final(self).wf(),
            forall|k: Seq<u8>| k != key@ ==> #[trigger] final(self).lookup(k) == old(self).lookup(k),
            final(self).lookup(key@) == Some(entry_view(entry)),
            old(self).fits() && record_fits(key@, entry_view(entry)) ==> final(self).fits(),
            final(self).size() as int == match old(self).lookup(key@) {
                Some(o) => old(self).size() + entry_bytes(key@, entry_view(entry)) - entry_bytes(key@, o),
                None => old(self).size() + entry_bytes(key@, entry_view(entry)) as int,
            },
    {
        let key_len = key.len();
        let val_len = match &entry {
            Entry::Data(v) => v.len(),
            Entry::Tombstone => 0,
        };
        let (i, found) = self.position(key.as_slice());
        let ghost es = self.entries@;
        let ghost kv = key@;
        let ghost ev = entry_view(entry);
        if found {
            let old_val_len = match &self.entries[i].1 {
                Entry::Data(v) => v.len(),
                Entry::Tombstone => 0,
            };
            self.entries.set(i, (key, entry));
            proof {
                if table_fits(view_entries(es)) && record_fits(kv, ev) {
                    assert forall|j: int| 0 <= j < self.entries@.len() implies record_fits(
                        #[trigger] view_entries(self.entries@)[j].0,
                        view_entries(self.entries@)[j].1,
                    ) by {
                        if j != i {
                            assert(self.entries@[j] == es[j]);
                            assert(view_entries(es)[j] == view_entries(self.entries@)[j]);
                        }
                    }
                }
                lemma_sorted_lookup(es, i as int);
                lemma_replace_lookup(es, i as int, self.entries@);
                lemma_total_split(es, i as int);
                lemma_total_split(self.entries@, i as int);
                assert(self.entries@.subrange(0, i as int) =~= es.subrange(0, i as int));
                assert(self.entries@.subrange(i as int + 1, es.len() as int) =~= es.subrange(i as int + 1, es.len() as int));
            }
            self.estimated_size = self.estimated_size + val_len - old_val_len;
        } else {
            self.entries.insert(i, (key, entry));
            proof {
                if table_fits(view_entries(es)) && record_fits(kv, ev) {
                    assert forall|j: int| 0 <= j < self.entries@.len() implies record_fits(
                        #[trigger] view_entries(self.entries@)[j].0,
                        view_entries(self.entries@)[j].1,
                    ) by {
                        if j < i {
                            assert(self.entries@[j] == es[j]);
                            assert(view_entries(es)[j] == view_entries(self.entries@)[j]);
                        } else if j > i {
                            assert(self.entries@[j] == es[j - 1]);
                            assert(view_entries(es)[j - 1] == view_entries(self.entries@)[j]);
                        }
                    }
                }
                lemma_insert_lookup(es, i as int, self.entries@);
                let a = es.subrange(0, i as int);
                let b = es.subrange(i as int, es.len() as int);
                assert(es =~= a + b);
                assert(self.entries@ =~= a + seq![self.entries@[i as int]] + b);
                lemma_total_concat(a, b);
                lemma_total_concat(a + seq![self.entries@[i as int]], b);
                lemma_total_concat(a, seq![self.entries@[i as int]]);
                assert(seq![self.entries@[i as int]].drop_last() =~= Seq::<(Vec<u8>, Entry)>::empty());
                assert(total_entry_bytes(Seq::<(Vec<u8>, Entry)>::empty()) == 0);
            }
            self.estimated_size = self.estimated_size + key_len + val_len;
        }
    }

    /// The entry of `key`, if written.
    pub fn get(&self, key: &[u8]) -> (r: Option<Entry>)
        requires
            self.wf(),
        ensures
            match r {
                Some(e) => self.lookup(key@) == Some(entry_view(e)),
                None => self.lookup(key@) is None,
            },
    {
        let (i, found) = self.position(key);
        if found {
            proof {
                lemma_sorted_lookup(self.entries@, i as int);
            }
            let e = match &self.entries[i].1 {
                Entry::Data(v) => Entry::Data(copy_bytes(v)),
                Entry::Tombstone => Entry::Tombstone,
            };
            assert(entry_view(e) == entry_view(self.entries@[i as int].1));
            assert(self.entries@[i as int].0@ == key@);
            Some(e)
        } else {
            proof {
                if exists|j: int| 0 <= j < self.entries@.len() && self.entries@[j].0@ == key@ {
                    let j = choose|j: int| 0 <= j < self.entries@.len() && self.entries@[j].0@ == key@;
                    lemma_bytes_irreflexive(key@);
                    if j >= i {
                        assert(bytes_lt(key@, self.entries@[j].0@));
                    } else {
                        assert(bytes_lt(self.entries@[j].0@, key@));
                    }
                }
            }
            None
        }
    }

    /// Whether nothing was written.
    pub fn is_empty(&self) -> (b: bool)
        ensures
            b <==> self.ordered().len() == 0,
    {
        self.entries.len() == 0
    }

    /// The size estimate.
    pub fn estimated_size(&self) -> (n: usize)
        ensures
            n == self.size(),
    {
        self.estimated_size
    }

    /// Empties the table.
    pub fn clear(&mut self)
        ensures
            final(self).wf(),
            final(self).ordered() == Seq::<(Seq<u8>, Option<Seq<u8>>)>::empty(),
            final(self).size() == 0,
            final(self).fits(),
            forall|k: Seq<u8>| #[trigger] final(self).lookup(k) is None,
    {
        self.entries = Vec::new();
        self.estimated_size = 0;
        assert(self.ordered() =~= Seq::<(Seq<u8>, Option<Seq<u8>>)>::empty());
        assert(total_entry_bytes(self.entries@) == 0);
    }
}

fn copy_bytes(v: &Vec<u8>) -> (c: Vec<u8>)
    ensures
        c@ == v@,
{
    let mut c: Vec<u8> = Vec::new();
    let mut i: usize = 0;
    while i < v.len()
        invariant
            i <= v@.len(),
            c@ == v@.subrange(0, i as int),
        decreases v@.len() - i,
    {
        c.push(v[i]);
        proof {
            assert(v@.subrange(0, i as int + 1) =~= v@.subrange(0, i as int).push(v@[i as int]));
        }
        i = i + 1;
    }
    proof {
        assert(v@.subrange(0, i as int) =~= v@);
    }
    c
}

spec fn view_entries(es: Seq<(Vec<u8>, Entry)>) -> Seq<(Seq<u8>, Option<Seq<u8>>)> {
    es.map_values(|e: (Vec<u8>, Entry)| (e.0@, entry_view(e.1)))
}

spec fn lookup_in(es: Seq<(Vec<u8>, Entry)>, k: Seq<u8>) -> Option<Option<Seq<u8>>> {
    if exists|i: int| 0 <= i < es.len() && es[i].0@ == k {
        Some(entry_view(es[choose|i: int| 0 <= i < es.len() && es[i].0@ == k].1))
    } else {
        None
    }
}

/// The bytes of all entries.
spec fn total_entry_bytes(es: Seq<(Vec<u8>, Entry)>) -> nat
    decreases es.len(),
{
    if es.len() == 0 {
        0
    } else {
        total_entry_bytes(es.drop_last()) + entry_bytes(es.last().0@, entry_view(es.last().1))
    }
}

proof fn lemma_total_concat(a: Seq<(Vec<u8>, Entry)>, b: Seq<(Vec<u8>, Entry)>)
    ensures
        total_entry_bytes(a + b) == total_entry_bytes(a) + total_entry_bytes(b),
    decreases b.len(),
{
    if b.len() == 0 {
        assert(a + b =~= a);
    } else {
        assert((a + b).drop_last() =~= a + b.drop_last());
        lemma_total_concat(a, b.drop_last());
    }
}

proof fn lemma_total_split(s: Seq<(Vec<u8>, Entry)>, i: int)
    requires
        0 <= i < s.len(),
    ensures
        total_entry_bytes(s) == total_entry_bytes(s.subrange(0, i)) + entry_bytes(s[i].0@, entry_view(s[i].1))
            + total_entry_bytes(s.subrange(i + 1, s.len() as int)),
{
    let a = s.subrange(0, i);
    let b = s.subrange(i + 1, s.len() as int);
    assert(s =~= a + seq![s[i]] + b);
    lemma_total_concat(a + seq![s[i]], b);
    lemma_total_concat(a, seq![s[i]]);
    assert(seq![s[i]].drop_last() =~= Seq::<(Vec<u8>, Entry)>::empty());
    assert(total_entry_bytes(Seq::<(Vec<u8>, Entry)>::empty()) == 0);
}

proof fn lemma_sorted_lookup(es: Seq<(Vec<u8>, Entry)>, i: int)
    requires
        sorted_entries(es),
        0 <= i < es.len(),
    ensures
        lookup_in(es, es[i].0@) == Some(entry_view(es[i].1)),
{
    let k = es[i].0@;
    assert(exists|j: int| 0 <= j < es.len() && es[j].0@ == k);
    let j = choose|j: int| 0 <= j < es.len() && es[j].0@ == k;
    lemma_bytes_irreflexive(k);
    if j < i {
        assert(bytes_lt(es[j].0@, es[i].0@));
    } else if j > i {
        assert(bytes_lt(es[i].0@, es[j].0@));
    }
}

proof fn lemma_replace_lookup(es: Seq<(Vec<u8>, Entry)>, i: int, es2: Seq<(Vec<u8>, Entry)>)
    requires
        sorted_entries(es),
        0 <= i < es.len(),
        es2 == es.update(i, es2[i]),
        es2[i].0@ == es[i].0@,
    ensures
        sorted_entries(es2),
        lookup_in(es2, es[i].0@) == Some(entry_view(es2[i].1)),
        forall|k: Seq<u8>| k != es[i].0@ ==> #[trigger] lookup_in(es2, k) == lookup_in(es, k),
{
    assert forall|a: int, b: int| 0 <= a < b < es2.len() implies bytes_lt(es2[a].0@, es2[b].0@) by {
        assert(es2[a].0@ == es[a].0@ && es2[b].0@ == es[b].0@);
    }
    lemma_sorted_lookup(es2, i);
    assert forall|k: Seq<u8>| k != es[i].0@ implies #[trigger] lookup_in(es2, k) == lookup_in(es, k) by {
        if exists|j: int| 0 <= j < es.len() && es[j].0@ == k {
            let j = choose|j: int| 0 <= j < es.len() && es[j].0@ == k;
            assert(es2[j].0@ == k);
            lemma_sorted_lookup(es, j);
            lemma_sorted_lookup(es2, j);
        }
        if exists|j: int| 0 <= j < es2.len() && es2[j].0@ == k {
            let j = choose|j: int| 0 <= j < es2.len() && es2[j].0@ == k;
            assert(es[j].0@ == k);
        }
    }
}

proof fn lemma_insert_lookup(es: Seq<(Vec<u8>, Entry)>, i: int, es2: Seq<(Vec<u8>, Entry)>)
    requires
        sorted_entries(es),
        0 <= i <= es.len(),
        es2 == es.insert(i, es2[i]),
        forall|j: int| 0 <= j < i ==> bytes_lt(#[trigger] es[j].0@, es2[i].0@),
        forall|j: int| i <= j < es.len() ==> bytes_lt(es2[i].0@, #[trigger] es[j].0@),
    ensures
        sorted_entries(es2),
        lookup_in(es, es2[i].0@) is None,
        lookup_in(es2, es2[i].0@) == Some(entry_view(es2[i].1)),
        forall|k: Seq<u8>| k != es2[i].0@ ==> #[trigger] lookup_in(es2, k) == lookup_in(es, k),
{
    let k0 = es2[i].0@;
    assert forall|a: int, b: int| 0 <= a < b < es2.len() implies bytes_lt(es2[a].0@, es2[b].0@) by {
        if a < i && b > i {
            lemma_bytes_transitive(es[a].0@, k0, es[b - 1].0@);
        }
    }
    lemma_bytes_irreflexive(k0);
    if exists|j: int| 0 <= j < es.len() && es[j].0@ == k0 {
        let j = choose|j: int| 0 <= j < es.len() && es[j].0@ == k0;
        if j < i {
        } else {
        }
    }
    lemma_sorted_lookup(es2, i);
    assert forall|k: Seq<u8>| k != k0 implies #[trigger] lookup_in(es2, k) == lookup_in(es, k) by {
        if exists|j: int| 0 <= j < es.len() && es[j].0@ == k {
            let j = choose|j: int| 0 <= j < es.len() && es[j].0@ == k;
            lemma_sorted_lookup(es, j);
            if j < i {
                assert(es2[j] == es[j]);
                lemma_sorted_lookup(es2, j);
            } else {
                assert(es2[j + 1] == es[j]);
                lemma_sorted_lookup(es2, j + 1);
            }
        }
        if exists|j: int| 0 <= j < es2.len() && es2[j].0@ == k {
            let j = choose|j: int| 0 <= j < es2.len() && es2[j].0@ == k;
            if j < i {
                assert(es[j].0@ == k);
            } else if j > i {
                assert(es[j - 1].0@ == k);
            }
        }
    }
}

/// The value length that marks a tombstone in a table record.
const TOMBSTONE_MARKER: u32 = 0xFFFF_FFFFu32;

/// Why a table could not be read: it ends inside a record.
#[derive(Debug, Clone, Copy, PartialEq, Eq)]
pub enum TableError {
    Truncated,
}

/// One record of a table: the key's length and the value's length (the tombstone marker for
/// a tombstone) as four bytes each, least significant first, then the key and the value.
pub open spec fn record_bytes(k: Seq<u8>, e: Option<Seq<u8>>) -> Seq<u8> {
    match e {
        Some(v) => le_bytes(k.len(), 4) + le_bytes(v.len(), 4) + k + v,
        None => le_bytes(k.len(), 4) + le_bytes(0xFFFF_FFFF, 4) + k,
    }
}

/// The table of `os`: its records one after another.
pub open spec fn table_bytes(os: Seq<(Seq<u8>, Option<Seq<u8>>)>) -> Seq<u8>
    decreases os.len(),
{
    if os.len() == 0 {
        Seq::empty()
    } else {
        record_bytes(os[0].0, os[0].1) + table_bytes(os.drop_first())
    }
}

/// A key's length fits its four-byte field, and so does a value's length, short of the
/// tombstone marker.
pub open spec fn record_fits(k: Seq<u8>, e: Option<Seq<u8>>) -> bool {
    k.len() < 0x1_0000_0000 && match e {
        Some(v) => v.len() < 0xFFFF_FFFF,
        None => true,
    }
}

/// Every record of `os` fits.
pub open spec fn table_fits(os: Seq<(Seq<u8>, Option<Seq<u8>>)>) -> bool {
    forall|i: int| #![trigger os[i]] 0 <= i < os.len() ==> record_fits(os[i].0, os[i].1)
}

/// The first entry of `key` in `os`.
pub open spec fn find_first(os: Seq<(Seq<u8>, Option<Seq<u8>>)>, key: Seq<u8>) -> Option<Option<Seq<u8>>>
    decreases os.len(),
{
    if os.len() == 0 {
        None
    } else if os[0].0 == key {
        Some(os[0].1)
    } else {
        find_first(os.drop_first(), key)
    }
}

/// What a sequential search of table bytes `d` for `key` finds: nothing when fewer than four
/// bytes are left where a record would start, the entry of the first record with that key,
/// and an error when the bytes end inside a record's lengths, its key, or the value sought.
/// A record of another key is skipped whole; skipping past the end ends the search.
pub open spec fn scan_table(d: Seq<u8>, key: Seq<u8>) -> Result<Option<Option<Seq<u8>>>, TableError>
    decreases d.len(),
{
    if d.len() < 4 {
        Ok(None)
    } else if d.len() < 8 {
        Err(TableError::Truncated)
    } else {
        let kl = le_value(d.subrange(0, 4)) as int;
        let vm = le_value(d.subrange(4, 8)) as int;
        if d.len() < 8 + kl {
            Err(TableError::Truncated)
        } else if d.subrange(8, 8 + kl) == key {
            if vm == 0xFFFF_FFFF {
                Ok(Some(None))
            } else if d.len() < 8 + kl + vm {
                Err(TableError::Truncated)
            } else {
                Ok(Some(Some(d.subrange(8 + kl, 8 + kl + vm))))
            }
        } else {
            let next = if vm == 0xFFFF_FFFF {
                8 + kl
            } else if 8 + kl + vm <= d.len() {
                8 + kl + vm
            } else {
                d.len() as int
            };
            scan_table(d.subrange(next, d.len() as int), key)
        }
    }
}

proof fn lemma_pow256_4()
    ensures
        pow256(0) == 1,
        pow256(1) == 256,
        pow256(2) == 0x1_0000,
        pow256(3) == 0x100_0000,
        pow256(4) == 0x1_0000_0000,
{
    reveal_with_fuel(pow256, 5);
}

proof fn lemma_table_push(os: Seq<(Seq<u8>, Option<Seq<u8>>)>, x: (Seq<u8>, Option<Seq<u8>>))
    ensures
        table_bytes(os.push(x)) == table_bytes(os) + record_bytes(x.0, x.1),
    decreases os.len(),
{
    if os.len() == 0 {
        assert(os.push(x).drop_first() =~= Seq::<(Seq<u8>, Option<Seq<u8>>)>::empty());
        assert(table_bytes(os.push(x).drop_first()).len() == 0);
        assert(table_bytes(os.push(x)) =~= record_bytes(x.0, x.1));
        assert(table_bytes(os) =~= Seq::<u8>::empty());
    } else {
        assert(os.push(x).drop_first() =~= os.drop_first().push(x));
        lemma_table_push(os.drop_first(), x);
        assert(table_bytes(os.push(x)) =~= record_bytes(os[0].0, os[0].1) + (table_bytes(os.drop_first()) + record_bytes(x.0, x.1)));
    }
}

/// Searching the table of entries with distinct keys that fit finds the entry of the key.
proof fn lemma_scan_table(os: Seq<(Seq<u8>, Option<Seq<u8>>)>, key: Seq<u8>)
    requires
        table_fits(os),
        forall|i: int, j: int| 0 <= i < j < os.len() ==> os[i].0 != os[j].0,
    ensures
        scan_table(table_bytes(os), key) == Ok::<Option<Option<Seq<u8>>>, TableError>(find_first(os, key)),
    decreases os.len(),
{
    if os.len() == 0 {
        assert(table_bytes(os).len() == 0);
    } else {
        let k = os[0].0;
        let rest = os.drop_first();
        assert(os[0].0.len() < 0x1_0000_0000);
        lemma_pow256_4();
        lemma_le_round_trip(k.len(), 4);
        let d = table_bytes(os);
        let kl = k.len() as int;
        assert(table_fits(rest)) by {
            assert forall|i: int| 0 <= i < rest.len() implies record_fits(rest[i].0, rest[i].1) by {
                assert(rest[i] == os[i + 1]);
            }
        }
        lemma_scan_table(rest, key);
        match os[0].1 {
            Some(v) => {
                lemma_le_round_trip(v.len(), 4);
                assert(d.subrange(0, 4) =~= le_bytes(k.len(), 4));
                assert(d.subrange(8, 8 + kl) =~= k);
                let vl = v.len() as int;
                assert(d.subrange(4, 8) =~= le_bytes(v.len(), 4));
                assert(d.subrange(8 + kl, 8 + kl + vl) =~= v);
                assert(d.subrange(8 + kl + vl, d.len() as int) =~= table_bytes(rest));
            },
            None => {
                lemma_le_round_trip(0xFFFF_FFFF, 4);
                assert(d.subrange(0, 4) =~= le_bytes(k.len(), 4));
                assert(d.subrange(8, 8 + kl) =~= k);
                assert(d.subrange(4, 8) =~= le_bytes(0xFFFF_FFFF, 4));
                assert(d.subrange(8 + kl, d.len() as int) =~= table_bytes(rest));
            },
        }
    }
}

proof fn lemma_lookup_first(es: Seq<(Vec<u8>, Entry)>, k: Seq<u8>)
    requires
        sorted_entries(es),
    ensures
        lookup_in(es, k) == find_first(view_entries(es), k),
    decreases es.len(),
{
    let os = view_entries(es);
    if es.len() > 0 {
        let rest = es.drop_first();
        assert(os.drop_first() =~= view_entries(rest));
        assert(sorted_entries(rest)) by {
            assert forall|i: int, j: int| 0 <= i < j < rest.len() implies bytes_lt(rest[i].0@, rest[j].0@) by {
                assert(rest[i] == es[i + 1] && rest[j] == es[j + 1]);
            }
        }
        lemma_lookup_first(rest, k);
        if es[0].0@ == k {
            lemma_sorted_lookup(es, 0);
        } else if exists|j: int| 0 <= j < es.len() && es[j].0@ == k {
            let j = choose|j: int| 0 <= j < es.len() && es[j].0@ == k;
            assert(rest[j - 1] == es[j]);
            lemma_sorted_lookup(es, j);
            lemma_sorted_lookup(rest, j - 1);
        } else {
            if exists|j: int| 0 <= j < rest.len() && rest[j].0@ == k {
                let j = choose|j: int| 0 <= j < rest.len() && rest[j].0@ == k;
                assert(es[j + 1] == rest[j]);
            }
        }
    }
}

proof fn lemma_ordered_distinct(es: Seq<(Vec<u8>, Entry)>)
    requires
        sorted_entries(es),
    ensures
        forall|i: int, j: int|
            0 <= i < j < es.len() ==> #[trigger] view_entries(es)[i].0
                != #[trigger] view_entries(es)[j].0,
{
    assert forall|i: int, j: int| 0 <= i < j < es.len() implies es[i].0@ != es[j].0@ by {
        lemma_bytes_irreflexive(es[i].0@);
    }
}

fn push_le4(out: &mut Vec<u8>, n: u64)
    requires
        n < 0x1_0000_0000,
    ensures
        final(out)@ == old(out)@ + le_bytes(n as nat, 4),
{
    let ghost start = out@;
    let mut v: u64 = n;
    let mut i: usize = 0;
    while i < 4
        invariant
            i <= 4,
            le_bytes(n as nat, 4) == out@.subrange(start.len() as int, out@.len() as int) + le_bytes(v as nat, (4 - i) as nat),
            out@.subrange(0, start.len() as int) == start,
            start.len() <= out@.len(),
        decreases 4 - i,
    {
        proof {
            assert(le_bytes(v as nat, (4 - i) as nat) =~= seq![(v % 256) as u8] + le_bytes((v / 256) as nat, (4 - i - 1) as nat));
        }
        let ghost before = out@;
        out.push((v % 256) as u8);
        proof {
            assert(out@.subrange(start.len() as int, out@.len() as int) =~= before.subrange(start.len() as int, before.len() as int).push((v % 256) as u8));
            assert(out@.subrange(0, start.len() as int) =~= before.subrange(0, start.len() as int));
        }
        v = v / 256;
        i = i + 1;
    }
    proof {
        assert(le_bytes(v as nat, 0) =~= Seq::<u8>::empty());
        assert(out@ =~= start + le_bytes(n as nat, 4));
    }
}

fn push_bytes(out: &mut Vec<u8>, b: &[u8])
    ensures
        final(out)@ == old(out)@ + b@,
{
    let ghost start = out@;
    let mut j: usize = 0;
    while j < b.len()
        invariant
            j <= b@.len(),
            out@ == start + b@.subrange(0, j as int),
        decreases b@.len() - j,
    {
        out.push(b[j]);
        proof {
            assert(b@.subrange(0, j as int + 1) =~= b@.subrange(0, j as int).push(b@[j as int]));
        }
        j = j + 1;
    }
    proof {
        assert(b@.subrange(0, b@.len() as int) =~= b@);
    }
}

fn read_le4(d: &[u8], p: usize) -> (r: u64)
    requires
        p + 4 <= d@.len(),
    ensures
        r == le_value(d@.subrange(p as int, p + 4)),
        r < 0x1_0000_0000,
{
    proof {
        lemma_pow256_4();
    }
    let mut acc: u64 = 0;
    let mut i: usize = 4;
    proof {
        assert(d@.subrange(p + 4, p + 4).len() == 0);
    }
    while i > 0
        invariant
            i <= 4,
            p + 4 <= d.len(),
            acc == le_value(d@.subrange(p + i, p + 4)),
            acc < pow256((4 - i) as nat),
            pow256(4) == 0x1_0000_0000,
        decreases i,
    {
        proof {
            assert(d@.subrange(p + i - 1, p + 4).drop_first() =~= d@.subrange(p + i, p + 4));
            assert(pow256((4 - i + 1) as nat) == 256 * pow256((4 - i) as nat));
            lemma_pow256_4();
            if i == 1 {
            } else if i == 2 {
            } else if i == 3 {
            } else {
            }
            assert(acc < 0x100_0000);
        }
        acc = d[p + i - 1] as u64 + 256 * acc;
        i = i - 1;
    }
    acc
}

fn copy_range(d: &[u8], a: usize, b: usize) -> (c: Vec<u8>)
    requires
        a <= b <= d@.len(),
    ensures
        c@ == d@.subrange(a as int, b as int),
{
    let mut c: Vec<u8> = Vec::new();
    let mut i: usize = a;
    while i < b
        invariant
            a <= i <= b <= d@.len(),
            c@ == d@.subrange(a as int, i as int),
        decreases b - i,
    {
        c.push(d[i]);
        proof {
            assert(d@.subrange(a as int, i + 1) =~= d@.subrange(a as int, i as int).push(d@[i as int]));
        }
        i = i + 1;
    }
    c
}

fn range_equals(d: &[u8], a: usize, n: usize, key: &[u8]) -> (b: bool)
    requires
        a + n <= d@.len(),
    ensures
        b <==> d@.subrange(a as int, a + n) == key@,
{
    if n != key.len() {
        return false;
    }
    let mut i: usize = 0;
    while i < n
        invariant
            i <= n == key@.len(),
            a + n <= d.len(),
            forall|j: int| 0 <= j < i ==> d@[a + j] == key@[j],
        decreases n - i,
    {
        if d[a + i] != key[i] {
            assert(d@.subrange(a as int, a + n)[i as int] != key@[i as int]);
            return false;
        }
        i = i + 1;
    }
    assert(d@.subrange(a as int, a + n) =~= key@);
    true
}

impl MemTable {
    /// Every key and value length fits its field in a table record.
    pub closed spec fn fits(&self) -> bool {
        table_fits(self.ordered())
    }
}

/// The table a memory table is flushed to: its entries in key order, one record each.
pub fn encode_table(m: &MemTable) -> (t: Vec<u8>)
    requires
        m.wf(),
        m.fits(),
    ensures
        t@ == table_bytes(m.ordered()),
{
    let ghost os = m.ordered();
    let mut out: Vec<u8> = Vec::new();
    let mut i: usize = 0;
    proof {
        assert(os.subrange(0, 0) =~= Seq::<(Seq<u8>, Option<Seq<u8>>)>::empty());
    }
    while i < m.entries.len()
        invariant
            os == m.ordered(),
            os.len() == m.entries@.len(),
            i <= os.len(),
            table_fits(os),
            out@ == table_bytes(os.subrange(0, i as int)),
        decreases os.len() - i,
    {
        let key = &m.entries[i].0;
        proof {
            assert(os[i as int].0.len() < 0x1_0000_0000);
            assert(os[i as int] == (key@, entry_view(m.entries@[i as int].1)));
        }
        let ghost before = out@;
        push_le4(&mut out, key.len() as u64);
        match &m.entries[i].1 {
            Entry::Data(v) => {
                push_le4(&mut out, v.len() as u64);
                push_bytes(&mut out, key.as_slice());
                push_bytes(&mut out, v.as_slice());
                proof {
                    assert(out@ =~= before + record_bytes(os[i as int].0, os[i as int].1));
                }
            },
            Entry::Tombstone => {
                push_le4(&mut out, TOMBSTONE_MARKER as u64);
                push_bytes(&mut out, key.as_slice());
                proof {
                    assert(out@ =~= before + record_bytes(os[i as int].0, os[i as int].1));
                }
            },
        }
        proof {
            lemma_table_push(os.subrange(0, i as int), os[i as int]);
            assert(os.subrange(0, i + 1) =~= os.subrange(0, i as int).push(os[i as int]));
        }
        i = i + 1;
    }
    proof {
        assert(os.subrange(0, os.len() as int) =~= os);
    }
    out
}

/// Searches table bytes for `key`, record by record (see `scan_table`).
pub fn search_table(data: &[u8], key: &[u8]) -> (r: Result<Option<Entry>, TableError>)
    ensures
        match (r, scan_table(data@, key@)) {
            (Ok(Some(e)), Ok(Some(x))) => entry_view(e) == x,
            (Ok(None), Ok(None)) => true,
            (Err(a), Err(b)) => a == b,
            _ => false,
        },
{
    let mut pos: usize = 0;
    proof {
        assert(data@.subrange(0, data@.len() as int) =~= data@);
    }
    while pos <= data.len()
        invariant
            pos <= data@.len(),
            scan_table(data@.subrange(pos as int, data@.len() as int), key@) == scan_table(data@, key@),
        decreases data@.len() - pos,
    {
        let ghost s = data@.subrange(pos as int, data@.len() as int);
        let rem = data.len() - pos;
        if rem < 4 {
            return Ok(None);
        }
        if rem < 8 {
            return Err(TableError::Truncated);
        }
        let kl = read_le4(data, pos);
        let vm = read_le4(data, pos + 4);
        proof {
            assert(s.subrange(0, 4) =~= data@.subrange(pos as int, pos + 4));
            assert(s.subrange(4, 8) =~= data@.subrange(pos + 4, pos + 8));
        }
        if kl > (rem - 8) as u64 {
            return Err(TableError::Truncated);
        }
        let klen = kl as usize;
        let start = pos + 8;
        let same = range_equals(data, start, klen, key);
        proof {
            assert(s.subrange(8, 8 + klen) =~= data@.subrange(start as int, start + klen));
        }
        if same {
            if vm == TOMBSTONE_MARKER as u64 {
                return Ok(Some(Entry::Tombstone));
            }
            if vm > (rem - 8 - klen) as u64 {
                return Err(TableError::Truncated);
            }
            let vlen = vm as usize;
            let v = copy_range(data, start + klen, start + klen + vlen);
            proof {
                assert(s.subrange(8 + klen, 8 + klen + vlen) =~= data@.subrange(start + klen, start + klen + vlen));
            }
            return Ok(Some(Entry::Data(v)));
        }
        let next: usize = if vm == TOMBSTONE_MARKER as u64 {
            8 + klen
        } else if vm <= (rem - 8 - klen) as u64 {
            8 + klen + vm as usize
        } else {
            rem
        };
        proof {
            assert(s.subrange(next as int, s.len() as int) =~= data@.subrange(pos + next, data@.len() as int));
        }
        pos = pos + next;
    }
    Ok(None)
}

/// A flushed table, searched for any key, finds what the memory table held for it.
pub proof fn lemma_flushed_table_search(m: MemTable, key: Seq<u8>)
    requires
        m.wf(),
        m.fits(),
    ensures
        scan_table(table_bytes(m.ordered()), key) == Ok::<Option<Option<Seq<u8>>>, TableError>(m.lookup(key)),
{
    lemma_ordered_distinct(m.entries@);
    lemma_lookup_first(m.entries@, key);
    lemma_scan_table(m.ordered(), key);
}

/// What a read of `key` gives: the memory table's entry when it has one (`None` for a
/// tombstone), else the first table, newest first, whose search finds the key; an error of
/// the first table searched that cannot be read; nothing when no table has the key.
pub open spec fn layered_read(mem: Option<Option<Seq<u8>>>, tables: Seq<Seq<u8>>, key: Seq<u8>) -> Result<
    Option<Seq<u8>>,
    TableError,
>
    decreases tables.len(),
{
    match mem {
        Some(e) => Ok(e),
        None => if tables.len() == 0 {
            Ok(None)
        } else {
            match scan_table(tables[0], key) {
                Err(err) => Err(err),
                Ok(Some(e)) => Ok(e),
                Ok(None) => layered_read(None, tables.drop_first(), key),
            }
        },
    }
}

/// The state of an LSM store: the memory table, the flushed tables newest first (as their
/// bytes), and the size at which the memory table is flushed.
pub struct LsmTree {
    memtable: MemTable,
    tables: Vec<Vec<u8>>,
    flush_threshold: usize,
}

impl LsmTree {
    pub closed spec fn wf(&self) -> bool {
        self.memtable.wf() && self.memtable.fits()
    }

    /// The flushed tables, newest first.
    pub closed spec fn tables_view(&self) -> Seq<Seq<u8>> {
        self.tables@.map_values(|t: Vec<u8>| t@)
    }

    /// What a read of `key` gives.
    pub closed spec fn read(&self, key: Seq<u8>) -> Result<Option<Seq<u8>>, TableError> {
        layered_read(self.memtable.lookup(key), self.tables_view(), key)
    }

    /// The memory table's size estimate.
    pub closed spec fn pending_size(&self) -> nat {
        self.memtable.size()
    }

    /// Whether the memory table holds nothing.
    pub closed spec fn pending_empty(&self) -> bool {
        self.memtable.ordered().len() == 0
    }

    /// The table the memory table would be flushed to.
    pub closed spec fn pending_table(&self) -> Seq<u8> {
        table_bytes(self.memtable.ordered())
    }

    pub closed spec fn threshold(&self) -> nat {
        self.flush_threshold as nat
    }

    /// The size estimate after recording `e` for `key`.
    pub closed spec fn size_after(&self, key: Seq<u8>, e: Option<Seq<u8>>) -> int {
        match self.memtable.lookup(key) {
            Some(o) => self.memtable.size() + entry_bytes(key, e) - entry_bytes(key, o),
            None => self.memtable.size() + entry_bytes(key, e) as int,
        }
    }

    /// A store with an empty memory table over `tables` (newest first).
    pub fn with_tables(flush_threshold: usize, tables: Vec<Vec<u8>>) -> (c: Self)
        ensures
            c.wf(),
            c.tables_view() == tables@.map_values(|t: Vec<u8>| t@),
            c.pending_empty(),
            c.pending_size() == 0,
            c.threshold() == flush_threshold,
            forall|k: Seq<u8>| #[trigger] c.read(k) == layered_read(None, c.tables_view(), k),
    {
        let mut memtable = MemTable::new();
        memtable.clear();
        LsmTree { memtable, tables, flush_threshold }
    }

    /// An empty store.
    pub fn new(flush_threshold: usize) -> (c: Self)
        ensures
            c.wf(),
            c.tables_view().len() == 0,
            c.pending_empty(),
            c.threshold() == flush_threshold,
            forall|k: Seq<u8>| #[trigger] c.read(k) == Ok::<Option<Seq<u8>>, TableError>(None),
    {
        let c = LsmTree::with_tables(flush_threshold, Vec::new());
        assert(c.tables_view().len() == 0);
        c
    }

    /// Reads `key`: the memory table first, then the tables newest first.
    pub fn get(&self, key: &[u8]) -> (r: Result<Option<Vec<u8>>, TableError>)
        requires
            self.wf(),
        ensures
            match (r, self.read(key@)) {
                (Ok(Some(v)), Ok(Some(x))) => v@ == x,
                (Ok(None), Ok(None)) => true,
                (Err(a), Err(b)) => a == b,
                _ => false,
            },
    {
        match self.memtable.get(key) {
            Some(Entry::Data(v)) => return Ok(Some(v)),
            Some(Entry::Tombstone) => return Ok(None),
            None => {},
        }
        let ghost tv = self.tables_view();
        let mut i: usize = 0;
        proof {
            assert(tv.subrange(0, tv.len() as int) =~= tv);
        }
        while i < self.tables.len()
            invariant
                tv == self.tables_view(),
                tv.len() == self.tables@.len(),
                i <= tv.len(),
                self.memtable.lookup(key@) is None,
                layered_read(None, tv.subrange(i as int, tv.len() as int), key@) == self.read(key@),
            decreases tv.len() - i,
        {
            let found = search_table(self.tables[i].as_slice(), key);
            proof {
                let rest = tv.subrange(i as int, tv.len() as int);
                assert(rest[0] == self.tables@[i as int]@);
                assert(rest.drop_first() =~= tv.subrange(i + 1, tv.len() as int));
            }
            match found {
                Err(e) => return Err(e),
                Ok(Some(Entry::Data(v))) => return Ok(Some(v)),
                Ok(Some(Entry::Tombstone)) => return Ok(None),
                Ok(None) => {},
            }
            i = i + 1;
        }
        Ok(None)
    }

    /// Writes the memory table out as the newest table, when it holds anything, and returns
    /// that table's bytes. Every read gives what it gave before.
    pub fn force_flush(&mut self) -> (t: Option<Vec<u8>>)
        requires
            old(self).wf(),
        ensures
            final(self).wf(),
            final(self).threshold() == old(self).threshold(),
            final(self).pending_empty(),
            final(self).pending_size() == if old(self).pending_empty() { old(self).pending_size() } else { 0 },
            match t {
                Some(t) => !old(self).pending_empty() && t@ == old(self).pending_table() && final(self).tables_view()
                    == seq![t@] + old(self).tables_view(),
                None => old(self).pending_empty() && final(self).tables_view() == old(self).tables_view(),
            },
            forall|k: Seq<u8>| #[trigger] final(self).read(k) == old(self).read(k),
    {
        if self.memtable.is_empty() {
            return None;
        }
        let t = encode_table(&self.memtable);
        let ghost old_tables = self.tables_view();
        let ghost old_mem = self.memtable;
        let copy = copy_bytes(&t);
        self.tables.insert(0, copy);
        self.memtable.clear();
        proof {
            assert(self.tables_view() =~= seq![t@] + old_tables);
            assert forall|k: Seq<u8>| #[trigger] self.read(k) == layered_read(old_mem.lookup(k), old_tables, k) by {
                lemma_flushed_table_search(old_mem, k);
                assert(self.tables_view().drop_first() =~= old_tables);
            }
        }
        Some(t)
    }

    /// Records `entry` for `key`, then flushes when the size estimate has reached the
    /// threshold; returns the flushed table, if any.
    fn insert_entry(&mut self, key: Vec<u8>, entry: Entry) -> (t: Option<Vec<u8>>)
        requires
            old(self).wf(),
            record_fits(key@, entry_view(entry)),
            old(self).pending_size() + entry_bytes(key@, entry_view(entry)) <= usize::MAX,
        ensures
            final(self).wf(),
            final(self).threshold() == old(self).threshold(),
            final(self).read(key@) == Ok::<Option<Seq<u8>>, TableError>(entry_view(entry)),
            forall|k: Seq<u8>| k != key@ ==> #[trigger] final(self).read(k) == old(self).read(k),
            (t is Some) <==> old(self).size_after(key@, entry_view(entry)) >= old(self).threshold(),
            match t {
                Some(t) => final(self).tables_view() == seq![t@] + old(self).tables_view() && final(self).pending_empty(),
                None => final(self).tables_view() == old(self).tables_view() && final(self).pending_size()
                    == old(self).size_after(key@, entry_view(entry)),
            },
    {
        let ghost kv = key@;
        let ghost ev = entry_view(entry);
        self.memtable.put(key, entry);
        assert(self.read(kv) == Ok::<Option<Seq<u8>>, TableError>(ev));
        if self.memtable.estimated_size() >= self.flush_threshold {
            let t = self.force_flush();
            t
        } else {
            None
        }
    }

    /// Writes `value` under `key`; returns the table flushed, if any.
    pub fn put(&mut self, key: Vec<u8>, value: Vec<u8>) -> (t: Option<Vec<u8>>)
        requires
            old(self).wf(),
            key@.len() < 0x1_0000_0000,
            value@.len() < 0xFFFF_FFFF,
            old(self).pending_size() + key@.len() + value@.len() <= usize::MAX,
        ensures
            final(self).wf(),
            final(self).threshold() == old(self).threshold(),
            final(self).read(key@) == Ok::<Option<Seq<u8>>, TableError>(Some(value@)),
            forall|k: Seq<u8>| k != key@ ==> #[trigger] final(self).read(k) == old(self).read(k),
            (t is Some) <==> old(self).size_after(key@, Some(value@)) >= old(self).threshold(),
            match t {
                Some(t) => final(self).tables_view() == seq![t@] + old(self).tables_view() && final(self).pending_empty(),
                None => final(self).tables_view() == old(self).tables_view() && final(self).pending_size()
                    == old(self).size_after(key@, Some(value@)),
            },
    {
        self.insert_entry(key, Entry::Data(value))
    }

    /// Deletes `key` by writing a tombstone; returns the table flushed, if any.
    pub fn delete(&mut self, key: Vec<u8>) -> (t: Option<Vec<u8>>)
        requires
            old(self).wf(),
            key@.len() < 0x1_0000_0000,
            old(self).pending_size() + key@.len() <= usize::MAX,
        ensures
            final(self).wf(),
            final(self).threshold() == old(self).threshold(),
            final(self).read(key@) == Ok::<Option<Seq<u8>>, TableError>(None),
            forall|k: Seq<u8>| k != key@ ==> #[trigger] final(self).read(k) == old(self).read(k),
            (t is Some) <==> old(self).size_after(key@, None) >= old(self).threshold(),
            match t {
                Some(t) => final(self).tables_view() == seq![t@] + old(self).tables_view() && final(self).pending_empty(),
                None => final(self).tables_view() == old(self).tables_view() && final(self).pending_size()
                    == old(self).size_after(key@, None),
            },
    {
        self.insert_entry(key, Entry::Tombstone)
    }

    /// The memory table's size estimate.
    pub fn estimated_size(&self) -> (n: usize)
        ensures
            n == self.pending_size(),
    {
        self.memtable.estimated_size()
    }

    /// Whether the memory table holds nothing.
    pub fn memtable_is_empty(&self) -> (b: bool)
        ensures
            b == self.pending_empty(),
    {
        self.memtable.is_empty()
    }

    /// The number of flushed tables.
    pub fn table_count(&self) -> (n: usize)
        ensures
            n == self.tables_view().len(),
    {
        self.tables.len()
    }
}

// ---------------------------------------------------------------------------------------------
// Table files on disk
// ---------------------------------------------------------------------------------------------

/// `str::parse::<usize>`: an optional '+', then one or more ASCII digits whose value fits.
pub open spec fn parse_usize_spec(s: Seq<char>) -> Option<usize> {
    let ds = if s.len() > 0 && s[0] == '+' { s.skip(1) } else { s };
    if ds.len() == 0 || !all_digits(ds) || digits_value(ds) > usize::MAX {
        None
    } else {
        Some(digits_value(ds) as usize)
    }
}

/// The id of a table file whose name, without its extension, is `stem`.
pub fn parse_table_id(stem: &str) -> (r: Option<usize>)
    ensures
        r == parse_usize_spec(stem@),
{
    let s = chars_of(stem);
    let ghost t = stem@;
    let n = s.len();
    let mut start: usize = 0;
    if n > 0 && s[0] == '+' {
        start = 1;
    }
    let ghost ds = s@.subrange(start as int, n as int);
    proof {
        if n > 0 && t[0] == '+' {
            assert(ds =~= t.skip(1));
        } else {
            assert(ds =~= t);
        }
    }
    if start == n {
        return None;
    }
    let mut acc: u128 = 0;
    let mut i = start;
    while i < n
        invariant
            s@ == t,
            t == stem@,
            n == t.len(),
            start <= i <= n,
            ds == s@.subrange(start as int, n as int),
            ds == (if t.len() > 0 && t[0] == '+' { t.skip(1) } else { t }),
            ds.len() > 0,
            acc as int == digits_value(ds.take(i - start)),
            acc <= usize::MAX,
            all_digits(ds.take(i - start)),
        decreases n - i,
    {
        let c = s[i];
        proof {
            assert(ds.take(i - start + 1).drop_last() =~= ds.take(i - start));
            assert(ds.take(i - start + 1).last() == c);
            assert(ds[i - start] == c);
        }
        if !('0' <= c && c <= '9') {
            proof {
                assert(!is_digit(ds[i - start]));
                assert(!all_digits(ds));
            }
            return None;
        }
        let d = (c as u32) - ('0' as u32);
        acc = acc * 10 + d as u128;
        proof {
            assert(all_digits(ds.take(i - start + 1))) by {
                assert forall|q: int| 0 <= q < ds.take(i - start + 1).len() implies is_digit(#[trigger] ds.take(i - start + 1)[q]) by {
                    if q < i - start {
                        assert(ds.take(i - start + 1)[q] == ds.take(i - start)[q]);
                    }
                }
            }
            assert(acc as int == digits_value(ds.take(i - start + 1)));
        }
        if acc > usize::MAX as u128 {
            proof {
                if all_digits(ds) {
                    lemma_digits_value_monotone(ds, i - start + 1);
                }
            }
            return None;
        }
        i = i + 1;
    }
    proof {
        assert(ds.take(n - start) =~= ds);
    }
    Some(acc as usize)
}

/// The order in which to load table files named `stems` (each without its extension): the
/// position of every stem that is a table id, with that id, newest (largest id) first, and
/// files of equal id in the order they were listed.
pub fn table_load_order(stems: &Vec<String>) -> (r: Vec<(usize, usize)>)
    ensures
        forall|k: int| 0 <= k < r@.len() ==> {
            &&& (#[trigger] r@[k]).1 < stems@.len()
            &&& parse_usize_spec(stems@[r@[k].1 as int]@) == Some(r@[k].0)
        },
        forall|p: int| 0 <= p < stems@.len() && #[trigger] parse_usize_spec(stems@[p]@) is Some
            ==> exists|k: int| 0 <= k < r@.len() && (#[trigger] r@[k]).1 == p,
        forall|a: int, b: int| 0 <= a < b < r@.len() ==> {
            ||| (#[trigger] r@[a]).0 > (#[trigger] r@[b]).0
            ||| (r@[a].0 == r@[b].0 && r@[a].1 < r@[b].1)
        },
{
    let mut out: Vec<(usize, usize)> = Vec::new();
    let mut p: usize = 0;
    while p < stems.len()
        invariant
            p <= stems@.len(),
            forall|k: int| 0 <= k < out@.len() ==> {
                &&& (#[trigger] out@[k]).1 < p
                &&& parse_usize_spec(stems@[out@[k].1 as int]@) == Some(out@[k].0)
            },
            forall|q: int| 0 <= q < p && #[trigger] parse_usize_spec(stems@[q]@) is Some
                ==> exists|k: int| 0 <= k < out@.len() && (#[trigger] out@[k]).1 == q,
            forall|a: int, b: int| 0 <= a < b < out@.len() ==> {
                ||| (#[trigger] out@[a]).0 > (#[trigger] out@[b]).0
                ||| (out@[a].0 == out@[b].0 && out@[a].1 < out@[b].1)
            },
        decreases stems@.len() - p,
    {
        if let Some(id) = parse_table_id(stems[p].as_str()) {
            let mut k: usize = 0;
            while k < out.len() && out[k].0 >= id
                invariant
                    k <= out@.len(),
                    forall|a: int| 0 <= a < k ==> (#[trigger] out@[a]).0 >= id,
                decreases out@.len() - k,
            {
                k = k + 1;
            }
            let ghost before = out@;
            out.insert(k, (id, p));
            proof {
                before.insert_ensures(k as int, (id, p));
                assert forall|q: int| 0 <= q <= p && #[trigger] parse_usize_spec(stems@[q]@) is Some
                    implies exists|j: int| 0 <= j < out@.len() && (#[trigger] out@[j]).1 == q by {
                    if q == p {
                        assert(out@[k as int].1 == q);
                    } else {
                        let j = choose|j: int| 0 <= j < before.len() && (#[trigger] before[j]).1 == q;
                        if j < k {
                            assert(out@[j].1 == q);
                        } else {
                            assert(out@[j + 1].1 == q);
                        }
                    }
                }
                assert forall|a: int, b: int| 0 <= a < b < out@.len() implies {
                    ||| (#[trigger] out@[a]).0 > (#[trigger] out@[b]).0
                    ||| (out@[a].0 == out@[b].0 && out@[a].1 < out@[b].1)
                } by {
                    if a < k && b == k {
                        assert(out@[a] == before[a]);
                    } else if a < k && b > k {
                        assert(out@[a] == before[a] && out@[b] == before[b - 1]);
                    } else if a == k && b > k {
                        assert(out@[b] == before[b - 1]);
                        assert(before[b - 1].1 < p);
                    } else if b < k {
                        assert(out@[a] == before[a] && out@[b] == before[b]);
                    } else {
                        assert(out@[a] == before[a - 1] && out@[b] == before[b - 1]);
                    }
                }
                assert forall|j: int| 0 <= j < out@.len() implies {
                    &&& (#[trigger] out@[j]).1 < p + 1
                    &&& parse_usize_spec(stems@[out@[j].1 as int]@) == Some(out@[j].0)
                } by {
                    if j < k {
                        assert(out@[j] == before[j]);
                    } else if j > k {
                        assert(out@[j] == before[j - 1]);
                    }
                }
            }
        }
        p = p + 1;
    }
    out
}

} // verus!
