//! The data path of a small log-structured store: the write-ahead-log record of a write, its
//! replay into a sorted in-memory table, the size that decides when to flush, the sorted-table
//! text written on a flush, the scan of such a table for a key, and compaction of several
//! tables into one. Files, directories and Bloom filters stay with the caller.

use crate::cron::{all_digits, digits_value, is_digit, lemma_digits_value_monotone};
use crate::text::{chars_of, string_of};
use vstd::prelude::*;
use vstd::utf8::*;

verus! {

/// `a` sorts before `b`, character by character (for UTF-8 text this is also byte order).
pub open spec fn lex_lt(a: Seq<char>, b: Seq<char>) -> bool
    decreases a.len(),
{
    if a.len() == 0 {
        b.len() > 0
    } else if b.len() == 0 {
        false
    } else if a[0] != b[0] {
        a[0] < b[0]
    } else {
        lex_lt(a.drop_first(), b.drop_first())
    }
}

pub proof fn lemma_lex_irreflexive(a: Seq<char>)
    ensures
        !lex_lt(a, a),
    decreases a.len(),
{
    if a.len() > 0 {
        lemma_lex_irreflexive(a.drop_first());
    }
}

pub proof fn lemma_lex_transitive(a: Seq<char>, b: Seq<char>, c: Seq<char>)
    requires
        lex_lt(a, b),
        lex_lt(b, c),
    ensures
        lex_lt(a, c),
    decreases a.len(),
{
    if a.len() > 0 && b.len() > 0 && c.len() > 0 {
        if a[0] == b[0] && b[0] == c[0] {
            lemma_lex_transitive(a.drop_first(), b.drop_first(), c.drop_first());
        }
    }
}

pub proof fn lemma_lex_total(a: Seq<char>, b: Seq<char>)
    ensures
        a == b || lex_lt(a, b) || lex_lt(b, a),
        !(lex_lt(a, b) && lex_lt(b, a)),
    decreases a.len(),
{
    if a.len() > 0 && b.len() > 0 {
        lemma_lex_total(a.drop_first(), b.drop_first());
        if a[0] == b[0] && a.drop_first() == b.drop_first() {
            assert(a =~= seq![a[0]] + a.drop_first());
            assert(b =~= seq![b[0]] + b.drop_first());
        }
    } else if a.len() == 0 && b.len() == 0 {
        assert(a =~= b);
    }
}

/// Compares two strings: -1, 0 or 1 as `a` sorts before, equal to or after `b`.
pub fn compare_str(a: &str, b: &str) -> (r: i8)
    ensures
        -1 <= r <= 1,
        r == -1 <==> lex_lt(a@, b@),
        r == 0 <==> a@ == b@,
        r == 1 <==> lex_lt(b@, a@),
{
    proof {
        lemma_lex_total(a@, b@);
    }
    let n = a.unicode_len();
    let m = b.unicode_len();
    let mut i: usize = 0;
    proof {
        assert(a@.skip(0) =~= a@);
        assert(b@.skip(0) =~= b@);
    }
    while i < n && i < m
        invariant
            n == a@.len(),
            m == b@.len(),
            i <= n,
            i <= m,
            a@.subrange(0, i as int) == b@.subrange(0, i as int),
            lex_lt(a@, b@) == lex_lt(a@.skip(i as int), b@.skip(i as int)),
            lex_lt(b@, a@) == lex_lt(b@.skip(i as int), a@.skip(i as int)),
        decreases n - i,
    {
        let x = a.get_char(i);
        let y = b.get_char(i);
        assert(a@.skip(i as int)[0] == x && b@.skip(i as int)[0] == y);
        if x < y {
            return -1;
        }
        if y < x {
            return 1;
        }
        assert(a@.skip(i as int).drop_first() =~= a@.skip(i as int + 1));
        assert(b@.skip(i as int).drop_first() =~= b@.skip(i as int + 1));
        assert(a@.subrange(0, i as int + 1) =~= a@.subrange(0, i as int).push(x));
        assert(b@.subrange(0, i as int + 1) =~= b@.subrange(0, i as int).push(y));
        i = i + 1;
    }
    if n == m {
        assert(a@ =~= a@.subrange(0, i as int));
        assert(b@ =~= b@.subrange(0, i as int));
        0
    } else if i == n {
        assert(a@.skip(i as int).len() == 0);
        -1
    } else {
        assert(b@.skip(i as int).len() == 0);
        assert(a@ != b@) by {
            if a@ == b@ {
                assert(n == m);
            }
        }
        1
    }
}

/// Keys in strictly increasing order.
pub open spec fn sorted_keys(es: Seq<(String, String)>) -> bool {
    forall|i: int, j: int| 0 <= i < j < es.len() ==> lex_lt(es[i].0@, es[j].0@)
}

/// The entries as a map from key to value.
pub open spec fn entries_view(es: Seq<(String, String)>) -> Map<Seq<char>, Seq<char>> {
    Map::new(
        |k: Seq<char>| exists|i: int| 0 <= i < es.len() && es[i].0@ == k,
        |k: Seq<char>| es[choose|i: int| 0 <= i < es.len() && es[i].0@ == k].1@,
    )
}

/// A map from string to string that keeps its keys in order.
pub struct SortedMap {
    entries: Vec<(String, String)>,
}

impl SortedMap {
    pub closed spec fn view(&self) -> Map<Seq<char>, Seq<char>> {
        entries_view(self.entries@)
    }

    /// The entries in key order.
    pub closed spec fn ordered(&self) -> Seq<(Seq<char>, Seq<char>)> {
        self.entries@.map_values(|e: (String, String)| (e.0@, e.1@))
    }

    pub closed spec fn wf(&self) -> bool {
        sorted_keys(self.entries@)
    }

    pub fn new() -> (m: Self)
        ensures
            m.wf(),
            m@ == Map::<Seq<char>, Seq<char>>::empty(),
            m.ordered() == Seq::<(Seq<char>, Seq<char>)>::empty(),
    {
        let m = SortedMap { entries: Vec::new() };
        assert(m@ =~= Map::<Seq<char>, Seq<char>>::empty());
        assert(m.ordered() =~= Seq::<(Seq<char>, Seq<char>)>::empty());
        m
    }

    /// Where `key` is, or where it would go: the first position whose key does not sort
    /// before it.
    fn position(&self, key: &str) -> (r: (usize, bool))
        requires
            self.wf(),
        ensures
            r.0 <= self.entries@.len(),
            forall|i: int| 0 <= i < r.0 ==> lex_lt(#[trigger] self.entries@[i].0@, key@),
            r.1 <==> (r.0 < self.entries@.len() && self.entries@[r.0 as int].0@ == key@),
            !r.1 ==> forall|i: int| r.0 <= i < self.entries@.len() ==> lex_lt(key@, #[trigger] self.entries@[i].0@),
    {
        let mut i: usize = 0;
        while i < self.entries.len()
            invariant
                self.wf(),
                i <= self.entries@.len(),
                forall|j: int| 0 <= j < i ==> lex_lt(#[trigger] self.entries@[j].0@, key@),
            decreases self.entries@.len() - i,
        {
            let c = compare_str(self.entries[i].0.as_str(), key);
            if c != -1 {
                proof {
                    if c == 1 {
                        assert forall|j: int| i <= j < self.entries@.len() implies lex_lt(key@, #[trigger] self.entries@[j].0@) by {
                            if j > i {
                                lemma_lex_transitive(key@, self.entries@[i as int].0@, self.entries@[j].0@);
                            }
                        }
                    }
                }
                return (i, c == 0);
            }
            i = i + 1;
        }
        (i, false)
    }

    /// The value of `key`.
    pub fn get(&self, key: &str) -> (r: Option<String>)
        requires
            self.wf(),
        ensures
            match r {
                Some(v) => self@.contains_key(key@) && v@ == self@[key@],
                None => !self@.contains_key(key@),
            },
    {
        let (i, found) = self.position(key);
        if found {
            proof {
                lemma_entry_at(self.entries@, i as int);
            }
            Some(self.entries[i].1.clone())
        } else {
            proof {
                if self@.contains_key(key@) {
                    let j = choose|j: int| 0 <= j < self.entries@.len() && self.entries@[j].0@ == key@;
                    if j < i {
                        lemma_lex_irreflexive(key@);
                    } else {
                        lemma_lex_irreflexive(key@);
                    }
                }
            }
            None
        }
    }

    /// Sets `key` to `value`; gives back the value it replaced.
    pub fn insert(&mut self, key: String, value: String) -> (old_value: Option<String>)
        requires
            old(self).wf(),
        ensures
            final(self).wf(),
            final(self)@ == old(self)@.insert(key@, value@),
            match old_value {
                Some(v) => old(self)@.contains_key(key@) && v@ == old(self)@[key@],
                None => !old(self)@.contains_key(key@),
            },
            old_value is Some ==> exists|i: int|
                0 <= i < old(self).ordered().len() && old(self).ordered()[i].0 == key@ && final(self).ordered()
                    == old(self).ordered().update(i, (key@, value@)),
            old_value is None ==> exists|i: int|
                0 <= i <= old(self).ordered().len() && final(self).ordered() == old(self).ordered().insert(
                    i,
                    (key@, value@),
                ),
    {
        let (i, found) = self.position(key.as_str());
        let ghost es = self.entries@;
        let ghost kv = key@;
        let ghost vv = value@;
        if found {
            proof {
                lemma_entry_at(es, i as int);
            }
            let mut old_v = value;
            std::mem::swap(&mut self.entries[i].1, &mut old_v);
            proof {
                assert(self.entries@ == es.update(i as int, (es[i as int].0, self.entries@[i as int].1)));
                lemma_replace_view(es, i as int, self.entries@);
                assert(self@ =~= old(self)@.insert(kv, vv));
                assert(self.ordered() =~= old(self).ordered().update(i as int, (kv, vv)));
            }
            Some(old_v)
        } else {
            self.entries.insert(i, (key, value));
            proof {
                lemma_insert_view(es, i as int, self.entries@);
                assert(!old(self)@.contains_key(kv)) by {
                    if old(self)@.contains_key(kv) {
                        let j = choose|j: int| 0 <= j < es.len() && es[j].0@ == kv;
                        lemma_lex_irreflexive(kv);
                    }
                }
                assert(self.ordered() =~= old(self).ordered().insert(i as int, (kv, vv)));
            }
            None
        }
    }

    /// The number of entries.
    pub fn len(&self) -> (n: usize)
        ensures
            n == self.ordered().len(),
    {
        self.entries.len()
    }

    /// Whether there are no entries.
    pub fn is_empty(&self) -> (b: bool)
        requires
            self.wf(),
        ensures
            b <==> self@ == Map::<Seq<char>, Seq<char>>::empty(),
    {
        proof {
            if self.entries@.len() > 0 {
                assert(self@.contains_key(self.entries@[0].0@));
            } else {
                assert(self@ =~= Map::<Seq<char>, Seq<char>>::empty());
            }
        }
        self.entries.len() == 0
    }
}

/// In sorted entries, a key's value is the one stored beside it.
proof fn lemma_entry_at(es: Seq<(String, String)>, i: int)
    requires
        sorted_keys(es),
        0 <= i < es.len(),
    ensures
        entries_view(es).contains_key(es[i].0@),
        entries_view(es)[es[i].0@] == es[i].1@,
{
    let k = es[i].0@;
    assert(exists|j: int| 0 <= j < es.len() && es[j].0@ == k);
    let j = choose|j: int| 0 <= j < es.len() && es[j].0@ == k;
    lemma_lex_irreflexive(k);
    if j < i {
        assert(lex_lt(es[j].0@, es[i].0@));
    } else if j > i {
        assert(lex_lt(es[i].0@, es[j].0@));
    }
    assert(j == i);
}

proof fn lemma_replace_view(es: Seq<(String, String)>, i: int, es2: Seq<(String, String)>)
    requires
        sorted_keys(es),
        0 <= i < es.len(),
        es2.len() == es.len(),
        forall|j: int| 0 <= j < es.len() && j != i ==> es2[j] == es[j],
        es2[i].0 == es[i].0,
    ensures
        sorted_keys(es2),
        entries_view(es2) == entries_view(es).insert(es[i].0@, es2[i].1@),
{
    let k = es[i].0@;
    assert forall|a: int, b: int| 0 <= a < b < es2.len() implies lex_lt(es2[a].0@, es2[b].0@) by {
        assert(es2[a].0@ == es[a].0@ && es2[b].0@ == es[b].0@);
    }
    assert forall|x: Seq<char>| #[trigger] entries_view(es2).contains_key(x) == entries_view(es).insert(k, es2[i].1@).contains_key(x) by {
        if entries_view(es2).contains_key(x) {
            let j = choose|j: int| 0 <= j < es2.len() && es2[j].0@ == x;
            assert(es[j].0@ == x);
        }
        if entries_view(es).contains_key(x) {
            let j = choose|j: int| 0 <= j < es.len() && es[j].0@ == x;
            assert(es2[j].0@ == x);
        }
        if x == k {
            assert(es2[i].0@ == x);
        }
    }
    assert forall|x: Seq<char>| #[trigger] entries_view(es2).contains_key(x) implies entries_view(es2)[x] == entries_view(
        es,
    ).insert(k, es2[i].1@)[x] by {
        let j = choose|j: int| 0 <= j < es2.len() && es2[j].0@ == x;
        lemma_entry_at(es2, j);
        if x != k {
            assert(j != i);
            lemma_entry_at(es, j);
        } else {
            if j != i {
                lemma_lex_irreflexive(k);
            }
        }
    }
    assert(entries_view(es2) =~= entries_view(es).insert(k, es2[i].1@));
}

proof fn lemma_insert_view(es: Seq<(String, String)>, i: int, es2: Seq<(String, String)>)
    requires
        sorted_keys(es),
        0 <= i <= es.len(),
        es2.len() == es.len() + 1,
        forall|j: int| 0 <= j < i ==> es2[j] == es[j],
        forall|j: int| i < j < es2.len() ==> es2[j] == es[j - 1],
        forall|j: int| 0 <= j < i ==> lex_lt(#[trigger] es[j].0@, es2[i].0@),
        forall|j: int| i <= j < es.len() ==> lex_lt(es2[i].0@, #[trigger] es[j].0@),
    ensures
        sorted_keys(es2),
        entries_view(es2) == entries_view(es).insert(es2[i].0@, es2[i].1@),
{
    let k = es2[i].0@;
    assert forall|a: int, b: int| 0 <= a < b < es2.len() implies lex_lt(es2[a].0@, es2[b].0@) by {
        if a < i && b < i {
        } else if a < i && b == i {
        } else if a < i && b > i {
            assert(es2[b] == es[b - 1]);
            lemma_lex_transitive(es[a].0@, k, es[b - 1].0@);
        } else if a == i {
            assert(es2[b] == es[b - 1]);
        } else {
            assert(es2[a] == es[a - 1] && es2[b] == es[b - 1]);
        }
    }
    assert forall|x: Seq<char>| #[trigger] entries_view(es2).contains_key(x) == entries_view(es).insert(k, es2[i].1@).contains_key(x) by {
        if entries_view(es2).contains_key(x) {
            let j = choose|j: int| 0 <= j < es2.len() && es2[j].0@ == x;
            if j < i {
                assert(es[j].0@ == x);
            } else if j > i {
                assert(es[j - 1].0@ == x);
            }
        }
        if entries_view(es).contains_key(x) {
            let j = choose|j: int| 0 <= j < es.len() && es[j].0@ == x;
            if j < i {
                assert(es2[j].0@ == x);
            } else {
                assert(es2[j + 1].0@ == x);
            }
        }
        if x == k {
            assert(es2[i].0@ == x);
        }
    }
    assert forall|x: Seq<char>| #[trigger] entries_view(es2).contains_key(x) implies entries_view(es2)[x] == entries_view(
        es,
    ).insert(k, es2[i].1@)[x] by {
        let j = choose|j: int| 0 <= j < es2.len() && es2[j].0@ == x;
        lemma_entry_at(es2, j);
        if j < i {
            lemma_entry_at(es, j);
            if x == k {
                lemma_lex_irreflexive(k);
            }
        } else if j > i {
            lemma_entry_at(es, j - 1);
            if x == k {
                lemma_lex_irreflexive(k);
            }
        }
    }
    assert(entries_view(es2) =~= entries_view(es).insert(k, es2[i].1@));
}


/// The bytes of an entry: its key's and its value's UTF-8 lengths.
pub open spec fn kv_bytes(e: (Seq<char>, Seq<char>)) -> nat {
    encode_utf8(e.0).len() + encode_utf8(e.1).len()
}

/// The bytes of all entries.
pub open spec fn total_bytes(s: Seq<(Seq<char>, Seq<char>)>) -> nat
    decreases s.len(),
{
    if s.len() == 0 {
        0
    } else {
        total_bytes(s.drop_last()) + kv_bytes(s.last())
    }
}

proof fn lemma_total_concat(a: Seq<(Seq<char>, Seq<char>)>, b: Seq<(Seq<char>, Seq<char>)>)
    ensures
        total_bytes(a + b) == total_bytes(a) + total_bytes(b),
    decreases b.len(),
{
    if b.len() == 0 {
        assert(a + b =~= a);
    } else {
        assert((a + b).drop_last() =~= a + b.drop_last());
        lemma_total_concat(a, b.drop_last());
    }
}

proof fn lemma_total_single(x: (Seq<char>, Seq<char>))
    ensures
        total_bytes(seq![x]) == kv_bytes(x),
{
    assert(seq![x].drop_last() =~= Seq::<(Seq<char>, Seq<char>)>::empty());
    assert(total_bytes(Seq::<(Seq<char>, Seq<char>)>::empty()) == 0);
}

proof fn lemma_total_ge(s: Seq<(Seq<char>, Seq<char>)>, i: int)
    requires
        0 <= i < s.len(),
    ensures
        total_bytes(s) >= kv_bytes(s[i]),
{
    lemma_total_update(s, i, s[i]);
    let a = s.subrange(0, i);
    let b = s.subrange(i + 1, s.len() as int);
    assert(s =~= a + seq![s[i]] + b);
    lemma_total_concat(a + seq![s[i]], b);
    lemma_total_concat(a, seq![s[i]]);
    lemma_total_single(s[i]);
}

proof fn lemma_total_insert(s: Seq<(Seq<char>, Seq<char>)>, i: int, x: (Seq<char>, Seq<char>))
    requires
        0 <= i <= s.len(),
    ensures
        total_bytes(s.insert(i, x)) == total_bytes(s) + kv_bytes(x),
{
    let a = s.subrange(0, i);
    let b = s.subrange(i, s.len() as int);
    assert(s =~= a + b);
    assert(s.insert(i, x) =~= a + seq![x] + b);
    lemma_total_concat(a, b);
    lemma_total_concat(a + seq![x], b);
    lemma_total_concat(a, seq![x]);
    lemma_total_single(x);
}

proof fn lemma_total_update(s: Seq<(Seq<char>, Seq<char>)>, i: int, x: (Seq<char>, Seq<char>))
    requires
        0 <= i < s.len(),
    ensures
        total_bytes(s.update(i, x)) + kv_bytes(s[i]) == total_bytes(s) + kv_bytes(x),
{
    let a = s.subrange(0, i);
    let b = s.subrange(i + 1, s.len() as int);
    assert(s =~= a + seq![s[i]] + b);
    assert(s.update(i, x) =~= a + seq![x] + b);
    lemma_total_concat(a + seq![s[i]], b);
    lemma_total_concat(a, seq![s[i]]);
    lemma_total_concat(a + seq![x], b);
    lemma_total_concat(a, seq![x]);
    lemma_total_single(x);
    lemma_total_single(s[i]);
}

/// The byte count after setting `k` to `v` in a table `m` of `size` bytes.
pub open spec fn put_size(m: Map<Seq<char>, Seq<char>>, size: int, k: Seq<char>, v: Seq<char>) -> int {
    if m.contains_key(k) {
        size - encode_utf8(m[k]).len() + encode_utf8(v).len()
    } else {
        size + encode_utf8(k).len() + encode_utf8(v).len()
    }
}

/// The in-memory table and its size in bytes (keys and values).
pub struct Memtable {
    map: SortedMap,
    size: usize,
}

impl Memtable {
    pub closed spec fn view(&self) -> Map<Seq<char>, Seq<char>> {
        self.map@
    }

    pub closed spec fn ordered(&self) -> Seq<(Seq<char>, Seq<char>)> {
        self.map.ordered()
    }

    pub closed spec fn size(&self) -> nat {
        self.size as nat
    }

    pub closed spec fn wf(&self) -> bool {
        self.map.wf() && self.size == total_bytes(self.map.ordered())
    }

    pub fn new() -> (m: Self)
        ensures
            m.wf(),
            m@ == Map::<Seq<char>, Seq<char>>::empty(),
            m.size() == 0,
    {
        Memtable { map: SortedMap::new(), size: 0 }
    }

    /// Sets `key` to `value`, keeping the byte count: a new key adds its key and value bytes,
    /// an overwrite swaps the old value's bytes for the new one's.
    pub fn put(&mut self, key: String, value: String)
        requires
            old(self).wf(),
            put_size(old(self)@, old(self).size() as int, key@, value@) <= usize::MAX,
        ensures
            final(self).wf(),
            final(self)@ == old(self)@.insert(key@, value@),
            final(self).size() == put_size(old(self)@, old(self).size() as int, key@, value@),
    {
        let key_len = key.as_str().len();
        let val_len = value.as_str().len();
        let ghost kv = key@;
        let ghost vv = value@;
        let ghost before = self.map.ordered();
        match self.map.insert(key, value) {
            Some(old_val) => {
                proof {
                    let i = choose|i: int|
                        0 <= i < before.len() && before[i].0 == kv && self.map.ordered() == before.update(i, (kv, vv));
                    lemma_total_update(before, i, (kv, vv));
                    lemma_total_ge(before, i);
                    lemma_entry_at(old(self).map.entries@, i);
                    assert(old_val@ == before[i].1);
                }
                let old_len = old_val.as_str().len();
                self.size = self.size - old_len;
                self.size = self.size + val_len;
            },
            None => {
                proof {
                    let i = choose|i: int| 0 <= i <= before.len() && self.map.ordered() == before.insert(i, (kv, vv));
                    lemma_total_insert(before, i, (kv, vv));
                }
                self.size = self.size + key_len + val_len;
            },
        }
    }

    /// The value of `key`.
    pub fn get(&self, key: &str) -> (r: Option<String>)
        requires
            self.wf(),
        ensures
            match r {
                Some(v) => self@.contains_key(key@) && v@ == self@[key@],
                None => !self@.contains_key(key@),
            },
    {
        self.map.get(key)
    }

    /// The byte count of the table.
    pub fn byte_size(&self) -> (n: usize)
        ensures
            n == self.size(),
    {
        self.size
    }

    pub fn is_empty(&self) -> (b: bool)
        requires
            self.wf(),
        ensures
            b <==> self@ == Map::<Seq<char>, Seq<char>>::empty(),
    {
        self.map.is_empty()
    }

    /// Whether a write of `key` and `value` must flush the table first: the table is not
    /// empty and the write would take it past `threshold` bytes.
    pub fn needs_flush(&self, key: &str, value: &str, threshold: usize) -> (b: bool)
        requires
            self.wf(),
            encode_utf8(key@).len() <= usize::MAX,
            encode_utf8(value@).len() <= usize::MAX,
        ensures
            b <==> (self.size() + encode_utf8(key@).len() + encode_utf8(value@).len() > threshold && self@
                != Map::<Seq<char>, Seq<char>>::empty()),
    {
        let kl = key.len();
        let vl = value.len();
        proof {
            assert(kl == encode_utf8(key@).len());
            assert(vl == encode_utf8(value@).len());
        }
        let entry_size: u128 = kl as u128 + vl as u128;
        let total: u128 = self.size as u128 + entry_size;
        let empty = self.is_empty();
        proof {
            assert(total == self.size() + encode_utf8(key@).len() + encode_utf8(value@).len());
        }
        total > threshold as u128 && !empty
    }

    /// The sorted table as written to disk: one `key,value` line per entry, in key order.
    pub fn sstable_text(&self) -> (s: String)
        requires
            self.wf(),
        ensures
            s@ == table_text(self.ordered()),
    {
        self.map.text()
    }

    /// Empties the table.
    pub fn clear(&mut self)
        ensures
            final(self).wf(),
            final(self)@ == Map::<Seq<char>, Seq<char>>::empty(),
            final(self).size() == 0,
    {
        self.map = SortedMap::new();
        self.size = 0;
    }
}

proof fn lemma_entry_view_ordered(m: &Memtable, i: int)
    requires
        m.map.wf(),
        0 <= i < m.map.ordered().len(),
    ensures
        m.map@.contains_key(m.map.ordered()[i].0),
        m.map@[m.map.ordered()[i].0] == m.map.ordered()[i].1,
{
    lemma_entry_at(m.map.entries@, i);
}

/// `key,value` lines, one per entry.
pub open spec fn table_text(es: Seq<(Seq<char>, Seq<char>)>) -> Seq<char>
    decreases es.len(),
{
    if es.len() == 0 {
        seq![]
    } else {
        table_text(es.drop_last()) + es.last().0 + seq![','] + es.last().1 + seq!['\n']
    }
}

impl SortedMap {
    /// The entries as `key,value` lines, in key order.
    pub fn text(&self) -> (s: String)
        ensures
            s@ == table_text(self.ordered()),
    {
        let mut s = String::new();
        let mut i: usize = 0;
        proof {
            assert(self.ordered().take(0) =~= Seq::<(Seq<char>, Seq<char>)>::empty());
        }
        while i < self.entries.len()
            invariant
                i <= self.entries@.len(),
                s@ == table_text(self.ordered().take(i as int)),
            decreases self.entries@.len() - i,
        {
            let ghost before = s@;
            s = s.concat(self.entries[i].0.as_str());
            s = s.concat(",");
            s = s.concat(self.entries[i].1.as_str());
            s = s.concat("\n");
            proof {
                reveal_strlit(",");
                reveal_strlit("\n");
                assert(self.ordered().take(i as int + 1).drop_last() =~= self.ordered().take(i as int));
            }
            i = i + 1;
        }
        proof {
            assert(self.ordered().take(i as int) =~= self.ordered());
        }
        s
    }
}


/// `256^k`.
pub open spec fn pow256(k: nat) -> nat
    decreases k,
{
    if k == 0 {
        1
    } else {
        256 * pow256((k - 1) as nat)
    }
}

/// The low `k` bytes of `n`, least significant first.
pub open spec fn le_bytes(n: nat, k: nat) -> Seq<u8>
    decreases k,
{
    if k == 0 {
        seq![]
    } else {
        seq![(n % 256) as u8] + le_bytes(n / 256, (k - 1) as nat)
    }
}

/// The number whose bytes, least significant first, are `s`.
pub open spec fn le_value(s: Seq<u8>) -> nat
    decreases s.len(),
{
    if s.len() == 0 {
        0
    } else {
        s[0] as nat + 256 * le_value(s.drop_first())
    }
}

pub proof fn lemma_le_round_trip(n: nat, k: nat)
    requires
        n < pow256(k),
    ensures
        le_bytes(n, k).len() == k,
        le_value(le_bytes(n, k)) == n,
    decreases k,
{
    if k > 0 {
        lemma_le_round_trip(n / 256, (k - 1) as nat);
        assert((seq![(n % 256) as u8] + le_bytes(n / 256, (k - 1) as nat)).drop_first() =~= le_bytes(n / 256, (k - 1) as nat));
    }
}

/// The text of `b`, each invalid UTF-8 sequence replaced by U+FFFD.
pub uninterp spec fn lossy(b: Seq<u8>) -> Seq<char>;

/// `String::from_utf8_lossy`: the text of `b` with each invalid sequence replaced by the
/// replacement character; a valid UTF-8 input reads as itself.
#[verifier::external_body]
pub(crate) fn utf8_lossy(b: &[u8]) -> (s: String)
    ensures
        s@ == lossy(b@),
        valid_utf8(b@) ==> s@ == decode_utf8(b@),
        encode_utf8(s@).len() <= isize::MAX,
{
    String::from_utf8_lossy(b).to_string()
}

/// A write-ahead-log record of a write: the key's byte length in eight bytes (least
/// significant first), the key's bytes, then the value's bytes.
pub open spec fn wal_record(key: Seq<char>, value: Seq<char>) -> Seq<u8> {
    le_bytes(encode_utf8(key).len(), 8) + encode_utf8(key) + encode_utf8(value)
}

/// The key bytes and value bytes of a record, or `None` when it is too short for its header
/// or its key.
pub open spec fn wal_spans(e: Seq<u8>) -> Option<(Seq<u8>, Seq<u8>)> {
    if e.len() < 8 {
        None
    } else {
        let kl = le_value(e.subrange(0, 8)) as int;
        if e.len() < 8 + kl {
            None
        } else {
            Some((e.subrange(8, 8 + kl), e.subrange(8 + kl, e.len() as int)))
        }
    }
}

/// A record's key length, where it has one, leaves room in a `usize` for the header.
pub open spec fn wal_entry_sane(e: Seq<u8>) -> bool {
    e.len() >= 8 ==> le_value(e.subrange(0, 8)) + 8 <= usize::MAX
}

/// The record of writing `value` under `key`.
pub fn encode_wal_entry(key: &str, value: &str) -> (e: Vec<u8>)
    requires
        encode_utf8(key@).len() <= usize::MAX,
    ensures
        e@ == wal_record(key@, value@),
{
    let kb = key.as_bytes();
    let vb = value.as_bytes();
    let mut e: Vec<u8> = Vec::new();
    let mut v: u64 = kb.len() as u64;
    let mut i: usize = 0;
    let ghost n = kb@.len() as nat;
    while i < 8
        invariant
            i <= 8,
            le_bytes(n, 8) == e@ + le_bytes(v as nat, (8 - i) as nat),
        decreases 8 - i,
    {
        proof {
            assert(le_bytes(v as nat, (8 - i) as nat) =~= seq![(v % 256) as u8] + le_bytes((v / 256) as nat, (8 - i - 1) as nat));
            assert(e@ + (seq![(v % 256) as u8] + le_bytes((v / 256) as nat, (8 - i - 1) as nat)) =~= e@.push((v % 256) as u8) + le_bytes((v / 256) as nat, (8 - i - 1) as nat));
        }
        e.push((v % 256) as u8);
        v = v / 256;
        i = i + 1;
    }
    proof {
        assert(le_bytes(v as nat, 0) =~= Seq::<u8>::empty());
        assert(e@ + Seq::<u8>::empty() =~= e@);
    }
    let ghost header = e@;
    let mut j: usize = 0;
    while j < kb.len()
        invariant
            j <= kb@.len(),
            e@ == header + kb@.subrange(0, j as int),
        decreases kb@.len() - j,
    {
        e.push(kb[j]);
        proof {
            assert(kb@.subrange(0, j as int + 1) =~= kb@.subrange(0, j as int).push(kb@[j as int]));
        }
        j = j + 1;
    }
    let ghost mid = e@;
    let mut j: usize = 0;
    while j < vb.len()
        invariant
            j <= vb@.len(),
            e@ == mid + vb@.subrange(0, j as int),
        decreases vb@.len() - j,
    {
        e.push(vb[j]);
        proof {
            assert(vb@.subrange(0, j as int + 1) =~= vb@.subrange(0, j as int).push(vb@[j as int]));
        }
        j = j + 1;
    }
    proof {
        assert(kb@.subrange(0, kb@.len() as int) =~= kb@);
        assert(vb@.subrange(0, vb@.len() as int) =~= vb@);
    }
    e
}

/// Reads a record back: its key and value as text (invalid UTF-8 replaced), or `None` when
/// it is too short for its header or its key.
pub fn decode_wal_entry(entry: &[u8]) -> (r: Option<(String, String)>)
    requires
        wal_entry_sane(entry@),
    ensures
        match (r, wal_spans(entry@)) {
            (Some((k, v)), Some((kb, vb))) => k@ == lossy(kb) && v@ == lossy(vb) && (valid_utf8(kb) ==> k@
                == decode_utf8(kb)) && (valid_utf8(vb) ==> v@ == decode_utf8(vb)) && encode_utf8(k@).len()
                <= isize::MAX && encode_utf8(v@).len() <= isize::MAX,
            (None, None) => true,
            _ => false,
        },
{
    if entry.len() < 8 {
        return None;
    }
    let mut kl: u64 = 0;
    let mut i: usize = 8;
    proof {
        assert(entry@.subrange(8, 8).len() == 0);
    }
    while i > 0
        invariant
            i <= 8 <= entry@.len(),
            kl == le_value(entry@.subrange(i as int, 8)),
            kl < pow256((8 - i) as nat),
        decreases i,
    {
        proof {
            assert(entry@.subrange(i - 1, 8).drop_first() =~= entry@.subrange(i as int, 8));
            assert(pow256((8 - i + 1) as nat) == 256 * pow256((8 - i) as nat));
            lemma_pow256_bound((8 - i) as nat);
        }
        kl = entry[i - 1] as u64 + 256 * kl;
        i = i - 1;
    }
    let rest = entry.len() - 8;
    if kl > rest as u64 {
        return None;
    }
    let klen = kl as usize;
    let key = utf8_lossy(&entry[8..8 + klen]);
    let value = utf8_lossy(&entry[8 + klen..entry.len()]);
    Some((key, value))
}

pub proof fn lemma_pow256_bound(k: nat)
    requires
        k < 8,
    ensures
        256 * pow256(k) <= 0x1_0000_0000_0000_0000,
    decreases k,
{
    reveal_with_fuel(pow256, 9);
    if k > 0 {
        lemma_pow256_bound((k - 1) as nat);
    }
}

/// A written record reads back as its key and value.
pub proof fn lemma_wal_round_trip(key: Seq<char>, value: Seq<char>)
    requires
        encode_utf8(key).len() + 8 <= usize::MAX,
    ensures
        wal_entry_sane(wal_record(key, value)),
        wal_spans(wal_record(key, value)) == Some((encode_utf8(key), encode_utf8(value))),
        valid_utf8(encode_utf8(key)) && decode_utf8(encode_utf8(key)) == key,
        valid_utf8(encode_utf8(value)) && decode_utf8(encode_utf8(value)) == value,
{
    let n = encode_utf8(key).len();
    let ni = n as int;
    assert(pow256(8) == 0x1_0000_0000_0000_0000) by {
        reveal_with_fuel(pow256, 9);
    }
    lemma_le_round_trip(n, 8);
    let e = wal_record(key, value);
    assert(e.subrange(0, 8) =~= le_bytes(n, 8));
    assert(e.subrange(8, 8 + ni) =~= encode_utf8(key));
    assert(e.subrange(8 + ni, e.len() as int) =~= encode_utf8(value));
    vstd::utf8::encode_utf8_valid_utf8(key);
    vstd::utf8::encode_utf8_valid_utf8(value);
    vstd::utf8::encode_utf8_decode_utf8(key);
    vstd::utf8::encode_utf8_decode_utf8(value);
}


/// The table and byte count after one replayed record (one too short to read is skipped).
pub open spec fn replay_step(st: (Map<Seq<char>, Seq<char>>, int), e: Seq<u8>) -> (Map<Seq<char>, Seq<char>>, int) {
    match wal_spans(e) {
        None => st,
        Some((kb, vb)) => (st.0.insert(lossy(kb), lossy(vb)), put_size(st.0, st.1, lossy(kb), lossy(vb))),
    }
}

/// The table and byte count after replaying the first `n` records.
pub open spec fn replay_state(es: Seq<Seq<u8>>, n: int) -> (Map<Seq<char>, Seq<char>>, int)
    decreases n,
{
    if n <= 0 {
        (Map::empty(), 0)
    } else {
        replay_step(replay_state(es, n - 1), es[n - 1])
    }
}

/// The byte count stays within a `usize` all through the replay.
pub open spec fn replay_fits(es: Seq<Seq<u8>>) -> bool {
    forall|i: int| 0 <= i <= es.len() ==> #[trigger] replay_state(es, i).1 <= usize::MAX
}

pub open spec fn entries_seq(v: Seq<Vec<u8>>) -> Seq<Seq<u8>> {
    v.map_values(|e: Vec<u8>| e@)
}

/// Rebuilds the in-memory table from the write-ahead log, record by record; `None` when its
/// byte count would not fit in a `usize`.
pub fn replay(entries: &Vec<Vec<u8>>) -> (r: Option<Memtable>)
    requires
        forall|i: int| 0 <= i < entries@.len() ==> wal_entry_sane(#[trigger] entries@[i]@),
    ensures
        r is Some <==> replay_fits(entries_seq(entries@)),
        r matches Some(m) ==> m.wf() && m@ == replay_state(entries_seq(entries@), entries@.len() as int).0 && m.size()
            == replay_state(entries_seq(entries@), entries@.len() as int).1,
{
    let ghost es = entries_seq(entries@);
    let mut mem = Memtable::new();
    let mut i: usize = 0;
    proof {
        assert(mem@ =~= replay_state(es, 0).0);
    }
    while i < entries.len()
        invariant
            es == entries_seq(entries@),
            forall|q: int| 0 <= q < entries@.len() ==> wal_entry_sane(#[trigger] entries@[q]@),
            i <= entries@.len(),
            mem.wf(),
            mem@ == replay_state(es, i as int).0,
            mem.size() == replay_state(es, i as int).1,
            forall|q: int| 0 <= q <= i ==> #[trigger] replay_state(es, q).1 <= usize::MAX,
        decreases entries@.len() - i,
    {
        assert(es[i as int] == entries@[i as int]@);
        match decode_wal_entry(entries[i].as_slice()) {
            None => {
                proof {
                    assert(replay_state(es, i as int + 1) == replay_state(es, i as int));
                }
            },
            Some((k, v)) => {
                let kl = k.as_str().len();
                let vl = v.as_str().len();
                let next: Option<usize> = match mem.get(k.as_str()) {
                    Some(old_v) => {
                        let ol = old_v.as_str().len();
                        proof {
                            lemma_contains_ordered(&mem, k@);
                            lemma_total_contains(mem.ordered(), mem@, k@);
                        }
                        (mem.byte_size() - ol).checked_add(vl)
                    },
                    None => match mem.byte_size().checked_add(kl) {
                        Some(t) => t.checked_add(vl),
                        None => None,
                    },
                };
                match next {
                    None => {
                        proof {
                            assert(replay_state(es, i as int + 1).1 > usize::MAX);
                        }
                        return None;
                    },
                    Some(_) => {
                        mem.put(k, v);
                    },
                }
            },
        }
        i = i + 1;
    }
    proof {
        assert forall|q: int| 0 <= q <= es.len() implies #[trigger] replay_state(es, q).1 <= usize::MAX by {}
    }
    Some(mem)
}

proof fn lemma_contains_ordered(m: &Memtable, k: Seq<char>)
    requires
        m.wf(),
        m@.contains_key(k),
    ensures
        exists|i: int| 0 <= i < m.ordered().len() && m.ordered()[i] == (k, m@[k]),
{
    let es = m.map.entries@;
    let i = choose|i: int| 0 <= i < es.len() && es[i].0@ == k;
    lemma_entry_at(es, i);
    assert(m.ordered()[i] == (k, m@[k]));
}

/// A key's value bytes are part of the table's byte count.
proof fn lemma_total_contains(s: Seq<(Seq<char>, Seq<char>)>, m: Map<Seq<char>, Seq<char>>, k: Seq<char>)
    requires
        m.contains_key(k),
        exists|i: int| 0 <= i < s.len() && s[i] == (k, m[k]),
    ensures
        encode_utf8(m[k]).len() <= total_bytes(s),
{
    let i = choose|i: int| 0 <= i < s.len() && s[i] == (k, m[k]);
    lemma_total_ge(s, i);
}


/// Position of the first `,` in `s` at or after `i`, or -1.
pub open spec fn comma_pos(s: Seq<char>, i: int) -> int
    decreases s.len() - i,
{
    if i < 0 || i >= s.len() {
        -1
    } else if s[i] == ',' {
        i
    } else {
        comma_pos(s, i + 1)
    }
}

/// A `key,value` line split at its first comma.
pub open spec fn split_comma(s: Seq<char>) -> Option<(Seq<char>, Seq<char>)> {
    let p = comma_pos(s, 0);
    if p < 0 {
        None
    } else {
        Some((s.subrange(0, p), s.subrange(p + 1, s.len() as int)))
    }
}

proof fn lemma_comma_pos(s: Seq<char>, i: int)
    requires
        0 <= i <= s.len(),
    ensures
        comma_pos(s, i) == -1 || i <= comma_pos(s, i) < s.len(),
        comma_pos(s, i) >= 0 ==> s[comma_pos(s, i)] == ',',
        forall|j: int| i <= j < s.len() && (comma_pos(s, i) < 0 || j < comma_pos(s, i)) ==> s[j] != ',',
    decreases s.len() - i,
{
    if i < s.len() && s[i] != ',' {
        lemma_comma_pos(s, i + 1);
    }
}

/// `line.split_once(',')`.
fn split_comma_exec(line: &str) -> (r: Option<(String, String)>)
    ensures
        match (r, split_comma(line@)) {
            (Some((k, v)), Some((sk, sv))) => k@ == sk && v@ == sv,
            (None, None) => true,
            _ => false,
        },
{
    let cs = chars_of(line);
    proof {
        lemma_comma_pos(cs@, 0);
    }
    let mut i: usize = 0;
    while i < cs.len()
        invariant
            cs@ == line@,
            i <= cs@.len(),
            forall|j: int| 0 <= j < i ==> cs@[j] != ',',
            comma_pos(cs@, 0) == -1 || i <= comma_pos(cs@, 0),
        decreases cs@.len() - i,
    {
        proof {
            lemma_comma_pos(cs@, 0);
        }
        if cs[i] == ',' {
            proof {
                assert(comma_pos(cs@, 0) == i);
            }
            let k = string_of(&cs.as_slice()[0..i]);
            let v = string_of(&cs.as_slice()[i + 1..cs.len()]);
            return Some((k, v));
        }
        i = i + 1;
    }
    proof {
        lemma_comma_pos(cs@, 0);
        if comma_pos(cs@, 0) >= 0 {
            assert(cs@[comma_pos(cs@, 0)] == ',');
        }
    }
    None
}

/// What scanning the lines of a sorted table for `key` gives: the value of the first line
/// with that key, stopping at a line whose key sorts after it; lines without a comma are
/// skipped.
pub open spec fn scan_spec(lines: Seq<Seq<char>>, key: Seq<char>) -> Option<Seq<char>>
    decreases lines.len(),
{
    if lines.len() == 0 {
        None
    } else {
        match split_comma(lines[0]) {
            None => scan_spec(lines.drop_first(), key),
            Some((k, v)) => if k == key {
                Some(v)
            } else if lex_lt(key, k) {
                None
            } else {
                scan_spec(lines.drop_first(), key)
            },
        }
    }
}

pub open spec fn lines_view(v: Seq<String>) -> Seq<Seq<char>> {
    v.map_values(|s: String| s@)
}

/// Looks `key` up in the lines of a sorted table.
pub fn scan_lines(lines: &Vec<String>, key: &str) -> (r: Option<String>)
    ensures
        match r {
            Some(v) => scan_spec(lines_view(lines@), key@) == Some(v@),
            None => scan_spec(lines_view(lines@), key@) is None,
        },
{
    let ghost ls = lines_view(lines@);
    let mut i: usize = 0;
    proof {
        assert(ls.skip(0) =~= ls);
    }
    while i < lines.len()
        invariant
            ls == lines_view(lines@),
            i <= lines@.len(),
            scan_spec(ls, key@) == scan_spec(ls.skip(i as int), key@),
        decreases lines@.len() - i,
    {
        assert(ls.skip(i as int)[0] == lines@[i as int]@);
        assert(ls.skip(i as int).drop_first() =~= ls.skip(i as int + 1));
        match split_comma_exec(lines[i].as_str()) {
            Some((k, v)) => {
                let c = compare_str(k.as_str(), key);
                if c == 0 {
                    return Some(v);
                }
                if c == 1 {
                    return None;
                }
            },
            None => {},
        }
        i = i + 1;
    }
    None
}

/// The table after the `key,value` lines, in order, later lines winning.
pub open spec fn merge_lines(m: Map<Seq<char>, Seq<char>>, lines: Seq<Seq<char>>) -> Map<Seq<char>, Seq<char>>
    decreases lines.len(),
{
    if lines.len() == 0 {
        m
    } else {
        merge_lines(
            match split_comma(lines[0]) {
                Some((k, v)) => m.insert(k, v),
                None => m,
            },
            lines.drop_first(),
        )
    }
}

/// The table after the tables, oldest first, newer ones winning.
pub open spec fn merge_tables(m: Map<Seq<char>, Seq<char>>, tables: Seq<Seq<Seq<char>>>) -> Map<Seq<char>, Seq<char>>
    decreases tables.len(),
{
    if tables.len() == 0 {
        m
    } else {
        merge_tables(merge_lines(m, tables[0]), tables.drop_first())
    }
}

pub open spec fn tables_view(t: Seq<Vec<String>>) -> Seq<Seq<Seq<char>>> {
    t.map_values(|v: Vec<String>| lines_view(v@))
}

/// Compaction: the lines of every table, oldest table first, merged into one sorted table
/// in which the newest value of each key wins.
pub fn compact(tables: &Vec<Vec<String>>) -> (m: SortedMap)
    ensures
        m.wf(),
        m@ == merge_tables(Map::empty(), tables_view(tables@)),
{
    let ghost ts = tables_view(tables@);
    let mut merged = SortedMap::new();
    let mut t: usize = 0;
    proof {
        assert(ts.skip(0) =~= ts);
    }
    while t < tables.len()
        invariant
            ts == tables_view(tables@),
            t <= tables@.len(),
            merged.wf(),
            merge_tables(Map::empty(), ts) == merge_tables(merged@, ts.skip(t as int)),
        decreases tables@.len() - t,
    {
        let lines = &tables[t];
        let ghost ls = lines_view(lines@);
        let ghost start = merged@;
        assert(ts.skip(t as int)[0] == ls);
        assert(ts.skip(t as int).drop_first() =~= ts.skip(t as int + 1));
        let mut j: usize = 0;
        proof {
            assert(ls.skip(0) =~= ls);
        }
        while j < lines.len()
            invariant
                ls == lines_view(lines@),
                j <= lines@.len(),
                merged.wf(),
                merge_lines(start, ls) == merge_lines(merged@, ls.skip(j as int)),
            decreases lines@.len() - j,
        {
            assert(ls.skip(j as int)[0] == lines@[j as int]@);
            assert(ls.skip(j as int).drop_first() =~= ls.skip(j as int + 1));
            match split_comma_exec(lines[j].as_str()) {
                Some((k, v)) => {
                    merged.insert(k, v);
                },
                None => {},
            }
            j = j + 1;
        }
        proof {
            assert(ls.skip(j as int) =~= Seq::<Seq<char>>::empty());
        }
        t = t + 1;
    }
    proof {
        assert(ts.skip(t as int) =~= Seq::<Seq<Seq<char>>>::empty());
    }
    merged
}


/// The lines of a flushed table, without their line ends.
pub open spec fn table_lines(es: Seq<(Seq<char>, Seq<char>)>) -> Seq<Seq<char>> {
    es.map_values(|e: (Seq<char>, Seq<char>)| e.0 + seq![','] + e.1)
}

pub open spec fn comma_free(s: Seq<char>) -> bool {
    forall|i: int| 0 <= i < s.len() ==> s[i] != ','
}

pub open spec fn ordered_keys(es: Seq<(Seq<char>, Seq<char>)>) -> bool {
    forall|i: int, j: int| 0 <= i < j < es.len() ==> lex_lt(es[i].0, es[j].0)
}

proof fn lemma_split_line(k: Seq<char>, v: Seq<char>)
    requires
        comma_free(k),
    ensures
        split_comma(k + seq![','] + v) == Some((k, v)),
{
    let s = k + seq![','] + v;
    assert forall|i: int| 0 <= i <= k.len() implies comma_pos(s, i) == k.len() by {
        lemma_comma_walk(s, k, v, i);
    }
    assert(s.subrange(0, k.len() as int) =~= k);
    assert(s.subrange(k.len() as int + 1, s.len() as int) =~= v);
}

proof fn lemma_comma_walk(s: Seq<char>, k: Seq<char>, v: Seq<char>, i: int)
    requires
        s == k + seq![','] + v,
        comma_free(k),
        0 <= i <= k.len(),
    ensures
        comma_pos(s, i) == k.len(),
    decreases k.len() - i,
{
    if i < k.len() {
        assert(s[i] == k[i]);
        lemma_comma_walk(s, k, v, i + 1);
    } else {
        assert(s[i] == ',');
    }
}

/// Reading a key from a flushed table gives the value it had in the table, or nothing if it
/// was not there, when keys contain no comma.
pub proof fn lemma_flushed_table_scan(es: Seq<(Seq<char>, Seq<char>)>, key: Seq<char>)
    requires
        ordered_keys(es),
        forall|i: int| 0 <= i < es.len() ==> comma_free(#[trigger] es[i].0),
    ensures
        scan_spec(table_lines(es), key) == (if exists|i: int| 0 <= i < es.len() && es[i].0 == key {
            Some(es[choose|i: int| 0 <= i < es.len() && es[i].0 == key].1)
        } else {
            None
        }),
    decreases es.len(),
{
    let ls = table_lines(es);
    if es.len() > 0 {
        let rest = es.drop_first();
        assert(ls.drop_first() =~= table_lines(rest));
        lemma_split_line(es[0].0, es[0].1);
        assert(ls[0] == es[0].0 + seq![','] + es[0].1);
        assert(ordered_keys(rest)) by {
            assert forall|i: int, j: int| 0 <= i < j < rest.len() implies lex_lt(rest[i].0, rest[j].0) by {
                assert(rest[i] == es[i + 1] && rest[j] == es[j + 1]);
            }
        }
        assert forall|i: int| 0 <= i < rest.len() implies comma_free(#[trigger] rest[i].0) by {
            assert(rest[i] == es[i + 1]);
        }
        lemma_flushed_table_scan(rest, key);
        lemma_lex_total(key, es[0].0);
        if es[0].0 == key {
            let c = choose|i: int| 0 <= i < es.len() && es[i].0 == key;
            if c > 0 {
                lemma_lex_irreflexive(key);
                assert(lex_lt(es[0].0, es[c].0));
            }
        } else if lex_lt(key, es[0].0) {
            if exists|i: int| 0 <= i < es.len() && es[i].0 == key {
                let c = choose|i: int| 0 <= i < es.len() && es[i].0 == key;
                if c > 0 {
                    assert(lex_lt(es[0].0, es[c].0));
                    lemma_lex_transitive(key, es[0].0, key);
                }
                lemma_lex_irreflexive(key);
            }
        } else {
            if exists|i: int| 0 <= i < es.len() && es[i].0 == key {
                let c = choose|i: int| 0 <= i < es.len() && es[i].0 == key;
                assert(c > 0);
                assert(rest[c - 1].0 == key);
                let d = choose|i: int| 0 <= i < rest.len() && rest[i].0 == key;
                assert(d == c - 1) by {
                    lemma_lex_irreflexive(key);
                    if d < c - 1 {
                        assert(lex_lt(es[d + 1].0, es[c].0));
                    } else if d > c - 1 {
                        assert(lex_lt(es[c].0, es[d + 1].0));
                    }
                }
            } else {
                assert(!exists|i: int| 0 <= i < rest.len() && rest[i].0 == key) by {
                    if exists|i: int| 0 <= i < rest.len() && rest[i].0 == key {
                        let d = choose|i: int| 0 <= i < rest.len() && rest[i].0 == key;
                        assert(es[d + 1].0 == key);
                    }
                }
            }
        }
    }
}

/// A table's entries in order: keys increasing, each with its value.
pub proof fn lemma_memtable_ordered(m: &Memtable)
    requires
        m.wf(),
    ensures
        ordered_keys(m.ordered()),
        forall|i: int| 0 <= i < m.ordered().len() ==> m@.contains_key(#[trigger] m.ordered()[i].0) && m@[m.ordered()[i].0]
            == m.ordered()[i].1,
        forall|k: Seq<char>| m@.contains_key(k) ==> exists|i: int| 0 <= i < m.ordered().len() && m.ordered()[i] == (k, m@[k]),
{
    assert forall|i: int| 0 <= i < m.ordered().len() implies m@.contains_key(#[trigger] m.ordered()[i].0) && m@[m.ordered()[i].0]
        == m.ordered()[i].1 by {
        lemma_entry_at(m.map.entries@, i);
    }
    assert forall|k: Seq<char>| m@.contains_key(k) implies exists|i: int| 0 <= i < m.ordered().len() && m.ordered()[i] == (k, m@[k]) by {
        lemma_contains_ordered(m, k);
    }
}

// ---------------------------------------------------------------------------------------------
// Table files on disk
// ---------------------------------------------------------------------------------------------

/// `str::parse::<u128>`: an optional '+', then one or more ASCII digits whose value fits.
pub open spec fn parse_u128_spec(s: Seq<char>) -> Option<u128> {
    let ds = if s.len() > 0 && s[0] == '+' { s.skip(1) } else { s };
    if ds.len() == 0 || !all_digits(ds) || digits_value(ds) > u128::MAX {
        None
    } else {
        Some(digits_value(ds) as u128)
    }
}

/// The name begins with `compacted_`.
pub open spec fn has_compacted_prefix(s: Seq<char>) -> bool {
    &&& s.len() >= 10
    &&& s[0] == 'c' && s[1] == 'o' && s[2] == 'm' && s[3] == 'p' && s[4] == 'a'
    &&& s[5] == 'c' && s[6] == 't' && s[7] == 'e' && s[8] == 'd' && s[9] == '_'
}

/// The timestamp in a table file's name (without its extension): the number after an
/// optional `compacted_` prefix, or 0 where that is no number.
pub open spec fn table_timestamp_spec(stem: Seq<char>) -> u128 {
    let rest = if has_compacted_prefix(stem) { stem.skip(10) } else { stem };
    match parse_u128_spec(rest) {
        Some(v) => v,
        None => 0,
    }
}

fn parse_u128_from(s: &Vec<char>, from: usize) -> (r: Option<u128>)
    requires
        from <= s@.len(),
    ensures
        r == parse_u128_spec(s@.skip(from as int)),
{
    let ghost t = s@.skip(from as int);
    let n = s.len();
    let mut start: usize = from;
    if from < n && s[from] == '+' {
        start = from + 1;
    }
    let ghost ds = s@.subrange(start as int, n as int);
    proof {
        if from < n && t[0] == '+' {
            assert(ds =~= t.skip(1));
        } else {
            assert(ds =~= t);
        }
    }
    if start == n {
        return None;
    }
    let mut acc: u128 = 0;
    let mut i = start;
    while i < n
        invariant
            t == s@.skip(from as int),
            n == s@.len(),
            start <= i <= n,
            ds == s@.subrange(start as int, n as int),
            ds == (if t.len() > 0 && t[0] == '+' { t.skip(1) } else { t }),
            ds.len() > 0,
            acc as int == digits_value(ds.take(i - start)),
            all_digits(ds.take(i - start)),
        decreases n - i,
    {
        let c = s[i];
        proof {
            assert(ds.take(i - start + 1).drop_last() =~= ds.take(i - start));
            assert(ds.take(i - start + 1).last() == c);
            assert(ds[i - start] == c);
        }
        if !('0' <= c && c <= '9') {
            proof {
                assert(!is_digit(ds[i - start]));
                assert(!all_digits(ds));
            }
            return None;
        }
        let d = (c as u32) - ('0' as u32);
        proof {
            assert(all_digits(ds.take(i - start + 1))) by {
                assert forall|q: int| 0 <= q < ds.take(i - start + 1).len() implies is_digit(#[trigger] ds.take(i - start + 1)[q]) by {
                    if q < i - start {
                        assert(ds.take(i - start + 1)[q] == ds.take(i - start)[q]);
                    }
                }
            }
            assert(digits_value(ds.take(i - start + 1)) == acc * 10 + d);
        }
        let next = match acc.checked_mul(10) {
            Some(m) => m.checked_add(d as u128),
            None => None,
        };
        match next {
            Some(v) => {
                acc = v;
            },
            None => {
                proof {
                    if all_digits(ds) {
                        lemma_digits_value_monotone(ds, i - start + 1);
                    }
                }
                return None;
            },
        }
        i = i + 1;
    }
    proof {
        assert(ds.take(n - start) =~= ds);
    }
    Some(acc)
}

/// The timestamp in the name `stem` of a table file.
pub fn table_timestamp(stem: &str) -> (r: u128)
    ensures
        r == table_timestamp_spec(stem@),
{
    let s = chars_of(stem);
    let compacted = s.len() >= 10 && s[0] == 'c' && s[1] == 'o' && s[2] == 'm' && s[3] == 'p'
        && s[4] == 'a' && s[5] == 'c' && s[6] == 't' && s[7] == 'e' && s[8] == 'd' && s[9] == '_';
    let from: usize = if compacted { 10 } else { 0 };
    proof {
        if !compacted {
            assert(s@.skip(0) =~= s@);
        }
    }
    match parse_u128_from(&s, from) {
        Some(v) => v,
        None => 0,
    }
}

/// The order in which to load table files named `stems` (each without its extension): every
/// position, oldest timestamp first, files of equal timestamp in the order they were listed.
pub fn table_load_order(stems: &Vec<String>) -> (r: Vec<usize>)
    ensures
        r@.len() == stems@.len(),
        forall|k: int| 0 <= k < r@.len() ==> #[trigger] r@[k] < stems@.len(),
        forall|a: int, b: int| 0 <= a < b < r@.len() ==> {
            let (x, y) = (table_timestamp_spec(stems@[r@[a] as int]@), table_timestamp_spec(stems@[r@[b] as int]@));
            x < y || (x == y && (#[trigger] r@[a]) < (#[trigger] r@[b]))
        },
{
    let mut ts: Vec<u128> = Vec::new();
    let mut p: usize = 0;
    while p < stems.len()
        invariant
            p <= stems@.len(),
            ts@.len() == p,
            forall|q: int| 0 <= q < p ==> #[trigger] ts@[q] == table_timestamp_spec(stems@[q]@),
        decreases stems@.len() - p,
    {
        ts.push(table_timestamp(stems[p].as_str()));
        p = p + 1;
    }
    let mut out: Vec<usize> = Vec::new();
    let mut p: usize = 0;
    while p < stems.len()
        invariant
            p <= stems@.len(),
            ts@.len() == stems@.len(),
            forall|q: int| 0 <= q < stems@.len() ==> #[trigger] ts@[q] == table_timestamp_spec(stems@[q]@),
            out@.len() == p,
            forall|k: int| 0 <= k < out@.len() ==> #[trigger] out@[k] < p,
            forall|a: int, b: int| 0 <= a < b < out@.len() ==> {
                let (x, y) = (ts@[out@[a] as int], ts@[out@[b] as int]);
                x < y || (x == y && (#[trigger] out@[a]) < (#[trigger] out@[b]))
            },
        decreases stems@.len() - p,
    {
        let t = ts[p];
        let mut k: usize = 0;
        while k < out.len() && ts[out[k]] <= t
            invariant
                k <= out@.len(),
                ts@.len() == stems@.len(),
                forall|j: int| 0 <= j < out@.len() ==> #[trigger] out@[j] < p,
                p < stems@.len(),
                t == ts@[p as int],
                forall|a: int| 0 <= a < k ==> ts@[(#[trigger] out@[a]) as int] <= t,
            decreases out@.len() - k,
        {
            k = k + 1;
        }
        let ghost before = out@;
        out.insert(k, p);
        proof {
            before.insert_ensures(k as int, p);
            assert forall|a: int, b: int| 0 <= a < b < out@.len() implies {
                let (x, y) = (ts@[out@[a] as int], ts@[out@[b] as int]);
                x < y || (x == y && (#[trigger] out@[a]) < (#[trigger] out@[b]))
            } by {
                if a < k && b == k {
                    assert(out@[a] == before[a]);
                } else if a < k && b > k {
                    assert(out@[a] == before[a] && out@[b] == before[b - 1]);
                } else if a == k && b > k {
                    assert(out@[b] == before[b - 1]);
                    if b - 1 > k {
                        assert(before[k as int] == out@[k + 1]);
                    }
                    assert(ts@[before[k as int] as int] > t);
                    if b - 1 > k {
                        assert(ts@[before[k as int] as int] <= ts@[before[b - 1] as int]);
                    }
                } else if b < k {
                    assert(out@[a] == before[a] && out@[b] == before[b]);
                } else {
                    assert(out@[a] == before[a - 1] && out@[b] == before[b - 1]);
                }
            }
            assert forall|j: int| 0 <= j < out@.len() implies #[trigger] out@[j] < p + 1 by {
                if j < k {
                    assert(out@[j] == before[j]);
                } else if j > k {
                    assert(out@[j] == before[j - 1]);
                }
            }
        }
        p = p + 1;
    }
    out
}

} // verus!
