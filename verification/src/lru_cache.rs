//! A least-recently-used cache: reads and writes make an entry the most recent, and a full
//! cache evicts its least recently used entry to admit a new key.

use vstd::prelude::*;

verus! {

/// Position of the first entry for key `k` in `s`, or -1.
pub open spec fn key_pos<V>(s: Seq<(u64, V)>, k: u64) -> int
    decreases s.len(),
{
    if s.len() == 0 {
        -1
    } else if s[0].0 == k {
        0
    } else {
        let r = key_pos(s.drop_first(), k);
        if r < 0 { -1 } else { r + 1 }
    }
}

pub proof fn lemma_key_pos<V>(s: Seq<(u64, V)>, k: u64)
    ensures
        -1 <= key_pos(s, k) < s.len(),
        key_pos(s, k) >= 0 ==> s[key_pos(s, k)].0 == k,
        key_pos(s, k) >= 0 ==> forall|j: int| 0 <= j < key_pos(s, k) ==> s[j].0 != k,
        key_pos(s, k) < 0 ==> forall|j: int| 0 <= j < s.len() ==> s[j].0 != k,
    decreases s.len(),
{
    if s.len() > 0 {
        lemma_key_pos(s.drop_first(), k);
        if s[0].0 != k {
            assert forall|j: int| 1 <= j < s.len() implies s[j] == s.drop_first()[j - 1] by {}
        }
    }
}

/// No key occurs twice.
pub open spec fn distinct_keys<V>(s: Seq<(u64, V)>) -> bool {
    forall|i: int, j: int| 0 <= i < s.len() && 0 <= j < s.len() && i != j ==> s[i].0 != s[j].0
}

/// The value cached for `k`.
pub open spec fn lru_lookup<V>(s: Seq<(u64, V)>, k: u64) -> Option<V> {
    let p = key_pos(s, k);
    if p >= 0 { Some(s[p].1) } else { None }
}

/// Entries after a read of `k`: a hit moves the entry to the front.
pub open spec fn lru_touch<V>(s: Seq<(u64, V)>, k: u64) -> Seq<(u64, V)> {
    let p = key_pos(s, k);
    if p >= 0 { seq![s[p]] + s.remove(p) } else { s }
}

/// Entries after writing `v` under `k` with room for `cap` entries: an existing entry is replaced
/// and moved to the front; otherwise the last (least recent) entry is dropped when full and the
/// new entry goes to the front.
pub open spec fn lru_put<V>(s: Seq<(u64, V)>, cap: int, k: u64, v: V) -> Seq<(u64, V)> {
    let p = key_pos(s, k);
    if p >= 0 {
        seq![(k, v)] + s.remove(p)
    } else if s.len() >= cap {
        seq![(k, v)] + s.drop_last()
    } else {
        seq![(k, v)] + s
    }
}

/// Entries from most to least recently used.
pub struct LRUCache<V> {
    capacity: usize,
    entries: Vec<(u64, V)>,
}

impl<V> View for LRUCache<V> {
    type V = Seq<(u64, V)>;

    closed spec fn view(&self) -> Seq<(u64, V)> {
        self.entries@
    }
}

impl<V> LRUCache<V> {
    pub closed spec fn capacity_spec(&self) -> int {
        self.capacity as int
    }

    pub closed spec fn wf(&self) -> bool {
        &&& self.capacity > 0
        &&& self.entries@.len() <= self.capacity
        &&& distinct_keys(self.entries@)
    }

    pub proof fn lemma_wf(&self)
        requires
            self.wf(),
        ensures
            self@.len() <= self.capacity_spec(),
            self.capacity_spec() > 0,
            distinct_keys(self@),
    {
    }

    /// Creates an empty cache holding at most `capacity` entries.
    pub fn new(capacity: usize) -> (r: Self)
        requires
            capacity > 0,
        ensures
            r.wf(),
            r@ == Seq::<(u64, V)>::empty(),
            r.capacity_spec() == capacity,
    {
        Self { capacity, entries: Vec::new() }
    }

    fn find(&self, key: u64) -> (r: Option<usize>)
        ensures
            match r {
                Some(i) => i == key_pos(self.entries@, key) && i < self.entries@.len() && self.entries@[i as int].0 == key,
                None => key_pos(self.entries@, key) < 0,
            },
    {
        proof {
            lemma_key_pos(self.entries@, key);
        }
        let mut i: usize = 0;
        while i < self.entries.len()
            invariant
                i <= self.entries@.len(),
                forall|j: int| 0 <= j < i ==> self.entries@[j].0 != key,
                -1 <= key_pos(self.entries@, key) < self.entries@.len(),
                key_pos(self.entries@, key) >= 0 ==> self.entries@[key_pos(self.entries@, key)].0 == key,
                key_pos(self.entries@, key) >= 0 ==> forall|j: int| 0 <= j < key_pos(self.entries@, key) ==> self.entries@[j].0 != key,
                key_pos(self.entries@, key) < 0 ==> forall|j: int| 0 <= j < self.entries@.len() ==> self.entries@[j].0 != key,
            decreases self.entries@.len() - i,
        {
            if self.entries[i].0 == key {
                return Some(i);
            }
            i = i + 1;
        }
        None
    }

    /// Returns the value cached for `key`, making it the most recently used.
    pub fn get(&mut self, key: &u64) -> (r: Option<&V>)
        requires
            old(self).wf(),
        ensures
            final(self).wf(),
            final(self).capacity_spec() == old(self).capacity_spec(),
            final(self)@ == lru_touch(old(self)@, *key),
            match r {
                Some(x) => lru_lookup(old(self)@, *key) == Some(*x),
                None => lru_lookup(old(self)@, *key) is None,
            },
    {
        match self.find(*key) {
            Some(i) => {
                let e = self.entries.remove(i);
                self.entries.insert(0, e);
                proof {
                    let s = old(self).entries@;
                    assert(self.entries@ =~= seq![s[i as int]] + s.remove(i as int));
                    assert(distinct_keys(self.entries@)) by {
                        assert forall|a: int, b: int| 0 <= a < self.entries@.len() && 0 <= b < self.entries@.len() && a != b
                            implies self.entries@[a].0 != self.entries@[b].0 by {
                            let ia = if a == 0 { i as int } else if a - 1 < i { a - 1 } else { a };
                            let ib = if b == 0 { i as int } else if b - 1 < i { b - 1 } else { b };
                            assert(self.entries@[a] == s[ia]);
                            assert(self.entries@[b] == s[ib]);
                        }
                    }
                }
                Some(&self.entries[0].1)
            },
            None => None,
        }
    }

    /// Stores `val` under `key` as the most recently used entry, evicting the least recently
    /// used entry when a new key arrives at a full cache.
    pub fn put(&mut self, key: u64, val: V)
        requires
            old(self).wf(),
        ensures
            final(self).wf(),
            final(self).capacity_spec() == old(self).capacity_spec(),
            final(self)@ == lru_put(old(self)@, old(self).capacity_spec(), key, val),
    {
        let ghost s = self.entries@;
        match self.find(key) {
            Some(i) => {
                let _ = self.entries.remove(i);
                self.entries.insert(0, (key, val));
                proof {
                    assert(self.entries@ =~= seq![(key, val)] + s.remove(i as int));
                    assert(distinct_keys(self.entries@)) by {
                        assert forall|a: int, b: int| 0 <= a < self.entries@.len() && 0 <= b < self.entries@.len() && a != b
                            implies self.entries@[a].0 != self.entries@[b].0 by {
                            let ia = if a == 0 { i as int } else if a - 1 < i { a - 1 } else { a };
                            let ib = if b == 0 { i as int } else if b - 1 < i { b - 1 } else { b };
                            assert(self.entries@[a].0 == s[ia].0);
                            assert(self.entries@[b].0 == s[ib].0);
                        }
                    }
                }
            },
            None => {
                if self.entries.len() >= self.capacity {
                    let _ = self.entries.pop();
                }
                let ghost t = self.entries@;
                self.entries.insert(0, (key, val));
                proof {
                    lemma_key_pos(s, key);
                    if s.len() >= self.capacity {
                        assert(t =~= s.drop_last());
                    }
                    assert(self.entries@ =~= seq![(key, val)] + t);
                    assert(distinct_keys(self.entries@)) by {
                        assert forall|a: int, b: int| 0 <= a < self.entries@.len() && 0 <= b < self.entries@.len() && a != b
                            implies self.entries@[a].0 != self.entries@[b].0 by {
                            if a > 0 {
                                assert(self.entries@[a] == t[a - 1]);
                                assert(t[a - 1] == s[a - 1]);
                            }
                            if b > 0 {
                                assert(self.entries@[b] == t[b - 1]);
                                assert(t[b - 1] == s[b - 1]);
                            }
                        }
                    }
                }
            },
        }
    }
}

/// A value written is read back at once, and the cache never holds more than its capacity.
pub proof fn lemma_put_then_get<V>(s: Seq<(u64, V)>, cap: int, k: u64, v: V)
    requires
        cap > 0,
        s.len() <= cap,
        distinct_keys(s),
    ensures
        lru_lookup(lru_put(s, cap, k, v), k) == Some(v),
        lru_put(s, cap, k, v).len() <= cap,
{
    lemma_key_pos(s, k);
    let n = lru_put(s, cap, k, v);
    assert(n[0] == (k, v));
}

/// When a new key arrives at a full cache, exactly the least recently used entry is evicted.
pub proof fn lemma_full_put_evicts_least_recent<V>(s: Seq<(u64, V)>, cap: int, k: u64, v: V)
    requires
        cap > 0,
        s.len() == cap,
        distinct_keys(s),
        lru_lookup(s, k) is None,
    ensures
        lru_put(s, cap, k, v) == seq![(k, v)] + s.drop_last(),
        lru_lookup(lru_put(s, cap, k, v), s.last().0) is None,
{
    lemma_key_pos(s, k);
    let n = lru_put(s, cap, k, v);
    let last = s.last().0;
    lemma_key_pos(n, last);
    assert forall|j: int| 0 <= j < n.len() implies n[j].0 != last by {
        if j > 0 {
            assert(n[j] == s[j - 1]);
        }
    }
}

} // verus!
