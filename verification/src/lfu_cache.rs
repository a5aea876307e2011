//! A least-frequently-used cache: every read or write of a key raises its use count, and a
//! full cache evicts the entry with the lowest count, the least recently used among equals.

use vstd::prelude::*;

verus! {

/// One cached entry: key, value, use count, and the time of its last use.
pub struct LfuEntry<V> {
    pub key: u64,
    pub val: V,
    pub freq: u64,
    pub stamp: u64,
}

pub open spec fn lfu_key_pos<V>(s: Seq<LfuEntry<V>>, k: u64) -> int
    decreases s.len(),
{
    if s.len() == 0 {
        -1
    } else if s[0].key == k {
        0
    } else {
        let r = lfu_key_pos(s.drop_first(), k);
        if r < 0 { -1 } else { r + 1 }
    }
}

pub proof fn lemma_lfu_key_pos<V>(s: Seq<LfuEntry<V>>, k: u64)
    ensures
        -1 <= lfu_key_pos(s, k) < s.len(),
        lfu_key_pos(s, k) >= 0 ==> s[lfu_key_pos(s, k)].key == k,
        lfu_key_pos(s, k) >= 0 ==> forall|j: int| 0 <= j < lfu_key_pos(s, k) ==> s[j].key != k,
        lfu_key_pos(s, k) < 0 ==> forall|j: int| 0 <= j < s.len() ==> s[j].key != k,
    decreases s.len(),
{
    if s.len() > 0 {
        lemma_lfu_key_pos(s.drop_first(), k);
        if s[0].key != k {
            assert forall|j: int| 1 <= j < s.len() implies s[j] == s.drop_first()[j - 1] by {}
        }
    }
}

/// Entry `i` is the one to evict: lowest use count, and least recently used among those.
pub open spec fn lfu_victim<V>(s: Seq<LfuEntry<V>>, i: int) -> bool {
    &&& 0 <= i < s.len()
    &&& forall|j: int| 0 <= j < s.len() && j != i ==>
        s[i].freq < s[j].freq || (s[i].freq == s[j].freq && s[i].stamp < s[j].stamp)
}

pub open spec fn lfu_victim_index<V>(s: Seq<LfuEntry<V>>) -> int {
    choose|i: int| lfu_victim(s, i)
}

pub open spec fn lfu_lookup<V>(s: Seq<LfuEntry<V>>, k: u64) -> Option<V> {
    let p = lfu_key_pos(s, k);
    if p >= 0 { Some(s[p].val) } else { None }
}

/// Entries after a read of `k` at time `now`.
pub open spec fn lfu_touch<V>(s: Seq<LfuEntry<V>>, k: u64, now: u64) -> Seq<LfuEntry<V>> {
    let p = lfu_key_pos(s, k);
    if p >= 0 {
        s.update(p, LfuEntry { key: k, val: s[p].val, freq: (s[p].freq + 1) as u64, stamp: now })
    } else {
        s
    }
}

/// Entries after writing `v` under `k` at time `now` with room for `cap` entries.
pub open spec fn lfu_put<V>(s: Seq<LfuEntry<V>>, cap: int, k: u64, v: V, now: u64) -> Seq<LfuEntry<V>> {
    let p = lfu_key_pos(s, k);
    if p >= 0 {
        s.update(p, LfuEntry { key: k, val: v, freq: (s[p].freq + 1) as u64, stamp: now })
    } else {
        let kept = if s.len() >= cap { s.remove(lfu_victim_index(s)) } else { s };
        kept.push(LfuEntry { key: k, val: v, freq: 1, stamp: now })
    }
}

pub open spec fn lfu_entries_wf<V>(s: Seq<LfuEntry<V>>, now: u64) -> bool {
    &&& forall|i: int, j: int| 0 <= i < s.len() && 0 <= j < s.len() && i != j ==> s[i].key != s[j].key
    &&& forall|i: int, j: int| 0 <= i < s.len() && 0 <= j < s.len() && i != j ==> s[i].stamp != s[j].stamp
    &&& forall|i: int| 0 <= i < s.len() ==> 1 <= (#[trigger] s[i]).freq <= now && s[i].stamp < now
}

pub struct LFUCache<V> {
    capacity: usize,
    entries: Vec<LfuEntry<V>>,
    tick: u64,
}

impl<V> View for LFUCache<V> {
    type V = Seq<LfuEntry<V>>;

    closed spec fn view(&self) -> Seq<LfuEntry<V>> {
        self.entries@
    }
}

proof fn lemma_victim_unique<V>(s: Seq<LfuEntry<V>>, i: int)
    requires
        lfu_victim(s, i),
    ensures
        lfu_victim_index(s) == i,
{
    let c = lfu_victim_index(s);
    assert(lfu_victim(s, c));
    if c != i {
        assert(s[i].freq < s[c].freq || (s[i].freq == s[c].freq && s[i].stamp < s[c].stamp));
        assert(s[c].freq < s[i].freq || (s[c].freq == s[i].freq && s[c].stamp < s[i].stamp));
    }
}

impl<V> LFUCache<V> {
    pub closed spec fn capacity_spec(&self) -> int {
        self.capacity as int
    }

    /// The logical clock: the time stamp the next access will get.
    pub closed spec fn now(&self) -> u64 {
        self.tick
    }

    pub closed spec fn wf(&self) -> bool {
        &&& self.capacity > 0
        &&& self.entries@.len() <= self.capacity
        &&& lfu_entries_wf(self.entries@, self.tick)
    }

    pub proof fn lemma_wf(&self)
        requires
            self.wf(),
        ensures
            self@.len() <= self.capacity_spec(),
            self.capacity_spec() > 0,
            lfu_entries_wf(self@, self.now()),
    {
    }

    pub fn new(capacity: usize) -> (r: Self)
        requires
            capacity > 0,
        ensures
            r.wf(),
            r@ == Seq::<LfuEntry<V>>::empty(),
            r.capacity_spec() == capacity,
            r.now() == 0,
    {
        Self { capacity, entries: Vec::new(), tick: 0 }
    }

    pub fn len(&self) -> (r: usize)
        ensures
            r == self@.len(),
    {
        self.entries.len()
    }

    pub fn is_empty(&self) -> (r: bool)
        ensures
            r == (self@.len() == 0),
    {
        self.entries.len() == 0
    }

    fn find(&self, key: u64) -> (r: Option<usize>)
        ensures
            match r {
                Some(i) => i == lfu_key_pos(self.entries@, key) && i < self.entries@.len()
                    && self.entries@[i as int].key == key,
                None => lfu_key_pos(self.entries@, key) < 0,
            },
    {
        proof {
            lemma_lfu_key_pos(self.entries@, key);
        }
        let mut i: usize = 0;
        while i < self.entries.len()
            invariant
                i <= self.entries@.len(),
                forall|j: int| 0 <= j < i ==> self.entries@[j].key != key,
                -1 <= lfu_key_pos(self.entries@, key) < self.entries@.len(),
                lfu_key_pos(self.entries@, key) >= 0 ==> self.entries@[lfu_key_pos(self.entries@, key)].key == key,
                lfu_key_pos(self.entries@, key) >= 0 ==> forall|j: int| 0 <= j < lfu_key_pos(self.entries@, key) ==> self.entries@[j].key != key,
                lfu_key_pos(self.entries@, key) < 0 ==> forall|j: int| 0 <= j < self.entries@.len() ==> self.entries@[j].key != key,
            decreases self.entries@.len() - i,
        {
            if self.entries[i].key == key {
                return Some(i);
            }
            i = i + 1;
        }
        None
    }

    /// Raises the use count of entry `i` and stamps it with the current time.
    fn touch(&mut self, i: usize)
        requires
            old(self).wf(),
            i < old(self).entries@.len(),
            old(self).tick < u64::MAX,
        ensures
            final(self).wf(),
            final(self).capacity == old(self).capacity,
            final(self).tick == old(self).tick + 1,
            final(self).entries@ == old(self).entries@.update(i as int, LfuEntry {
                key: old(self).entries@[i as int].key,
                val: old(self).entries@[i as int].val,
                freq: (old(self).entries@[i as int].freq + 1) as u64,
                stamp: old(self).tick,
            }),
    {
        let now = self.tick;
        let e = &mut self.entries[i];
        e.freq = e.freq + 1;
        e.stamp = now;
        self.tick = now + 1;
        proof {
            let o = old(self).entries@;
            let n = self.entries@;
            assert forall|a: int| 0 <= a < n.len() implies 1 <= #[trigger] n[a].freq <= self.tick && n[a].stamp < self.tick by {
                if a != i {
                    assert(n[a] == o[a]);
                }
            }
            assert forall|a: int, b: int| 0 <= a < n.len() && 0 <= b < n.len() && a != b implies
                n[a].key != n[b].key && n[a].stamp != n[b].stamp by {
                assert(n[i as int].key == o[i as int].key);
                assert(n[i as int].stamp == now);
                if a != i {
                    assert(n[a] == o[a]);
                    assert(o[a].stamp < now);
                }
                if b != i {
                    assert(n[b] == o[b]);
                    assert(o[b].stamp < now);
                }
            }
        }
    }

    /// Index of the entry to evict from a non-empty cache.
    fn victim(&self) -> (r: usize)
        requires
            self.wf(),
            self.entries@.len() > 0,
        ensures
            lfu_victim(self.entries@, r as int),
    {
        let mut best: usize = 0;
        let mut i: usize = 1;
        while i < self.entries.len()
            invariant
                self.wf(),
                best < i <= self.entries@.len(),
                forall|j: int| 0 <= j < i && j != best ==>
                    self.entries@[best as int].freq < self.entries@[j].freq
                    || (self.entries@[best as int].freq == self.entries@[j].freq
                        && self.entries@[best as int].stamp < self.entries@[j].stamp),
            decreases self.entries@.len() - i,
        {
            let better = self.entries[i].freq < self.entries[best].freq
                || (self.entries[i].freq == self.entries[best].freq && self.entries[i].stamp < self.entries[best].stamp);
            if better {
                best = i;
            }
            i = i + 1;
        }
        best
    }

    /// Returns the value cached for `key`, raising its use count.
    pub fn get(&mut self, key: &u64) -> (r: Option<&V>)
        requires
            old(self).wf(),
            old(self).now() < u64::MAX,
        ensures
            final(self).wf(),
            final(self).capacity_spec() == old(self).capacity_spec(),
            final(self)@ == lfu_touch(old(self)@, *key, old(self).now()),
            final(self).now() == if lfu_lookup(old(self)@, *key) is Some { (old(self).now() + 1) as u64 } else { old(self).now() },
            match r {
                Some(x) => lfu_lookup(old(self)@, *key) == Some(*x),
                None => lfu_lookup(old(self)@, *key) is None,
            },
    {
        match self.find(*key) {
            Some(i) => {
                self.touch(i);
                Some(&self.entries[i].val)
            },
            None => None,
        }
    }

    /// Stores `val` under `key`, raising its use count if present; a new key arriving at a full
    /// cache first evicts the least frequently used entry.
    pub fn put(&mut self, key: u64, val: V)
        requires
            old(self).wf(),
            old(self).now() < u64::MAX,
        ensures
            final(self).wf(),
            final(self).capacity_spec() == old(self).capacity_spec(),
            final(self)@ == lfu_put(old(self)@, old(self).capacity_spec(), key, val, old(self).now()),
            final(self).now() == old(self).now() + 1,
    {
        if self.capacity == 0 {
            return;
        }
        let ghost s = self.entries@;
        match self.find(key) {
            Some(i) => {
                self.entries[i].val = val;
                self.touch(i);
            },
            None => {
                proof {
                    lemma_lfu_key_pos(s, key);
                }
                if self.entries.len() >= self.capacity {
                    let v = self.victim();
                    proof {
                        lemma_victim_unique(s, v as int);
                    }
                    let _ = self.entries.remove(v);
                    proof {
                        let t = self.entries@;
                        assert(t =~= s.remove(v as int));
                        assert forall|a: int| 0 <= a < t.len() implies t[a] == s[if a < v { a } else { a + 1 }] by {}
                    }
                }
                let ghost t = self.entries@;
                let now = self.tick;
                self.entries.push(LfuEntry { key, val, freq: 1, stamp: now });
                self.tick = now + 1;
                proof {
                    let n = self.entries@;
                    assert forall|a: int| #![trigger t[a]] 0 <= a < t.len() implies exists|b: int| 0 <= b < s.len() && #[trigger] s[b] == t[a] by {
                        if s.len() >= self.capacity {
                            let v = lfu_victim_index(s);
                            let b = if a < v { a } else { a + 1 };
                            assert(t[a] == s[b]);
                        } else {
                            assert(t[a] == s[a]);
                        }
                    }
                    assert forall|a: int, b: int| 0 <= a < n.len() && 0 <= b < n.len() && a != b implies
                        n[a].key != n[b].key && n[a].stamp != n[b].stamp by {
                        if a < t.len() && b < t.len() {
                            if s.len() >= self.capacity {
                                let v = lfu_victim_index(s);
                                let ia = if a < v { a } else { a + 1 };
                                let ib = if b < v { b } else { b + 1 };
                                assert(t[a] == s[ia] && t[b] == s[ib]);
                            } else {
                                assert(t[a] == s[a] && t[b] == s[b]);
                            }
                        } else if a < t.len() {
                            let w = choose|w: int| 0 <= w < s.len() && #[trigger] s[w] == t[a];
                            assert(n[a] == s[w]);
                        } else if b < t.len() {
                            let w = choose|w: int| 0 <= w < s.len() && #[trigger] s[w] == t[b];
                            assert(n[b] == s[w]);
                        }
                    }
                    assert forall|a: int| 0 <= a < n.len() implies 1 <= #[trigger] n[a].freq <= self.tick && n[a].stamp < self.tick by {
                        if a < t.len() {
                            let w = choose|w: int| 0 <= w < s.len() && #[trigger] s[w] == t[a];
                            assert(n[a] == s[w]);
                        }
                    }
                }
            },
        }
    }
}

/// A value written is read back at once, and the cache never holds more than its capacity.
pub proof fn lemma_lfu_put_then_get<V>(s: Seq<LfuEntry<V>>, cap: int, k: u64, v: V, now: u64)
    requires
        cap > 0,
        s.len() <= cap,
        lfu_entries_wf(s, now),
    ensures
        lfu_lookup(lfu_put(s, cap, k, v, now), k) == Some(v),
        lfu_put(s, cap, k, v, now).len() <= cap,
{
    lemma_lfu_key_pos(s, k);
    let n = lfu_put(s, cap, k, v, now);
    let p = lfu_key_pos(s, k);
    if p >= 0 {
        lemma_lfu_key_pos(n, k);
        assert forall|j: int| 0 <= j < p implies n[j].key != k by {}
        assert(n[p].key == k);
    } else {
        if s.len() >= cap {
            // a full, non-empty cache has a victim
            let w = lemma_victim_exists(s);
        }
        lemma_lfu_key_pos(n, k);
        let kept = n.drop_last();
        assert(n[n.len() - 1].key == k);
        assert forall|j: int| 0 <= j < kept.len() implies n[j].key != k by {
            assert(n[j] == kept[j]);
            if s.len() >= cap {
                let w = lfu_victim_index(s);
                assert(kept[j] == s[if j < w { j } else { j + 1 }]);
            } else {
                assert(kept[j] == s[j]);
            }
        }
    }
}

/// A non-empty set of entries with distinct time stamps has an entry to evict.
pub proof fn lemma_victim_exists<V>(s: Seq<LfuEntry<V>>) -> (i: int)
    requires
        s.len() > 0,
        forall|a: int, b: int| 0 <= a < s.len() && 0 <= b < s.len() && a != b ==> s[a].stamp != s[b].stamp,
    ensures
        lfu_victim(s, i),
        lfu_victim_index(s) == i,
    decreases s.len(),
{
    if s.len() == 1 {
        lemma_victim_unique(s, 0);
        0
    } else {
        let r = s.drop_last();
        let j = lemma_victim_exists(r);
        let l = s.len() - 1;
        assert forall|q: int| 0 <= q < l implies r[q] == s[q] by {}
        if s[l].freq < s[j].freq || (s[l].freq == s[j].freq && s[l].stamp < s[j].stamp) {
            assert forall|q: int| 0 <= q < s.len() && q != l implies
                s[l].freq < s[q].freq || (s[l].freq == s[q].freq && s[l].stamp < s[q].stamp) by {
                if q != j {
                    assert(r[j].freq < r[q].freq || (r[j].freq == r[q].freq && r[j].stamp < r[q].stamp));
                }
            }
            lemma_victim_unique(s, l);
            l
        } else {
            assert(s[l].stamp != s[j].stamp);
            assert forall|q: int| 0 <= q < s.len() && q != j implies
                s[j].freq < s[q].freq || (s[j].freq == s[q].freq && s[j].stamp < s[q].stamp) by {
                if q != l {
                    assert(r[j].freq < r[q].freq || (r[j].freq == r[q].freq && r[j].stamp < r[q].stamp));
                }
            }
            lemma_victim_unique(s, j);
            j
        }
    }
}

/// The evicted entry has the lowest use count in the cache.
pub proof fn lemma_victim_least_frequent<V>(s: Seq<LfuEntry<V>>, j: int)
    requires
        s.len() > 0,
        forall|a: int, b: int| 0 <= a < s.len() && 0 <= b < s.len() && a != b ==> s[a].stamp != s[b].stamp,
        0 <= j < s.len(),
    ensures
        s[lfu_victim_index(s)].freq <= s[j].freq,
{
    let i = lemma_victim_exists(s);
}

} // verus!
