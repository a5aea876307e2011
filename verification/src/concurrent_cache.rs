//! A sharded LRU cache: keys are spread over independent LRU caches by their hash, so that
//! callers can lock shards separately; a key always maps to the same shard. Each shard holds the total capacity divided evenly,
//! rounded up.

use std::collections::hash_map::DefaultHasher;
use std::hash::Hasher;
use vstd::prelude::*;
use vstd::std_specs::hash::DefaultHasherAdditionalSpecFns;
use crate::lru_cache::{lemma_put_then_get, lru_lookup, lru_put, lru_touch, LRUCache};

verus! {

/// The shard of `key` among `n`: the `DefaultHasher` hash of the key's eight bytes, least
/// significant first, modulo `n`. Every call puts a key in the same shard.
pub open spec fn shard_of(key: u64, n: nat) -> int {
    DefaultHasher::spec_finish(seq![vstd::bytes::spec_u64_to_le_bytes(key)]) as int % n as int
}

/// A cache split into shards, each an LRU cache of its own.
pub struct ConcurrentLruCache<V> {
    shards: Vec<LRUCache<V>>,
    num_shards: usize,
}

impl<V> ConcurrentLruCache<V> {
    /// The entries of shard `i`, most recently used first.
    pub closed spec fn shard(&self, i: int) -> Seq<(u64, V)> {
        self.shards@[i]@
    }

    pub closed spec fn shard_count(&self) -> nat {
        self.num_shards as nat
    }

    /// How many entries each shard holds at most.
    pub closed spec fn shard_capacity(&self) -> int {
        self.shards@[0].capacity_spec()
    }

    pub closed spec fn wf(&self) -> bool {
        &&& self.num_shards > 0
        &&& self.shards@.len() == self.num_shards
        &&& forall|i: int|
            0 <= i < self.shards@.len() ==> (#[trigger] self.shards@[i]).wf() && self.shards@[i].capacity_spec()
                == self.shards@[0].capacity_spec()
    }

    /// A cache of `capacity` entries in all, over `num_shards` shards.
    pub fn new(capacity: usize, num_shards: usize) -> (c: Self)
        requires
            capacity > 0,
            num_shards > 0,
        ensures
            c.wf(),
            c.shard_count() == num_shards,
            c.shard_capacity() == (capacity + num_shards - 1) / (num_shards as int),
            forall|i: int| 0 <= i < num_shards ==> c.shard(i) == Seq::<(u64, V)>::empty(),
    {
        let q = capacity / num_shards;
        let shard_capacity = if capacity % num_shards != 0 {
            assert(q < capacity) by (nonlinear_arith)
                requires
                    num_shards > 0,
                    capacity % num_shards != 0,
                    q == capacity / num_shards,
            ;
            q + 1
        } else {
            q
        };
        assert(shard_capacity == (capacity + num_shards - 1) / (num_shards as int)) by (nonlinear_arith)
            requires
                num_shards > 0,
                shard_capacity == capacity / num_shards + if capacity % num_shards != 0 {
                    1int
                } else {
                    0int
                },
        ;
        assert(shard_capacity > 0) by (nonlinear_arith)
            requires
                num_shards > 0,
                capacity > 0,
                shard_capacity == capacity / num_shards + if capacity % num_shards != 0 {
                    1int
                } else {
                    0int
                },
        ;
        let mut shards: Vec<LRUCache<V>> = Vec::new();
        let mut i: usize = 0;
        while i < num_shards
            invariant
                i <= num_shards,
                shards@.len() == i,
                shard_capacity > 0,
                forall|j: int|
                    0 <= j < i ==> (#[trigger] shards@[j]).wf() && shards@[j].capacity_spec() == shard_capacity
                        && shards@[j]@ == Seq::<(u64, V)>::empty(),
            decreases num_shards - i,
        {
            shards.push(LRUCache::new(shard_capacity));
            i = i + 1;
        }
        ConcurrentLruCache { shards, num_shards }
    }

    /// The shard that holds `key`, chosen by the key's `DefaultHasher` hash.
    pub fn shard_index(&self, key: &u64) -> (i: usize)
        requires
            self.wf(),
        ensures
            i < self.shard_count(),
            i == shard_of(*key, self.shard_count()),
    {
        let bytes = vstd::bytes::u64_to_le_bytes(*key);
        let mut hasher = DefaultHasher::new();
        hasher.write(bytes.as_slice());
        let h = hasher.finish();
        proof {
            assert(hasher@ =~= seq![vstd::bytes::spec_u64_to_le_bytes(*key)]);
        }
        (h % (self.num_shards as u64)) as usize
    }

    /// Reads `key` in shard `i`: its value, cloned, made the most recently used there.
    pub fn get_in(&mut self, i: usize, key: &u64) -> (r: Option<V>)
        where
            V: Clone,
        requires
            old(self).wf(),
            i < old(self).shard_count(),
        ensures
            final(self).wf(),
            final(self).shard_count() == old(self).shard_count(),
            final(self).shard_capacity() == old(self).shard_capacity(),
            final(self).shard(i as int) == lru_touch(old(self).shard(i as int), *key),
            forall|j: int| 0 <= j < old(self).shard_count() && j != i ==> #[trigger] final(self).shard(j) == old(self).shard(j),
            match (r, lru_lookup(old(self).shard(i as int), *key)) {
                (Some(v), Some(x)) => cloned::<V>(x, v),
                (None, None) => true,
                _ => false,
            },
    {
        let ghost before = self.shards@;
        let r = match self.shards[i].get(key) {
            Some(v) => {
                let c = v.clone();
                assert(lru_lookup(old(self).shard(i as int), *key) == Some(*v) && cloned::<V>(*v, c));
                Some(c)
            },
            None => None,
        };
        proof {
            assert forall|j: int| 0 <= j < self.shards@.len() implies (#[trigger] self.shards@[j]).wf()
                && self.shards@[j].capacity_spec() == self.shards@[0].capacity_spec() by {
                if j != i {
                    assert(self.shards@[j] == before[j]);
                }
                if i != 0 {
                    assert(self.shards@[0] == before[0]);
                }
            }
            if i != 0 {
                assert(self.shards@[0] == before[0]);
            }
        }
        r
    }

    /// Writes `val` under `key` in shard `i`, evicting that shard's least recently used entry
    /// when it is full.
    pub fn put_in(&mut self, i: usize, key: u64, val: V)
        requires
            old(self).wf(),
            i < old(self).shard_count(),
        ensures
            final(self).wf(),
            final(self).shard_count() == old(self).shard_count(),
            final(self).shard_capacity() == old(self).shard_capacity(),
            final(self).shard(i as int) == lru_put(old(self).shard(i as int), old(self).shard_capacity(), key, val),
            forall|j: int| 0 <= j < old(self).shard_count() && j != i ==> #[trigger] final(self).shard(j) == old(self).shard(j),
    {
        let ghost before = self.shards@;
        self.shards[i].put(key, val);
        proof {
            assert forall|j: int| 0 <= j < self.shards@.len() implies (#[trigger] self.shards@[j]).wf()
                && self.shards@[j].capacity_spec() == self.shards@[0].capacity_spec() by {
                if j != i {
                    assert(self.shards@[j] == before[j]);
                }
                if i != 0 {
                    assert(self.shards@[0] == before[0]);
                }
            }
            if i != 0 {
                assert(self.shards@[0] == before[0]);
            }
        }
    }

    /// Reads `key` in its shard (see `get_in`).
    pub fn get(&mut self, key: &u64) -> (r: Option<V>)
        where
            V: Clone,
        requires
            old(self).wf(),
        ensures
            final(self).wf(),
            final(self).shard_count() == old(self).shard_count(),
            final(self).shard_capacity() == old(self).shard_capacity(),
            ({
                let i = shard_of(*key, old(self).shard_count());
                &&& final(self).shard(i) == lru_touch(old(self).shard(i), *key)
                &&& forall|j: int| 0 <= j < old(self).shard_count() && j != i ==> #[trigger] final(self).shard(j) == old(self).shard(j)
                &&& match (r, lru_lookup(old(self).shard(i), *key)) {
                    (Some(v), Some(x)) => cloned::<V>(x, v),
                    (None, None) => true,
                    _ => false,
                }
            }),
    {
        let i = self.shard_index(key);
        let r = self.get_in(i, key);
        assert(self.shard(i as int) == lru_touch(old(self).shard(i as int), *key));
        r
    }

    /// Writes `val` under `key` in its shard (see `put_in`).
    pub fn put(&mut self, key: u64, val: V)
        requires
            old(self).wf(),
        ensures
            final(self).wf(),
            final(self).shard_count() == old(self).shard_count(),
            final(self).shard_capacity() == old(self).shard_capacity(),
            ({
                let i = shard_of(key, old(self).shard_count());
                &&& final(self).shard(i) == lru_put(old(self).shard(i), old(self).shard_capacity(), key, val)
                &&& forall|j: int| 0 <= j < old(self).shard_count() && j != i ==> #[trigger] final(self).shard(j) == old(self).shard(j)
            }),
    {
        let i = self.shard_index(&key);
        self.put_in(i, key, val);
        assert(self.shard(i as int) == lru_put(old(self).shard(i as int), old(self).shard_capacity(), key, val));
    }
}

/// Read after write: `put(k, v)` leaves the shard that `k` maps to as `lru_put` makes it, and
/// in that shard, the one `get(k)` reads, `k` then holds `v`.
pub proof fn lemma_put_then_get_in_shard<V>(c: ConcurrentLruCache<V>, k: u64, v: V)
    requires
        c.wf(),
    ensures
        0 <= shard_of(k, c.shard_count()) < c.shard_count(),
        lru_lookup(lru_put(c.shard(shard_of(k, c.shard_count())), c.shard_capacity(), k, v), k) == Some(v),
{
    let i = shard_of(k, c.shard_count());
    c.shards@[i].lemma_wf();
    lemma_put_then_get(c.shard(i), c.shard_capacity(), k, v);
}

} // verus!
