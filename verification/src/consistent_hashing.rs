//! A consistent hashing ring with virtual nodes. Each physical node owns `replicas` points on
//! a ring of `u64` hash values; a key belongs to the owner of the first point at or after the
//! key's hash, wrapping around to the first point.

use std::collections::hash_map::DefaultHasher;
use std::hash::Hash;
use std::hash::Hasher;
use vstd::prelude::*;
use vstd::std_specs::cmp::PartialEqSpec;

verus! {

/// Keys strictly increase along the ring.
pub open spec fn sorted_keys<T>(r: Seq<(u64, T)>) -> bool {
    forall|i: int, j: int| 0 <= i < j < r.len() ==> r[i].0 < r[j].0
}

/// Index of the first point whose hash is at least `h` (the length when there is none).
pub open spec fn succ_index<T>(r: Seq<(u64, T)>, h: u64) -> nat
    decreases r.len(),
{
    if r.len() == 0 {
        0
    } else if r[0].0 >= h {
        0
    } else {
        1 + succ_index(r.drop_first(), h)
    }
}

/// The node owning hash `h`: the first point at or after `h`, wrapping to the first point.
pub open spec fn owner<T>(r: Seq<(u64, T)>, h: u64) -> Option<T> {
    if r.len() == 0 {
        None
    } else if succ_index(r, h) < r.len() {
        Some(r[succ_index(r, h) as int].1)
    } else {
        Some(r[0].1)
    }
}

pub open spec fn has_point<T>(r: Seq<(u64, T)>, h: u64) -> bool {
    succ_index(r, h) < r.len() && r[succ_index(r, h) as int].0 == h
}

/// The ring with the point at `h` set to `v`.
pub open spec fn upsert<T>(r: Seq<(u64, T)>, h: u64, v: T) -> Seq<(u64, T)> {
    if has_point(r, h) {
        r.update(succ_index(r, h) as int, (h, v))
    } else {
        r.insert(succ_index(r, h) as int, (h, v))
    }
}

/// The ring without the point at `h`.
pub open spec fn without<T>(r: Seq<(u64, T)>, h: u64) -> Seq<(u64, T)> {
    if has_point(r, h) {
        r.remove(succ_index(r, h) as int)
    } else {
        r
    }
}

/// The ring after setting the points `hs[k]` to `vs[k]`, in order.
pub open spec fn upsert_all<T>(r: Seq<(u64, T)>, hs: Seq<u64>, vs: Seq<T>) -> Seq<(u64, T)>
    decreases hs.len(),
{
    if hs.len() == 0 || vs.len() == 0 {
        r
    } else {
        upsert(upsert_all(r, hs.drop_last(), vs.drop_last()), hs.last(), vs.last())
    }
}

/// The point `succ_index` names: everything before it lies below `h`, everything from it on
/// lies at or above `h`.
pub proof fn lemma_succ_index<T>(r: Seq<(u64, T)>, h: u64)
    requires
        sorted_keys(r),
    ensures
        succ_index(r, h) <= r.len(),
        forall|j: int| 0 <= j < succ_index(r, h) ==> #[trigger] r[j].0 < h,
        forall|j: int| succ_index(r, h) <= j < r.len() ==> #[trigger] r[j].0 >= h,
    decreases r.len(),
{
    if r.len() > 0 && r[0].0 < h {
        let t = r.drop_first();
        assert forall|i: int, j: int| 0 <= i < j < t.len() implies t[i].0 < t[j].0 by {
            assert(t[i] == r[i + 1] && t[j] == r[j + 1]);
        }
        lemma_succ_index(t, h);
        assert forall|j: int| 0 <= j < succ_index(r, h) implies #[trigger] r[j].0 < h by {
            if j > 0 {
                assert(r[j] == t[j - 1]);
            }
        }
        assert forall|j: int| succ_index(r, h) <= j < r.len() implies #[trigger] r[j].0 >= h by {
            assert(r[j] == t[j - 1]);
        }
    }
}

/// Any split point of a sorted ring around `h` is `succ_index`.
proof fn lemma_succ_index_unique<T>(r: Seq<(u64, T)>, h: u64, i: int)
    requires
        sorted_keys(r),
        0 <= i <= r.len(),
        forall|j: int| 0 <= j < i ==> #[trigger] r[j].0 < h,
        forall|j: int| i <= j < r.len() ==> #[trigger] r[j].0 >= h,
    ensures
        succ_index(r, h) == i,
{
    lemma_succ_index(r, h);
    let s = succ_index(r, h) as int;
    if s < i {
        assert(0 <= s < i);
        assert(r[s].0 < h);
        assert(s <= s < r.len());
        assert(r[s].0 >= h);
    } else if i < s {
        assert(r[i].0 < h);
        assert(r[i].0 >= h);
    }
}

proof fn lemma_upsert_sorted<T>(r: Seq<(u64, T)>, h: u64, v: T)
    requires
        sorted_keys(r),
    ensures
        sorted_keys(upsert(r, h, v)),
        upsert(r, h, v).len() == if has_point(r, h) { r.len() } else { r.len() + 1 },
{
    lemma_succ_index(r, h);
    let i = succ_index(r, h) as int;
    let u = upsert(r, h, v);
    if has_point(r, h) {
        assert forall|a: int, b: int| 0 <= a < b < u.len() implies u[a].0 < u[b].0 by {
            assert(u[a].0 == r[a].0 && u[b].0 == r[b].0);
        }
    } else {
        assert forall|a: int, b: int| 0 <= a < b < u.len() implies u[a].0 < u[b].0 by {
            if b < i {
                assert(u[a] == r[a] && u[b] == r[b]);
            } else if b == i {
                assert(u[a] == r[a]);
            } else if a < i {
                assert(u[a] == r[a] && u[b] == r[b - 1]);
            } else if a == i {
                assert(u[b] == r[b - 1]);
                assert(r[b - 1].0 >= h);
                assert(r[b - 1].0 != h || b - 1 == i);
            } else {
                assert(u[a] == r[a - 1] && u[b] == r[b - 1]);
            }
        }
    }
}

proof fn lemma_without_sorted<T>(r: Seq<(u64, T)>, h: u64)
    requires
        sorted_keys(r),
    ensures
        sorted_keys(without(r, h)),
{
    let i = succ_index(r, h) as int;
    let w = without(r, h);
    if has_point(r, h) {
        assert forall|a: int, b: int| 0 <= a < b < w.len() implies w[a].0 < w[b].0 by {
            let ra = if a < i { a } else { a + 1 };
            let rb = if b < i { b } else { b + 1 };
            assert(w[a] == r[ra] && w[b] == r[rb]);
        }
    }
}

/// Setting one point moves a hash to a new owner only if the new owner is the value placed:
/// every other hash keeps its owner. This is what keeps remapping small as nodes join.
pub proof fn lemma_upsert_keeps_other_owners<T>(r: Seq<(u64, T)>, h: u64, v: T, k: u64)
    requires
        sorted_keys(r),
    ensures
        owner(upsert(r, h, v), k) == owner(r, k) || owner(upsert(r, h, v), k) == Some(v),
{
    let u = upsert(r, h, v);
    lemma_upsert_sorted(r, h, v);
    lemma_succ_index(r, h);
    lemma_succ_index(r, k);
    lemma_succ_index(u, k);
    let i = succ_index(r, h) as int;
    let s = succ_index(r, k) as int;
    let su = succ_index(u, k) as int;
    if has_point(r, h) {
        assert forall|j: int| 0 <= j < s implies #[trigger] u[j].0 < k by {
            assert(u[j].0 == r[j].0);
        }
        assert forall|j: int| s <= j < u.len() implies #[trigger] u[j].0 >= k by {
            assert(u[j].0 == r[j].0);
        }
        lemma_succ_index_unique(u, k, s);
    } else if k <= h {
        if s <= i {
            assert forall|j: int| 0 <= j < s implies #[trigger] u[j].0 < k by {
                assert(u[j] == r[j]);
            }
            assert forall|j: int| s <= j < u.len() implies #[trigger] u[j].0 >= k by {
                if j < i {
                    assert(u[j] == r[j]);
                } else if j > i {
                    assert(u[j] == r[j - 1]);
                }
            }
            lemma_succ_index_unique(u, k, s);
            if s == i {
                assert(u[s] == (h, v));
            } else {
                assert(u[s] == r[s]);
            }
        } else {
            assert(r[i].0 >= k || i == r.len());
            assert(false);
        }
    } else {
        if s <= i {
            assert(s == i || r[s].0 >= k);
            if s < i {
                assert(r[s].0 < h);
            }
            assert forall|j: int| 0 <= j < i + 1 implies #[trigger] u[j].0 < k by {
                if j < i {
                    assert(u[j] == r[j]);
                    assert(r[j].0 < h);
                }
            }
            if s < i {
                assert(false);
            }
            assert forall|j: int| i + 1 <= j < u.len() implies #[trigger] u[j].0 >= k by {
                assert(u[j] == r[j - 1]);
            }
            lemma_succ_index_unique(u, k, i + 1);
            if i + 1 < u.len() {
                assert(u[i + 1] == r[s]);
            } else {
                assert(u[0] == r[0] || (i == 0 && u[0] == (h, v)));
            }
        } else {
            assert forall|j: int| 0 <= j < s + 1 implies #[trigger] u[j].0 < k by {
                if j < i {
                    assert(u[j] == r[j]);
                } else if j > i {
                    assert(u[j] == r[j - 1]);
                }
            }
            assert forall|j: int| s + 1 <= j < u.len() implies #[trigger] u[j].0 >= k by {
                assert(u[j] == r[j - 1]);
            }
            lemma_succ_index_unique(u, k, s + 1);
            if s < r.len() {
                assert(u[s + 1] == r[s]);
            } else if i > 0 {
                assert(u[0] == r[0]);
            }
        }
    }
}

/// The ring without the point at `h` when that point holds `node`.
pub open spec fn drop_if_held<T: PartialEq>(r: Seq<(u64, T)>, h: u64, node: T) -> Seq<(u64, T)> {
    if has_point(r, h) && r[succ_index(r, h) as int].1.eq_spec(&node) {
        without(r, h)
    } else {
        r
    }
}

/// The ring after dropping, for each hash of `hs` in order, the point there if it holds `node`.
pub open spec fn drop_all_held<T: PartialEq>(r: Seq<(u64, T)>, hs: Seq<u64>, node: T) -> Seq<(u64, T)>
    decreases hs.len(),
{
    if hs.len() == 0 {
        r
    } else {
        drop_if_held(drop_all_held(r, hs.drop_last(), node), hs.last(), node)
    }
}

/// Hashes `value` into `state` with its `Hash` implementation.
#[verifier::external_body]
pub(crate) fn hash_into<H: Hash + ?Sized>(value: &H, state: &mut DefaultHasher) {
    value.hash(state);
}

/// A consistent hashing ring.
#[derive(Debug, Clone)]
pub struct ConsistentHashRing<T> {
    ring: Vec<(u64, T)>,
    replicas: usize,
}

impl<T> ConsistentHashRing<T> {
    /// The points of the ring in increasing hash order.
    pub closed spec fn points(&self) -> Seq<(u64, T)> {
        self.ring@
    }

    pub closed spec fn replica_count(&self) -> usize {
        self.replicas
    }

    pub closed spec fn wf(&self) -> bool {
        sorted_keys(self.ring@) && self.replicas > 0
    }
}

impl<T: Hash + Clone + Eq> ConsistentHashRing<T> {
    /// An empty ring that places `replicas` virtual nodes per physical node.
    pub fn new(replicas: usize) -> (r: Self)
        requires
            replicas > 0,
        ensures
            r.wf(),
            r.points().len() == 0,
            r.replica_count() == replicas,
    {
        ConsistentHashRing { ring: Vec::new(), replicas }
    }

    /// Index of the first point at or after `hash`.
    fn search(&self, hash: u64) -> (i: usize)
        requires
            self.wf(),
        ensures
            i == succ_index(self.points(), hash),
    {
        let mut lo: usize = 0;
        let mut hi: usize = self.ring.len();
        while lo < hi
            invariant
                self.wf(),
                lo <= hi <= self.ring.len(),
                forall|j: int| 0 <= j < lo ==> #[trigger] self.ring@[j].0 < hash,
                forall|j: int| hi <= j < self.ring.len() ==> #[trigger] self.ring@[j].0 >= hash,
            decreases hi - lo,
        {
            let mid = lo + (hi - lo) / 2;
            if self.ring[mid].0 < hash {
                lo = mid + 1;
            } else {
                hi = mid;
            }
        }
        proof {
            lemma_succ_index_unique(self.ring@, hash, lo as int);
        }
        lo
    }

    /// Places `node` at the ring point `hash`, replacing whatever was there.
    pub fn insert_point(&mut self, hash: u64, node: T)
        requires
            old(self).wf(),
        ensures
            final(self).wf(),
            final(self).replica_count() == old(self).replica_count(),
            final(self).points() == upsert(old(self).points(), hash, node),
    {
        let i = self.search(hash);
        proof {
            lemma_succ_index(self.ring@, hash);
            lemma_upsert_sorted(self.ring@, hash, node);
        }
        if i < self.ring.len() && self.ring[i].0 == hash {
            self.ring.set(i, (hash, node));
        } else {
            self.ring.insert(i, (hash, node));
        }
    }

    /// Removes the point at `hash` if the node stored there equals `node`.
    pub fn remove_point(&mut self, hash: u64, node: &T)
        requires
            old(self).wf(),
        ensures
            final(self).wf(),
            final(self).replica_count() == old(self).replica_count(),
            final(self).points() == old(self).points() || final(self).points() == without(
                old(self).points(),
                hash,
            ),
            !has_point(old(self).points(), hash) ==> final(self).points() == old(self).points(),
            T::obeys_eq_spec() ==> final(self).points() == (if has_point(old(self).points(), hash)
                && old(self).points()[succ_index(old(self).points(), hash) as int].1.eq_spec(node) {
                without(old(self).points(), hash)
            } else {
                old(self).points()
            }),
    {
        let i = self.search(hash);
        proof {
            lemma_without_sorted(self.ring@, hash);
        }
        if i < self.ring.len() && self.ring[i].0 == hash {
            if self.ring[i].1 == *node {
                self.ring.remove(i);
            }
        }
    }

    /// The node owning `hash`: the first point at or after it, wrapping around the ring.
    pub fn node_for_hash(&self, hash: u64) -> (r: Option<&T>)
        requires
            self.wf(),
        ensures
            r is None <==> owner(self.points(), hash) is None,
            r matches Some(n) ==> owner(self.points(), hash) == Some(*n),
    {
        if self.ring.len() == 0 {
            return None;
        }
        let i = self.search(hash);
        if i < self.ring.len() {
            Some(&self.ring[i].1)
        } else {
            Some(&self.ring[0].1)
        }
    }

    /// Adds `replicas` virtual nodes for `node`, one at the hash of each replica index.
    pub fn add_node(&mut self, node: T)
        requires
            old(self).wf(),
        ensures
            final(self).wf(),
            final(self).replica_count() == old(self).replica_count(),
            exists|hs: Seq<u64>, vs: Seq<T>|
                {
                    &&& hs.len() == old(self).replica_count()
                    &&& vs.len() == hs.len()
                    &&& forall|k: int| 0 <= k < vs.len() ==> cloned(node, #[trigger] vs[k])
                    &&& final(self).points() == upsert_all(old(self).points(), hs, vs)
                },
    {
        let ghost hs: Seq<u64> = Seq::empty();
        let ghost vs: Seq<T> = Seq::empty();
        let ghost start = self.points();
        assert(upsert_all(start, hs, vs) == start);
        let n = self.replicas;
        let mut i: usize = 0;
        while i < n
            invariant
                self.wf(),
                n == self.replicas,
                n == old(self).replicas,
                i <= n,
                hs.len() == i,
                vs.len() == i,
                forall|k: int| 0 <= k < vs.len() ==> cloned(node, #[trigger] vs[k]),
                self.points() == upsert_all(start, hs, vs),
            decreases n - i,
        {
            let hash = calculate_hash(&node, i);
            let copy = node.clone();
            self.insert_point(hash, copy);
            proof {
                let hs2 = hs.push(hash);
                let vs2 = vs.push(copy);
                assert(hs2.drop_last() == hs && vs2.drop_last() == vs);
                hs = hs2;
                vs = vs2;
            }
            i = i + 1;
        }
    }

    /// Removes the virtual nodes of `node`: at the hash of each replica index, the point is
    /// dropped if it holds `node`.
    pub fn remove_node(&mut self, node: &T)
        requires
            old(self).wf(),
        ensures
            final(self).wf(),
            final(self).replica_count() == old(self).replica_count(),
            final(self).points().len() <= old(self).points().len(),
            forall|j: int|
                0 <= j < final(self).points().len() ==> old(self).points().contains(
                    #[trigger] final(self).points()[j],
                ),
            T::obeys_eq_spec() ==> exists|hs: Seq<u64>|
                hs.len() == old(self).replica_count() && #[trigger] drop_all_held(old(self).points(), hs, *node)
                    == final(self).points(),
    {
        let n = self.replicas;
        let mut i: usize = 0;
        let ghost hs: Seq<u64> = Seq::empty();
        while i < n
            invariant
                self.wf(),
                n == self.replicas,
                n == old(self).replicas,
                i <= n,
                hs.len() == i,
                T::obeys_eq_spec() ==> drop_all_held(old(self).points(), hs, *node) == self.points(),
                self.points().len() <= old(self).points().len(),
                forall|j: int|
                    0 <= j < self.points().len() ==> old(self).points().contains(
                        #[trigger] self.points()[j],
                    ),
            decreases n - i,
        {
            let hash = calculate_hash(node, i);
            let ghost before = self.points();
            self.remove_point(hash, node);
            proof {
                assert(hs.push(hash).drop_last() == hs);
                hs = hs.push(hash);
                if self.points() != before {
                    let w = self.points();
                    let s = succ_index(before, hash) as int;
                    assert forall|j: int| 0 <= j < w.len() implies old(self).points().contains(
                        #[trigger] w[j],
                    ) by {
                        let bj = if j < s { j } else { j + 1 };
                        assert(w[j] == before[bj]);
                        assert(before.contains(before[bj]));
                    }
                }
            }
            i = i + 1;
        }
    }

    /// The node responsible for `key`, or `None` when the ring is empty.
    pub fn get_node<K: Hash + ?Sized>(&self, key: &K) -> (r: Option<&T>)
        requires
            self.wf(),
        ensures
            r is None <==> self.points().len() == 0,
            r matches Some(n) ==> exists|h: u64| owner(self.points(), h) == Some(*n),
    {
        if self.ring.len() == 0 {
            return None;
        }
        let hash = calculate_key_hash(key);
        self.node_for_hash(hash)
    }

    /// Number of virtual nodes on the ring.
    pub fn len(&self) -> (n: usize)
        ensures
            n == self.points().len(),
    {
        self.ring.len()
    }

    pub fn is_empty(&self) -> (b: bool)
        ensures
            b == (self.points().len() == 0),
    {
        self.ring.len() == 0
    }
}

/// The ring position of replica `replica_index` of `node`.
fn calculate_hash<T: Hash>(node: &T, replica_index: usize) -> u64 {
    let mut hasher = DefaultHasher::new();
    hash_into(node, &mut hasher);
    hash_into(&replica_index, &mut hasher);
    hasher.finish()
}

/// The ring position of `key`.
fn calculate_key_hash<K: Hash + ?Sized>(key: &K) -> u64 {
    let mut hasher = DefaultHasher::new();
    hash_into(key, &mut hasher);
    hasher.finish()
}

} // verus!
