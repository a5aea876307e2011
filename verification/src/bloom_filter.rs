//! A Bloom filter: a bit array of `m` bits in which each item sets `k` positions derived from
//! its hash by double hashing. A hash whose positions were set is always reported present, so
//! an inserted item is reported present whenever it hashes as it did when inserted; an item
//! that was not inserted may be reported present too.

use crate::consistent_hashing::hash_into;
use std::collections::hash_map::DefaultHasher;
use std::hash::Hash;
use std::hash::Hasher;
use std::marker::PhantomData;
use vstd::prelude::*;

verus! {

/// A set that may report items it does not hold, but never misses one it holds.
pub trait ProbabilisticSet<T: ?Sized> {
    spec fn ready(&self) -> bool;

    fn insert(&mut self, item: &T)
        requires
            old(self).ready(),
        ensures
            final(self).ready(),
    ;

    fn contains(&self, item: &T) -> bool
        requires
            self.ready(),
    ;

    fn clear(&mut self)
        requires
            old(self).ready(),
        ensures
            final(self).ready(),
    ;
}

/// The `j`-th position probed for a 64-bit hash `h`: the low half plus `j` times the high half,
/// in 32-bit wrapping arithmetic, reduced modulo `m`.
pub open spec fn probe(h: u64, j: u32, m: usize) -> int {
    let h1 = (h & 0xffff_ffff) as u32;
    let h2 = (h >> 32u64) as u32;
    let hi = vstd::wrapping::u32_specs::wrapping_add(h1, vstd::wrapping::u32_specs::wrapping_mul(j, h2));
    (hi as int) % (m as int)
}

/// Position `i` is one of the first `k` probes for `h`.
pub open spec fn probed(h: u64, k: u32, m: usize, i: int) -> bool {
    exists|j: u32| j < k && #[trigger] probe(h, j, m) == i
}

/// Bit `i` of a block array, least significant bit first in each block.
pub open spec fn bit_of(bits: Seq<u64>, i: int) -> bool {
    (bits[i / 64] >> ((i % 64) as u64)) & 1u64 == 1u64
}

proof fn lemma_set_bit(x: u64, i: u64, j: u64)
    by (bit_vector)
    requires
        i < 64,
        j < 64,
    ensures
        ((x | (1u64 << j)) >> i) & 1u64 == if i == j { 1u64 } else { (x >> i) & 1u64 },
{
}

proof fn lemma_test_bit(x: u64, i: u64)
    by (bit_vector)
    requires
        i < 64,
    ensures
        ((x & (1u64 << i)) != 0u64) == ((x >> i) & 1u64 == 1u64),
{
}

proof fn lemma_zero_bits(i: u64)
    by (bit_vector)
    requires
        i < 64,
    ensures
        (0u64 >> i) & 1u64 == 0u64,
{
}

/// A Bloom filter over items of type `T`.
pub struct BloomFilter<T: ?Sized> {
    bits: Vec<u64>,
    m: usize,
    k: u32,
    _marker: PhantomData<T>,
}

impl<T: ?Sized> BloomFilter<T> {
    /// Whether bit `i` is set.
    pub closed spec fn bit(&self, i: int) -> bool {
        bit_of(self.bits@, i)
    }

    pub closed spec fn size(&self) -> usize {
        self.m
    }

    pub closed spec fn probes(&self) -> u32 {
        self.k
    }

    /// The blocks cover all `m` bits, and there is at least one bit.
    pub closed spec fn wf(&self) -> bool {
        &&& self.m > 0
        &&& self.bits@.len() * 64 >= self.m
    }

    /// Whether every probe of `h` is set: the filter reports an item with hash `h` present.
    pub open spec fn holds(&self, h: u64) -> bool {
        forall|j: u32| j < self.probes() ==> #[trigger] self.bit(probe(h, j, self.size()))
    }

    /// The bits are those of `before` with the probes of `h` set.
    pub open spec fn holds_after_insert(&self, before: Self, h: u64) -> bool {
        forall|i: int|
            0 <= i < before.size() ==> #[trigger] self.bit(i) == (before.bit(i) || probed(h, before.probes(), before.size(), i))
    }

    /// A filter of `m` bits (at least one) that sets `k` bits per item; all bits clear.
    pub fn new(m: usize, k: u32) -> (f: Self)
        requires
            0 < m <= usize::MAX - 63,
        ensures
            f.wf(),
            f.size() == m,
            f.probes() == k,
            forall|i: int| 0 <= i < m ==> !#[trigger] f.bit(i),
    {
        let num_blocks = (m + 63) / 64;
        let mut bits: Vec<u64> = Vec::new();
        let mut b: usize = 0;
        while b < num_blocks
            invariant
                b <= num_blocks,
                bits@.len() == b,
                forall|q: int| 0 <= q < b ==> bits@[q] == 0u64,
            decreases num_blocks - b,
        {
            bits.push(0);
            b = b + 1;
        }
        let f = BloomFilter { bits, m, k, _marker: PhantomData };
        assert forall|i: int| 0 <= i < m implies !#[trigger] f.bit(i) by {
            lemma_zero_bits((i % 64) as u64);
        }
        f
    }

    /// Sets the probes of the hash `h`.
    pub fn insert_hash(&mut self, h: u64)
        requires
            old(self).wf(),
        ensures
            final(self).wf(),
            final(self).size() == old(self).size(),
            final(self).probes() == old(self).probes(),
            forall|i: int| 0 <= i < old(self).size() ==> #[trigger] final(self).bit(i) == (old(self).bit(i)
                || probed(h, old(self).probes(), old(self).size(), i)),
    {
        let h1 = (h & 0xffff_ffff) as u32;
        let h2 = (h >> 32u64) as u32;
        let mut j: u32 = 0;
        while j < self.k
            invariant
                self.m == old(self).m,
                self.k == old(self).k,
                j <= self.k,
                self.m > 0,
                self.bits@.len() == old(self).bits@.len(),
                self.bits@.len() * 64 >= self.m,
                h1 == (h & 0xffff_ffff) as u32,
                h2 == (h >> 32u64) as u32,
                forall|i: int| 0 <= i < self.m ==> #[trigger] bit_of(self.bits@, i) == (bit_of(old(self).bits@, i)
                    || exists|q: u32| q < j && #[trigger] probe(h, q, self.m) == i),
            decreases self.k - j,
        {
            let hj = h1.wrapping_add(j.wrapping_mul(h2));
            let index = (hj as usize) % self.m;
            assert(index as int == probe(h, j, self.m));
            let block = index / 64;
            let shift = (index % 64) as u64;
            let ghost before = self.bits@;
            let v = self.bits[block] | (1u64 << shift);
            self.bits.set(block, v);
            assert(self.bits@ == before.update(block as int, v));
            assert forall|i: int| 0 <= i < self.m implies #[trigger] bit_of(self.bits@, i) == (bit_of(old(self).bits@, i)
                || exists|q: u32| q < j + 1 && #[trigger] probe(h, q, self.m) == i) by {
                lemma_set_bit(before[i / 64], (i % 64) as u64, shift);
                assert(bit_of(before, i) == (bit_of(old(self).bits@, i) || exists|q: u32| q < j && #[trigger] probe(h, q, self.m) == i));
                if i / 64 != block {
                    assert(self.bits@[i / 64] == before[i / 64]);
                } else {
                    assert(self.bits@[i / 64] == before[i / 64] | (1u64 << shift));
                }
                if i == index {
                    assert(probe(h, j, self.m) == i);
                } else {
                    if i / 64 == block {
                        assert((i % 64) as u64 != shift);
                    }
                    if exists|q: u32| q < j + 1 && #[trigger] probe(h, q, self.m) == i {
                        let q = choose|q: u32| q < j + 1 && #[trigger] probe(h, q, self.m) == i;
                        assert(q != j);
                    }
                }
            }
            j = j + 1;
        }
        assert forall|i: int| 0 <= i < old(self).size() implies #[trigger] self.bit(i) == (old(self).bit(i)
            || probed(h, old(self).probes(), old(self).size(), i)) by {
            assert(bit_of(self.bits@, i) == (bit_of(old(self).bits@, i) || exists|q: u32| q < j && #[trigger] probe(h, q, self.m) == i));
        }
    }

    /// Whether all probes of the hash `h` are set.
    pub fn contains_hash(&self, h: u64) -> (r: bool)
        requires
            self.wf(),
        ensures
            r == self.holds(h),
    {
        let h1 = (h & 0xffff_ffff) as u32;
        let h2 = (h >> 32u64) as u32;
        let mut j: u32 = 0;
        while j < self.k
            invariant
                self.m > 0,
                self.bits@.len() * 64 >= self.m,
                h1 == (h & 0xffff_ffff) as u32,
                h2 == (h >> 32u64) as u32,
                forall|q: u32| q < j ==> #[trigger] self.bit(probe(h, q, self.size())),
            decreases self.k - j,
        {
            let hj = h1.wrapping_add(j.wrapping_mul(h2));
            let index = (hj as usize) % self.m;
            assert(index as int == probe(h, j, self.m));
            let block = index / 64;
            let shift = (index % 64) as u64;
            proof {
                lemma_test_bit(self.bits@[block as int], shift);
            }
            if self.bits[block] & (1u64 << shift) == 0 {
                assert(!self.bit(probe(h, j, self.size())));
                return false;
            }
            j = j + 1;
        }
        true
    }

    /// Clears every bit.
    pub fn clear_bits(&mut self)
        requires
            old(self).wf(),
        ensures
            final(self).wf(),
            final(self).size() == old(self).size(),
            final(self).probes() == old(self).probes(),
            forall|i: int| 0 <= i < old(self).size() ==> !#[trigger] final(self).bit(i),
    {
        let n = self.bits.len();
        let mut b: usize = 0;
        while b < n
            invariant
                b <= n,
                n == self.bits@.len(),
                self.m == old(self).m,
                self.k == old(self).k,
                self.m > 0,
                self.bits@.len() * 64 >= self.m,
                forall|q: int| 0 <= q < b ==> self.bits@[q] == 0u64,
            decreases n - b,
        {
            self.bits.set(b, 0);
            b = b + 1;
        }
        assert forall|i: int| 0 <= i < self.m implies !#[trigger] self.bit(i) by {
            lemma_zero_bits((i % 64) as u64);
        }
    }
}

/// The 64-bit hash of `item`.
fn hash_of<T: Hash + ?Sized>(item: &T) -> u64 {
    let mut hasher = DefaultHasher::new();
    hash_into(item, &mut hasher);
    hasher.finish()
}

impl<T: Hash + ?Sized> ProbabilisticSet<T> for BloomFilter<T> {
    open spec fn ready(&self) -> bool {
        self.wf()
    }

    /// Sets the probes of the item's hash.
    fn insert(&mut self, item: &T)
        ensures
            final(self).size() == old(self).size(),
            final(self).probes() == old(self).probes(),
            exists|h: u64| #[trigger] final(self).holds_after_insert(*old(self), h),
    {
        let h = hash_of(item);
        self.insert_hash(h);
        assert(self.holds_after_insert(*old(self), h));
    }

    /// Whether all probes of the item's hash are set.
    fn contains(&self, item: &T) -> (r: bool)
        ensures
            exists|h: u64| r == #[trigger] self.holds(h),
    {
        let h = hash_of(item);
        self.contains_hash(h)
    }

    /// Clears every bit.
    fn clear(&mut self)
        ensures
            final(self).size() == old(self).size(),
            final(self).probes() == old(self).probes(),
            forall|i: int| 0 <= i < old(self).size() ==> !#[trigger] final(self).bit(i),
    {
        self.clear_bits();
    }
}

/// No false negatives: once the probes of `h` are set, the filter holds `h`, and setting the
/// probes of any further hash keeps it so.
pub proof fn lemma_no_false_negatives<T: ?Sized>(f: BloomFilter<T>, g: BloomFilter<T>, h: u64, h2: u64)
    requires
        g.size() == f.size(),
        g.probes() == f.probes(),
        f.size() > 0,
        forall|i: int| 0 <= i < f.size() ==> #[trigger] g.bit(i) == (f.bit(i) || probed(h2, f.probes(), f.size(), i)),
    ensures
        f.holds(h) ==> g.holds(h),
        g.holds(h2),
{
    assert forall|j: u32| j < g.probes() implies #[trigger] g.bit(probe(h2, j, g.size())) by {
        let i = probe(h2, j, g.size());
        assert(probed(h2, f.probes(), f.size(), i));
    }
    if f.holds(h) {
        assert forall|j: u32| j < g.probes() implies #[trigger] g.bit(probe(h, j, g.size())) by {
            let i = probe(h, j, g.size());
            assert(f.bit(i));
        }
    }
}

} // verus!
