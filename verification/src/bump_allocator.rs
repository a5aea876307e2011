//! Bump allocation over an address range: each allocation takes the next suitably aligned
//! stretch after the previous one, and a reset gives the whole range back at once. This is
//! the arithmetic of the arena; the memory itself is the caller's.

use vstd::prelude::*;

verus! {

/// The first address at or after `addr` that is a multiple of `align`.
pub open spec fn align_up(addr: int, align: int) -> int {
    addr + (align - addr % align) % align
}

/// An arena over the addresses `start .. end`, with `next` the first free one.
pub struct BumpArena {
    start: usize,
    end: usize,
    next: usize,
}

impl BumpArena {
    pub closed spec fn start(&self) -> nat {
        self.start as nat
    }

    pub closed spec fn end(&self) -> nat {
        self.end as nat
    }

    pub closed spec fn next(&self) -> nat {
        self.next as nat
    }

    pub closed spec fn wf(&self) -> bool {
        self.start <= self.next <= self.end
    }

    /// An arena of `capacity` bytes starting at address `start`.
    pub fn new(start: usize, capacity: usize) -> (a: Self)
        requires
            capacity > 0,
            start + capacity <= usize::MAX,
        ensures
            a.wf(),
            a.start() == start,
            a.end() == start + capacity,
            a.next() == start,
    {
        BumpArena { start, end: start + capacity, next: start }
    }

    /// Places `size` bytes aligned to `align`: the first multiple of `align` at or after the
    /// first free address, if the stretch ends within the arena (`None` means out of memory).
    pub fn reserve(&mut self, size: usize, align: usize) -> (r: Option<usize>)
        requires
            old(self).wf(),
            align > 0,
        ensures
            final(self).wf(),
            final(self).start() == old(self).start(),
            final(self).end() == old(self).end(),
            r is Some <==> align_up(old(self).next() as int, align as int) + size <= old(self).end(),
            r matches Some(p) ==> p == align_up(old(self).next() as int, align as int) && p % align == 0 && p >= old(
                self,
            ).next() && p + size <= old(self).end() && final(self).next() == p + size,
            r is None ==> final(self).next() == old(self).next(),
    {
        let align_offset = (align - self.next % align) % align;
        proof {
            lemma_align_up(self.next as int, align as int);
        }
        if align_offset > self.end - self.next {
            return None;
        }
        let alloc_start = self.next + align_offset;
        if size > self.end - alloc_start {
            return None;
        }
        let alloc_end = alloc_start + size;
        self.next = alloc_end;
        Some(alloc_start)
    }

    /// Makes the whole arena free again.
    pub fn reset(&mut self)
        requires
            old(self).wf(),
        ensures
            final(self).wf(),
            final(self).start() == old(self).start(),
            final(self).end() == old(self).end(),
            final(self).next() == old(self).start(),
    {
        self.next = self.start;
    }

    /// The size of the arena in bytes.
    pub fn capacity(&self) -> (n: usize)
        requires
            self.wf(),
        ensures
            n == self.end() - self.start(),
    {
        self.end - self.start
    }

    /// The bytes taken so far, alignment gaps included.
    pub fn used(&self) -> (n: usize)
        requires
            self.wf(),
        ensures
            n == self.next() - self.start(),
    {
        self.next - self.start
    }
}

proof fn lemma_align_up(n: int, a: int)
    requires
        a > 0,
        n >= 0,
    ensures
        align_up(n, a) % a == 0,
        n <= align_up(n, a) < n + a,
{
    let r = n % a;
    vstd::arithmetic::div_mod::lemma_fundamental_div_mod(n, a);
    if r == 0 {
        assert((a - r) % a == 0) by {
            vstd::arithmetic::div_mod::lemma_mod_self_0(a);
        }
    } else {
        assert((a - r) % a == a - r) by {
            vstd::arithmetic::div_mod::lemma_small_mod((a - r) as nat, a as nat);
        }
        assert(n + (a - r) == a * (n / a) + a);
        assert((a * (n / a) + a) % a == 0) by {
            vstd::arithmetic::div_mod::lemma_mod_multiples_basic(n / a + 1, a);
            vstd::arithmetic::mul::lemma_mul_is_distributive_add(a, n / a, 1);
        }
    }
}

/// Two allocations in a row do not overlap: the second starts where the first ended or later.
pub proof fn lemma_allocations_disjoint(next: int, p1: int, s1: int, p2: int, align2: int)
    requires
        align2 > 0,
        p1 >= next,
        p2 == align_up(p1 + s1, align2),
        s1 >= 0,
    ensures
        p2 >= p1 + s1,
{
    assert((align2 - (p1 + s1) % align2) % align2 >= 0) by (nonlinear_arith)
        requires
            align2 > 0,
    ;
}

} // verus!
