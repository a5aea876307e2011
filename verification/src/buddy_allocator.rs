//! A binary buddy allocator over offsets `0..total_size`: blocks of `min_block_size << order`
//! bytes are split on allocation and merged with their free buddy on deallocation.

use vstd::prelude::*;

verus! {

/// 2 to the power `n`.
pub open spec fn p2(n: nat) -> nat
    decreases n,
{
    if n == 0 { 1 } else { 2 * p2((n - 1) as nat) }
}

pub proof fn lemma_p2_pos(n: nat)
    ensures
        p2(n) >= 1,
    decreases n,
{
    if n > 0 {
        lemma_p2_pos((n - 1) as nat);
    }
}

pub proof fn lemma_p2_mono(a: nat, b: nat)
    requires
        a <= b,
    ensures
        p2(a) <= p2(b),
    decreases b,
{
    if a < b {
        lemma_p2_mono(a, (b - 1) as nat);
        lemma_p2_pos((b - 1) as nat);
    }
}

pub proof fn lemma_p2_gt(n: nat)
    ensures
        p2(n) > n,
    decreases n,
{
    if n > 0 {
        lemma_p2_gt((n - 1) as nat);
    }
}

pub proof fn lemma_p2_adds(a: nat, b: nat)
    ensures
        p2(a + b) == p2(a) * p2(b),
    decreases a,
{
    if a > 0 {
        lemma_p2_adds((a - 1) as nat, b);
        assert(p2(a + b) == 2 * p2((a - 1 + b) as nat));
        assert(p2(a) == 2 * p2((a - 1) as nat));
        assert(2 * (p2((a - 1) as nat) * p2(b)) == (2 * p2((a - 1) as nat)) * p2(b)) by (nonlinear_arith);
    } else {
        assert(p2(a) == 1);
        assert(a + b == b);
    }
}

/// Size in bytes of a block of the given order.
pub open spec fn block_size(min: int, order: nat) -> int {
    min * p2(order)
}

/// Number of doublings of `bs` needed to reach at least `size`.
pub open spec fn order_from(bs: int, size: int) -> nat
    decreases (if bs > 0 && size > bs { size - bs } else { 0 }),
{
    if bs <= 0 || bs >= size { 0 } else { 1 + order_from(2 * bs, size) }
}

proof fn lemma_order_from(bs: int, size: int)
    requires
        bs > 0,
    ensures
        bs * p2(order_from(bs, size)) >= size,
        order_from(bs, size) > 0 ==> bs * p2((order_from(bs, size) - 1) as nat) < size,
    decreases (if size > bs { size - bs } else { 0 }),
{
    if bs < size {
        lemma_order_from(2 * bs, size);
        let k = order_from(2 * bs, size);
        assert(p2(k + 1) == 2 * p2(k));
        assert(bs * p2(k + 1) == (2 * bs) * p2(k)) by (nonlinear_arith)
            requires p2(k + 1) == 2 * p2(k);
        if k > 0 {
            assert(p2(k) == 2 * p2((k - 1) as nat));
            assert(bs * p2(k) == (2 * bs) * p2((k - 1) as nat)) by (nonlinear_arith)
                requires p2(k) == 2 * p2((k - 1) as nat);
        } else {
            assert(p2(0) == 1);
            assert(bs * p2(0) == bs) by (nonlinear_arith)
                requires p2(0) == 1;
        }
    } else {
        assert(p2(0) == 1);
        assert(bs * p2(0) == bs) by (nonlinear_arith)
            requires p2(0) == 1;
    }
}

/// The buddy of the block at `off` of size `bs` (for offsets aligned to `bs`, this is `off ^ bs`).
pub open spec fn buddy_of(off: int, bs: int) -> int {
    if (off / bs) % 2 == 0 { off + bs } else { off - bs }
}

/// Position of `x` in `s`, or -1.
pub open spec fn upos(s: Seq<usize>, x: usize) -> int
    decreases s.len(),
{
    if s.len() == 0 {
        -1
    } else if s.last() == x {
        s.len() - 1
    } else {
        upos(s.drop_last(), x)
    }
}

proof fn lemma_upos(s: Seq<usize>, x: usize)
    ensures
        -1 <= upos(s, x) < s.len(),
        upos(s, x) >= 0 ==> s[upos(s, x)] == x,
        upos(s, x) < 0 ==> !s.contains(x),
    decreases s.len(),
{
    if s.len() > 0 {
        lemma_upos(s.drop_last(), x);
        if s.last() != x && s.contains(x) {
            let j = choose|j: int| 0 <= j < s.len() && s[j] == x;
            assert(s.drop_last()[j] == x);
        }
    }
}

/// The free lists after coalescing the block at `off` of order `o` with free buddies.
pub open spec fn coalesce(lists: Seq<Seq<usize>>, off: int, o: nat, max: nat, min: int) -> (Seq<Seq<usize>>, int, nat)
    decreases max - o,
{
    if o >= max || o >= lists.len() {
        (lists, off, o)
    } else {
        let bs = block_size(min, o);
        let b = buddy_of(off, bs);
        let i = upos(lists[o as int], b as usize);
        if b >= 0 && i >= 0 {
            coalesce(
                lists.update(o as int, lists[o as int].remove(i)),
                if off < b { off } else { b },
                o + 1,
                max,
                min,
            )
        } else {
            (lists, off, o)
        }
    }
}

/// Index of the first non-empty list at or above order `o`, or -1.
pub open spec fn first_free(lists: Seq<Seq<usize>>, o: int) -> int
    decreases lists.len() - o,
{
    if o < 0 || o >= lists.len() {
        -1
    } else if lists[o].len() > 0 {
        o
    } else {
        first_free(lists, o + 1)
    }
}

/// The free lists after taking `off`, the last block of order `f`, and splitting it down to
/// order `t`: each order in `t..f` gains the upper half split off at that order.
pub open spec fn split_lists(lists: Seq<Seq<usize>>, t: int, f: int, off: int, min: int) -> Seq<Seq<usize>> {
    Seq::new(lists.len(), |o: int|
        if o == f {
            lists[o].drop_last()
        } else if t <= o < f {
            insert_free(lists[o], (off + block_size(min, o as nat)) as usize)
        } else {
            lists[o]
        })
}

pub open spec fn insert_free(s: Seq<usize>, x: usize) -> Seq<usize> {
    if s.contains(x) { s } else { s.push(x) }
}

/// A free block of order `o` at `x` is aligned to its size and lies inside the arena.
pub open spec fn entry_ok(x: int, min: int, o: nat, total: int) -> bool {
    &&& x % block_size(min, o) == 0
    &&& x + block_size(min, o) <= total
}

pub open spec fn list_ok(s: Seq<usize>, min: int, o: nat, total: int) -> bool {
    &&& forall|k: int| 0 <= k < s.len() ==> entry_ok(#[trigger] s[k] as int, min, o, total)
    &&& s.no_duplicates()
}

pub open spec fn lists_ok(lists: Seq<Seq<usize>>, min: int, total: int) -> bool {
    forall|o: int| 0 <= o < lists.len() ==> list_ok(#[trigger] lists[o], min, o as nat, total)
}

proof fn lemma_list_ok_drop_last(s: Seq<usize>, min: int, o: nat, total: int)
    requires
        list_ok(s, min, o, total),
        s.len() > 0,
    ensures
        list_ok(s.drop_last(), min, o, total),
{
    assert forall|k: int| 0 <= k < s.drop_last().len() implies entry_ok(
        #[trigger] s.drop_last()[k] as int,
        min,
        o,
        total,
    ) by {
        assert(s.drop_last()[k] == s[k]);
    }
}

proof fn lemma_list_ok_remove(s: Seq<usize>, i: int, min: int, o: nat, total: int)
    requires
        list_ok(s, min, o, total),
        0 <= i < s.len(),
    ensures
        list_ok(s.remove(i), min, o, total),
{
    let r = s.remove(i);
    assert forall|k: int| 0 <= k < r.len() implies entry_ok(#[trigger] r[k] as int, min, o, total) by {
        if k < i {
            assert(r[k] == s[k]);
        } else {
            assert(r[k] == s[k + 1]);
        }
    }
    assert forall|a: int, b: int| 0 <= a < r.len() && 0 <= b < r.len() && a != b implies r[a]
        != r[b] by {
        let sa = if a < i { a } else { a + 1 };
        let sb = if b < i { b } else { b + 1 };
        assert(r[a] == s[sa] && r[b] == s[sb]);
    }
}

proof fn lemma_list_ok_insert(s: Seq<usize>, x: usize, min: int, o: nat, total: int)
    requires
        list_ok(s, min, o, total),
        entry_ok(x as int, min, o, total),
    ensures
        list_ok(insert_free(s, x), min, o, total),
{
    if !s.contains(x) {
        let r = s.push(x);
        assert forall|k: int| 0 <= k < r.len() implies entry_ok(#[trigger] r[k] as int, min, o, total) by {
            if k < s.len() {
                assert(r[k] == s[k]);
            }
        }
        assert forall|a: int, b: int| 0 <= a < r.len() && 0 <= b < r.len() && a != b implies r[a]
            != r[b] by {
            if a == s.len() && b < s.len() {
                assert(r[b] == s[b]);
            } else if b == s.len() && a < s.len() {
                assert(r[a] == s[a]);
            } else if a < s.len() && b < s.len() {
                assert(r[a] == s[a] && r[b] == s[b]);
            }
        }
    }
}

proof fn lemma_lists_ok_update(lists: Seq<Seq<usize>>, o: int, s: Seq<usize>, min: int, total: int)
    requires
        lists_ok(lists, min, total),
        0 <= o < lists.len(),
        list_ok(s, min, o as nat, total),
    ensures
        lists_ok(lists.update(o, s), min, total),
{
    let l = lists.update(o, s);
    assert forall|j: int| 0 <= j < l.len() implies list_ok(#[trigger] l[j], min, j as nat, total) by {
        if j != o {
            assert(l[j] == lists[j]);
        }
    }
}

proof fn lemma_block_pos(min: int, o: nat)
    requires
        min > 0,
    ensures
        block_size(min, o) >= min,
        block_size(min, o) > o,
        block_size(min, 0) == min,
        block_size(min, (o + 1) as nat) == 2 * block_size(min, o),
{
    lemma_p2_pos(o);
    lemma_p2_gt(o);
    assert(p2(0) == 1);
    assert(min * p2(o) >= p2(o)) by (nonlinear_arith)
        requires
            min > 0,
            p2(o) >= 1,
    ;
    assert(min * p2(o) >= min) by (nonlinear_arith)
        requires
            min > 0,
            p2(o) >= 1,
    ;
    assert(p2((o + 1) as nat) == 2 * p2(o));
    assert(min * p2((o + 1) as nat) == 2 * (min * p2(o))) by (nonlinear_arith)
        requires
            p2((o + 1) as nat) == 2 * p2(o),
    ;
}

/// Block sizes grow with the order, and a larger block is a whole number of smaller ones.
proof fn lemma_block_mono(min: int, o: nat, f: nat)
    requires
        min > 0,
        o <= f,
    ensures
        block_size(min, o) <= block_size(min, f),
        block_size(min, f) == block_size(min, o) * p2((f - o) as nat),
{
    let k = (f - o) as nat;
    lemma_p2_adds(o, k);
    assert(o + k == f);
    lemma_p2_pos(k);
    lemma_p2_pos(o);
    assert(min * p2(f) == (min * p2(o)) * p2(k)) by (nonlinear_arith)
        requires
            p2(f) == p2(o) * p2(k),
    ;
    assert((min * p2(o)) * p2(k) >= min * p2(o)) by (nonlinear_arith)
        requires
            min > 0,
            p2(o) >= 1,
            p2(k) >= 1,
    ;
}

/// An offset aligned to a block is aligned to every smaller block.
proof fn lemma_align_down(x: int, min: int, o: nat, f: nat)
    requires
        min > 0,
        o <= f,
        x % block_size(min, f) == 0,
    ensures
        x % block_size(min, o) == 0,
{
    let a = block_size(min, o);
    let b = block_size(min, f);
    lemma_block_mono(min, o, f);
    lemma_block_pos(min, o);
    let k = p2((f - o) as nat);
    vstd::arithmetic::div_mod::lemma_fundamental_div_mod(x, b);
    assert(x == (x / b) * b);
    assert(x == ((x / b) * k) * a) by (nonlinear_arith)
        requires
            x == (x / b) * b,
            b == a * k,
    ;
    vstd::arithmetic::div_mod::lemma_mod_multiples_basic((x / b) * k, a);
}

/// Merging a block with its buddy gives an aligned block of twice the size inside the arena.
proof fn lemma_buddy(off: int, bs: int, k: int)
    requires
        bs > 0,
        off >= 0,
        off % bs == 0,
        off + bs <= bs * k,
        k % 2 == 0,
    ensures
        buddy_of(off, bs) >= 0,
        buddy_of(off, bs) % bs == 0,
        buddy_of(off, bs) + bs <= bs * k,
        (if off < buddy_of(off, bs) { off } else { buddy_of(off, bs) }) % (2 * bs) == 0,
        (if off < buddy_of(off, bs) { off } else { buddy_of(off, bs) }) + 2 * bs <= bs * k,
{
    let q = off / bs;
    vstd::arithmetic::div_mod::lemma_fundamental_div_mod(off, bs);
    assert(off == q * bs);
    assert(q >= 0) by (nonlinear_arith)
        requires
            off == q * bs,
            off >= 0,
            bs > 0,
    ;
    assert((q + 1) <= k) by (nonlinear_arith)
        requires
            off == q * bs,
            off + bs <= bs * k,
            bs > 0,
    ;
    let r = q / 2;
    if q % 2 == 0 {
        assert(q == 2 * r);
        assert(q + 2 <= k);
        assert(buddy_of(off, bs) == (q + 1) * bs) by (nonlinear_arith)
            requires
                off == q * bs,
                buddy_of(off, bs) == off + bs,
        ;
        assert((q + 1) * bs + bs <= bs * k) by (nonlinear_arith)
            requires
                q + 2 <= k,
                bs > 0,
        ;
        assert(((q + 1) * bs) % bs == 0) by {
            vstd::arithmetic::div_mod::lemma_mod_multiples_basic(q + 1, bs);
        }
        assert(off == r * (2 * bs)) by (nonlinear_arith)
            requires
                off == q * bs,
                q == 2 * r,
        ;
        vstd::arithmetic::div_mod::lemma_mod_multiples_basic(r, 2 * bs);
        assert(off + 2 * bs <= bs * k) by (nonlinear_arith)
            requires
                off == q * bs,
                q + 2 <= k,
                bs > 0,
        ;
    } else {
        assert(q == 2 * r + 1);
        assert(buddy_of(off, bs) == (2 * r) * bs) by (nonlinear_arith)
            requires
                off == q * bs,
                q == 2 * r + 1,
                buddy_of(off, bs) == off - bs,
        ;
        assert(buddy_of(off, bs) == r * (2 * bs)) by (nonlinear_arith)
            requires
                buddy_of(off, bs) == (2 * r) * bs,
        ;
        assert(r >= 0);
        assert(r * (2 * bs) >= 0) by (nonlinear_arith)
            requires
                r >= 0,
                bs > 0,
        ;
        vstd::arithmetic::div_mod::lemma_mod_multiples_basic(r, 2 * bs);
        vstd::arithmetic::div_mod::lemma_mod_multiples_basic(2 * r, bs);
    }
}

pub trait Allocator: Sized {
    spec fn ready(&self) -> bool;

    spec fn can_free(&self, offset: usize, size: usize) -> bool;

    /// Reserves a block of at least `size` bytes and returns its offset.
    fn allocate(&mut self, size: usize) -> (r: Option<usize>)
        requires
            old(self).ready(),
        ensures
            final(self).ready(),
    ;

    /// Returns the block at `offset` of `size` bytes to the allocator.
    fn deallocate(&mut self, offset: usize, size: usize)
        requires
            old(self).ready(),
            old(self).can_free(offset, size),
        ensures
            final(self).ready(),
    ;
}

pub struct BuddyAllocator {
    pub total_size: usize,
    pub min_block_size: usize,
    pub max_order: usize,
    pub free_lists: Vec<Vec<usize>>,
}

impl BuddyAllocator {
    pub open spec fn lists(&self) -> Seq<Seq<usize>> {
        self.free_lists@.map_values(|v: Vec<usize>| v@)
    }

    pub open spec fn min(&self) -> int {
        self.min_block_size as int
    }

    /// The sizes are consistent and every free block is aligned to its size and inside the arena.
    pub open spec fn wf(&self) -> bool {
        &&& self.min_block_size > 0
        &&& self.total_size == block_size(self.min(), self.max_order as nat)
        &&& self.free_lists@.len() == self.max_order + 1
        &&& lists_ok(self.lists(), self.min(), self.total_size as int)
    }
}

/// Position of `x` in `v`, searching from the end.
fn position(v: &Vec<usize>, x: usize) -> (r: Option<usize>)
    ensures
        match r {
            Some(i) => i == upos(v@, x),
            None => upos(v@, x) < 0,
        },
{
    let mut i = v.len();
    assert(v@.subrange(0, i as int) =~= v@);
    while i > 0
        invariant
            i <= v.len(),
            upos(v@, x) == upos(v@.subrange(0, i as int), x),
        decreases i,
    {
        let ghost s = v@.subrange(0, i as int);
        assert(s.drop_last() =~= v@.subrange(0, i - 1));
        i = i - 1;
        if v[i] == x {
            return Some(i);
        }
    }
    assert(v@.subrange(0, 0).len() == 0);
    None
}

/// Adds `x` to the free list `v` unless it is already there.
fn insert_free_exec(v: &mut Vec<usize>, x: usize)
    ensures
        final(v)@ == insert_free(old(v)@, x),
{
    proof {
        lemma_upos(v@, x);
    }
    match position(v, x) {
        Some(_) => {},
        None => {
            v.push(x);
        },
    }
}

impl BuddyAllocator {
    /// An allocator managing `total_size` bytes in blocks of at least `min_block_size`;
    /// both must be powers of two, with `min_block_size <= total_size`.
    pub fn new(total_size: usize, min_block_size: usize) -> (a: Self)
        requires
            exists|e: nat| p2(e) == total_size,
            exists|e: nat| p2(e) == min_block_size,
            min_block_size <= total_size,
        ensures
            a.wf(),
            a.total_size == total_size,
            a.min_block_size == min_block_size,
            block_size(min_block_size as int, a.max_order as nat) == total_size,
            forall|o: int| 0 <= o < a.max_order ==> #[trigger] a.lists()[o].len() == 0,
            a.lists()[a.max_order as int] == seq![0usize],
    {
        let ghost e1 = choose|e: nat| p2(e) == total_size;
        let ghost e2 = choose|e: nat| p2(e) == min_block_size;
        proof {
            lemma_p2_pos(e2);
            if e2 > e1 {
                lemma_p2_mono(e1 + 1, e2);
                assert(p2(e1 + 1) == 2 * p2(e1));
            }
            lemma_p2_adds(e2, (e1 - e2) as nat);
            assert(e2 + (e1 - e2) == e1);
            assert(total_size == min_block_size * p2((e1 - e2) as nat)) by (nonlinear_arith)
                requires
                    p2(e1) == p2(e2) * p2((e1 - e2) as nat),
                    p2(e1) == total_size,
                    p2(e2) == min_block_size,
            ;
        }
        proof {
            lemma_block_pos(min_block_size as int, 0);
        }
        let mut bs = min_block_size;
        let mut order: usize = 0;
        while bs < total_size
            invariant
                min_block_size > 0,
                e2 <= e1,
                total_size == block_size(min_block_size as int, (e1 - e2) as nat),
                bs == block_size(min_block_size as int, order as nat),
                order <= e1 - e2,
                order < bs,
            decreases total_size - bs,
        {
            proof {
                lemma_block_pos(min_block_size as int, order as nat);
                if order == e1 - e2 {
                    assert(false);
                }
                lemma_block_mono(min_block_size as int, (order + 1) as nat, (e1 - e2) as nat);
            }
            bs = bs * 2;
            order = order + 1;
        }
        proof {
            lemma_block_mono(min_block_size as int, order as nat, (e1 - e2) as nat);
        }
        let mut free_lists: Vec<Vec<usize>> = Vec::new();
        let mut i: usize = 0;
        while i < order
            invariant
                i <= order,
                free_lists@.len() == i,
                forall|j: int| 0 <= j < i ==> (#[trigger] free_lists@[j])@.len() == 0,
            decreases order - i,
        {
            free_lists.push(Vec::new());
            i = i + 1;
        }
        let mut top: Vec<usize> = Vec::new();
        top.push(0);
        free_lists.push(top);
        let a = BuddyAllocator { total_size, min_block_size, max_order: order, free_lists };
        proof {
            assert(a.lists()[order as int] =~= seq![0usize]);
            assert forall|o: int| 0 <= o < a.lists().len() implies list_ok(
                #[trigger] a.lists()[o],
                a.min(),
                o as nat,
                a.total_size as int,
            ) by {
                if o == order {
                    let s = a.lists()[o];
                    assert(s.len() == 1 && s[0] == 0);
                    lemma_block_pos(min_block_size as int, o as nat);
                    assert(0int % block_size(min_block_size as int, o as nat) == 0);
                    assert forall|k: int| 0 <= k < s.len() implies entry_ok(
                        #[trigger] s[k] as int,
                        a.min(),
                        o as nat,
                        a.total_size as int,
                    ) by {
                        assert(k == 0);
                    }
                } else {
                    assert(a.lists()[o].len() == 0);
                }
            }
        }
        a
    }

    /// The order of the smallest block that holds `size` bytes.
    fn size_to_order(&self, size: usize) -> (o: usize)
        requires
            self.wf(),
            size <= self.total_size,
        ensures
            o == order_from(self.min(), size as int),
            o <= self.max_order,
    {
        proof {
            lemma_block_pos(self.min(), 0);
        }
        let mut bs = self.min_block_size;
        let mut o: usize = 0;
        while bs < size
            invariant
                self.wf(),
                size <= self.total_size,
                bs == block_size(self.min(), o as nat),
                o <= self.max_order,
                order_from(self.min(), size as int) == o + order_from(bs as int, size as int),
            decreases self.max_order - o,
        {
            proof {
                lemma_block_pos(self.min(), o as nat);
                if o == self.max_order {
                    assert(false);
                }
                lemma_block_mono(self.min(), (o + 1) as nat, self.max_order as nat);
            }
            bs = bs * 2;
            o = o + 1;
        }
        o
    }

    /// Size in bytes of a block of the given order.
    fn order_to_size(&self, order: usize) -> (s: usize)
        requires
            self.wf(),
            order <= self.max_order,
        ensures
            s == block_size(self.min(), order as nat),
    {
        proof {
            lemma_block_pos(self.min(), 0);
        }
        let mut s = self.min_block_size;
        let mut i: usize = 0;
        while i < order
            invariant
                self.wf(),
                i <= order <= self.max_order,
                s == block_size(self.min(), i as nat),
            decreases order - i,
        {
            proof {
                lemma_block_pos(self.min(), i as nat);
                lemma_block_mono(self.min(), (i + 1) as nat, self.max_order as nat);
            }
            s = s * 2;
            i = i + 1;
        }
        s
    }
}

proof fn lemma_split_ok(l0: Seq<Seq<usize>>, t: int, f: int, off: int, min: int, total: int)
    requires
        lists_ok(l0, min, total),
        min > 0,
        total <= usize::MAX,
        0 <= t <= f < l0.len(),
        l0[f].len() > 0,
        off == l0[f].last(),
    ensures
        lists_ok(split_lists(l0, t, f, off, min), min, total),
        entry_ok(off, min, t as nat, total),
{
    let l = split_lists(l0, t, f, off, min);
    assert(list_ok(l0[f], min, f as nat, total));
    assert(entry_ok(l0[f][l0[f].len() - 1] as int, min, f as nat, total));
    lemma_block_mono(min, t as nat, f as nat);
    lemma_align_down(off, min, t as nat, f as nat);
    assert forall|o: int| 0 <= o < l.len() implies list_ok(#[trigger] l[o], min, o as nat, total) by {
        if o == f {
            lemma_list_ok_drop_last(l0[f], min, f as nat, total);
        } else if t <= o < f {
            let a = block_size(min, o as nat);
            lemma_block_pos(min, o as nat);
            lemma_block_mono(min, (o + 1) as nat, f as nat);
            lemma_align_down(off, min, o as nat, f as nat);
            vstd::arithmetic::div_mod::lemma_fundamental_div_mod(off, a);
            assert(off + a == (off / a + 1) * a) by (nonlinear_arith)
                requires
                    off == a * (off / a) + off % a,
                    off % a == 0,
            ;
            vstd::arithmetic::div_mod::lemma_mod_multiples_basic(off / a + 1, a);
            lemma_list_ok_insert(l0[o], (off + a) as usize, min, o as nat, total);
        }
    }
}

impl Allocator for BuddyAllocator {
    open spec fn ready(&self) -> bool {
        self.wf()
    }

    /// The block was handed out for `size` bytes: it is aligned to and inside the arena.
    open spec fn can_free(&self, offset: usize, size: usize) -> bool {
        &&& size <= self.total_size
        &&& entry_ok(
            offset as int,
            self.min(),
            order_from(self.min(), size as int),
            self.total_size as int,
        )
    }

    fn allocate(&mut self, size: usize) -> (r: Option<usize>)
        ensures
            final(self).total_size == old(self).total_size,
            final(self).min_block_size == old(self).min_block_size,
            final(self).max_order == old(self).max_order,
            ({
                let t = order_from(old(self).min(), size as int);
                let f = first_free(old(self).lists(), t as int);
                if size > old(self).total_size || f < 0 {
                    &&& r is None
                    &&& final(self).lists() == old(self).lists()
                } else {
                    let off = old(self).lists()[f].last();
                    &&& r == Some(off)
                    &&& final(self).lists() == split_lists(
                        old(self).lists(),
                        t as int,
                        f,
                        off as int,
                        old(self).min(),
                    )
                }
            }),
            r matches Some(off) ==> {
                let t = order_from(old(self).min(), size as int);
                &&& entry_ok(off as int, old(self).min(), t, old(self).total_size as int)
                &&& block_size(old(self).min(), t) >= size
            },
    {
        if size > self.total_size {
            return None;
        }
        let t = self.size_to_order(size);
        if t > self.max_order {
            return None;
        }
        let ghost l0 = self.lists();
        let ghost min = self.min();
        let ghost total = self.total_size as int;
        proof {
            lemma_block_pos(min, self.max_order as nat);
        }
        let mut f = t;
        while f <= self.max_order && self.free_lists[f].len() == 0
            invariant
                self.wf(),
                self.max_order < usize::MAX,
                self.lists() == l0,
                t <= f <= self.max_order + 1,
                first_free(l0, t as int) == first_free(l0, f as int),
            decreases self.max_order + 1 - f,
        {
            assert(l0[f as int].len() == 0);
            f = f + 1;
        }
        if f > self.max_order {
            return None;
        }
        assert(l0[f as int].len() > 0);
        assert(first_free(l0, f as int) == f);
        let off = self.free_lists[f].pop().unwrap();
        proof {
            lemma_split_ok(l0, t as int, f as int, off as int, min, total);
            lemma_order_from(min, size as int);
            assert(self.lists() =~= split_lists(l0, f as int, f as int, off as int, min));
            lemma_block_mono(min, f as nat, self.max_order as nat);
        }
        let mut o = f;
        let mut bs = self.order_to_size(f);
        while o > t
            invariant
                t <= o <= f <= self.max_order,
                self.max_order == old(self).max_order,
                self.total_size == block_size(min, self.max_order as nat),
                l0.len() == self.max_order + 1,
                lists_ok(split_lists(l0, t as int, f as int, off as int, min), min, total),
                self.min_block_size == min,
                self.total_size == total,
                self.min_block_size > 0,
                self.free_lists@.len() == l0.len(),
                bs == block_size(min, o as nat),
                off + block_size(min, f as nat) <= total,
                total <= usize::MAX,
                self.lists() == split_lists(l0, o as int, f as int, off as int, min),
            decreases o,
        {
            o = o - 1;
            proof {
                lemma_block_pos(min, o as nat);
                lemma_block_mono(min, (o + 1) as nat, f as nat);
            }
            bs = bs / 2;
            let ghost lists = self.lists();
            insert_free_exec(&mut self.free_lists[o], off + bs);
            assert(lists[o as int] == l0[o as int]);
            assert(self.lists() =~= lists.update(o as int, insert_free(lists[o as int], (off + bs) as usize)));
            assert(self.lists() =~= split_lists(l0, o as int, f as int, off as int, min));
        }
        Some(off)
    }

    fn deallocate(&mut self, offset: usize, size: usize)
        ensures
            final(self).total_size == old(self).total_size,
            final(self).min_block_size == old(self).min_block_size,
            final(self).max_order == old(self).max_order,
            ({
                let t = order_from(old(self).min(), size as int);
                let c = coalesce(
                    old(self).lists(),
                    offset as int,
                    t,
                    old(self).max_order as nat,
                    old(self).min(),
                );
                final(self).lists() == c.0.update(c.2 as int, insert_free(c.0[c.2 as int], c.1 as usize))
            }),
    {
        let ghost l0 = self.lists();
        let ghost min = self.min();
        let ghost total = self.total_size as int;
        let ghost max = self.max_order as nat;
        let ghost t = order_from(min, size as int);
        let mut order = self.size_to_order(size);
        let mut off = offset;
        let mut bs = self.order_to_size(order);
        while order < self.max_order
            invariant
                self.min_block_size == min,
                self.total_size == total,
                self.max_order == max,
                self.min_block_size > 0,
                self.free_lists@.len() == max + 1,
                total == block_size(min, max),
                total <= usize::MAX,
                order <= max,
                bs == block_size(min, order as nat),
                entry_ok(off as int, min, order as nat, total),
                lists_ok(self.lists(), min, total),
                coalesce(l0, offset as int, t, max, min) == coalesce(
                    self.lists(),
                    off as int,
                    order as nat,
                    max,
                    min,
                ),
            ensures
                coalesce(self.lists(), off as int, order as nat, max, min) == (
                    self.lists(),
                    off as int,
                    order as nat,
                ),
            decreases max - order,
        {
            proof {
                lemma_block_pos(min, order as nat);
                lemma_block_mono(min, order as nat, max);
                let k = p2((max - order) as nat);
                assert(k == 2 * p2((max - order - 1) as nat));
                lemma_buddy(off as int, bs as int, k as int);
            }
            let buddy = if (off / bs) % 2 == 0 {
                off + bs
            } else {
                off - bs
            };
            let ghost lists = self.lists();
            proof {
                lemma_upos(lists[order as int], buddy);
            }
            match position(&self.free_lists[order], buddy) {
                Some(i) => {
                    self.free_lists[order].remove(i);
                    proof {
                        assert(self.lists() =~= lists.update(
                            order as int,
                            lists[order as int].remove(i as int),
                        ));
                        lemma_list_ok_remove(lists[order as int], i as int, min, order as nat, total);
                        lemma_lists_ok_update(
                            lists,
                            order as int,
                            lists[order as int].remove(i as int),
                            min,
                            total,
                        );
                        lemma_block_mono(min, (order + 1) as nat, max);
                    }
                    off = if off < buddy {
                        off
                    } else {
                        buddy
                    };
                    order = order + 1;
                    bs = bs * 2;
                },
                None => {
                    break ;
                },
            }
        }
        let ghost lists = self.lists();
        insert_free_exec(&mut self.free_lists[order], off);
        proof {
            assert(self.lists() =~= lists.update(order as int, insert_free(lists[order as int], off)));
            lemma_list_ok_insert(lists[order as int], off, min, order as nat, total);
            lemma_lists_ok_update(lists, order as int, insert_free(lists[order as int], off), min, total);
        }
    }
}

} // verus!
