//! A small DEFLATE-style compressor: a greedy LZ77 pass over a sliding window, one Huffman
//! code for literals, the match marker and the end marker, and a bit-packed stream that
//! carries the code tree in front of the data.

use vstd::prelude::*;

verus! {

/// `2^n`.
pub open spec fn two_pow(n: nat) -> nat
    decreases n,
{
    if n == 0 {
        1
    } else {
        2 * two_pow((n - 1) as nat)
    }
}

/// The low `n` bits of `x`, least significant first.
pub open spec fn bits_of(x: nat, n: nat) -> Seq<bool>
    decreases n,
{
    if n == 0 {
        seq![]
    } else {
        seq![x % 2 == 1] + bits_of(x / 2, (n - 1) as nat)
    }
}

/// The number whose bits, least significant first, are `s`.
pub open spec fn val_bits(s: Seq<bool>) -> nat
    decreases s.len(),
{
    if s.len() == 0 {
        0
    } else {
        (if s[0] {
            1nat
        } else {
            0nat
        }) + 2 * val_bits(s.drop_first())
    }
}

/// The bits of a byte string: eight per byte, least significant first.
pub open spec fn bytes_bits(b: Seq<u8>) -> Seq<bool>
    decreases b.len(),
{
    if b.len() == 0 {
        seq![]
    } else {
        bytes_bits(b.drop_last()) + bits_of(b.last() as nat, 8)
    }
}

proof fn lemma_bits_len(x: nat, n: nat)
    ensures
        bits_of(x, n).len() == n,
    decreases n,
{
    if n > 0 {
        lemma_bits_len(x / 2, (n - 1) as nat);
    }
}

proof fn lemma_two_pow_pos(n: nat)
    ensures
        two_pow(n) >= 1,
    decreases n,
{
    if n > 0 {
        lemma_two_pow_pos((n - 1) as nat);
    }
}

/// Setting bit `k` of a number below `2^k` appends that bit.
#[verifier::spinoff_prover]
#[verifier::rlimit(40)]
proof fn lemma_bits_push(acc: nat, k: nat, b: bool)
    requires
        acc < two_pow(k),
    ensures
        bits_of(acc + (if b {
            two_pow(k)
        } else {
            0
        }), k + 1) == bits_of(acc, k).push(b),
    decreases k,
{
    let y = acc + (if b {
        two_pow(k)
    } else {
        0
    });
    if k == 0 {
        assert(acc == 0);
        assert(bits_of(y, 1) =~= seq![y % 2 == 1] + bits_of(y / 2, 0));
        assert(bits_of(acc, 0).push(b) =~= seq![b]);
    } else {
        lemma_two_pow_pos((k - 1) as nat);
        let t = two_pow((k - 1) as nat);
        assert(two_pow(k) == 2 * t);
        assert(acc / 2 < t);
        let z = acc / 2 + (if b {
            t
        } else {
            0
        });
        assert(y % 2 == acc % 2 && y / 2 == z) by {
            if b {
                assert(y == acc + 2 * t);
            }
        }
        lemma_bits_push(acc / 2, (k - 1) as nat, b);
        assert(bits_of(y, k + 1) =~= seq![y % 2 == 1] + bits_of(z, k));
        assert(bits_of(acc, k) =~= seq![acc % 2 == 1] + bits_of(acc / 2, (k - 1) as nat));
        assert(bits_of(acc, k).push(b) =~= seq![acc % 2 == 1] + bits_of(acc / 2, (k - 1) as nat).push(b));
    }
}

/// A number below `2^k` has only zeros above bit `k`.
proof fn lemma_bits_pad(x: nat, k: nat, m: nat)
    requires
        x < two_pow(k),
    ensures
        bits_of(x, k + m) == bits_of(x, k) + bits_of(0, m),
    decreases k,
{
    if k == 0 {
        assert(x == 0);
        assert(bits_of(x, 0) + bits_of(0, m) =~= bits_of(0, m));
    } else {
        lemma_bits_pad(x / 2, (k - 1) as nat, m);
        assert(bits_of(x, k + m) =~= seq![x % 2 == 1] + bits_of(x / 2, (k - 1 + m) as nat));
        assert(bits_of(x, k) =~= seq![x % 2 == 1] + bits_of(x / 2, (k - 1) as nat));
    }
}

/// Reading back the bits of `x` gives `x`, when it fits.
pub proof fn lemma_val_bits(x: nat, n: nat)
    requires
        x < two_pow(n),
    ensures
        val_bits(bits_of(x, n)) == x,
    decreases n,
{
    if n == 0 {
    } else {
        lemma_bits_len(x / 2, (n - 1) as nat);
        lemma_val_bits(x / 2, (n - 1) as nat);
        assert((seq![x % 2 == 1] + bits_of(x / 2, (n - 1) as nat)).drop_first() =~= bits_of(x / 2, (n - 1) as nat));
    }
}

/// Appending a bit adds its place value.
proof fn lemma_val_push(s: Seq<bool>, b: bool)
    ensures
        val_bits(s.push(b)) == val_bits(s) + (if b {
            two_pow(s.len())
        } else {
            0
        }),
    decreases s.len(),
{
    if s.len() > 0 {
        assert(two_pow(s.len() as nat) == 2 * two_pow((s.len() - 1) as nat));
        lemma_val_push(s.drop_first(), b);
        assert(s.push(b).drop_first() =~= s.drop_first().push(b));
        assert(s.push(b)[0] == s[0]);
        assert(val_bits(s.push(b)) == (if s[0] { 1nat } else { 0nat }) + 2 * val_bits(s.drop_first().push(b)));
    } else {
        assert(s.push(b).drop_first() =~= Seq::<bool>::empty());
        assert(val_bits(s.push(b)) == (if b { 1nat } else { 0nat }) + 2 * val_bits(Seq::<bool>::empty()));
    }
}

proof fn lemma_val_bound(s: Seq<bool>)
    ensures
        val_bits(s) < two_pow(s.len()),
    decreases s.len(),
{
    if s.len() > 0 {
        lemma_val_bound(s.drop_first());
    }
}

proof fn lemma_bytes_bits_len(b: Seq<u8>)
    ensures
        bytes_bits(b).len() == 8 * b.len(),
    decreases b.len(),
{
    if b.len() > 0 {
        lemma_bytes_bits_len(b.drop_last());
        lemma_bits_len(b.last() as nat, 8);
    }
}

/// The bits of byte `i` stand at `8 * i`.
proof fn lemma_bytes_bits_at(b: Seq<u8>, i: int)
    requires
        0 <= i < b.len(),
    ensures
        bytes_bits(b).subrange(8 * i, 8 * i + 8) == bits_of(b[i] as nat, 8),
    decreases b.len(),
{
    lemma_bytes_bits_len(b.drop_last());
    lemma_bits_len(b.last() as nat, 8);
    if i < b.len() - 1 {
        lemma_bytes_bits_at(b.drop_last(), i);
        assert(bytes_bits(b).subrange(8 * i, 8 * i + 8) =~= bytes_bits(b.drop_last()).subrange(8 * i, 8 * i + 8));
    } else {
        assert(bytes_bits(b).subrange(8 * i, 8 * i + 8) =~= bits_of(b.last() as nat, 8));
    }
}

/// `2^k` for `k < 8`.
fn place(k: u8) -> (r: u64)
    requires
        k < 8,
    ensures
        r == two_pow(k as nat),
        r <= 128,
{
    proof {
        reveal_with_fuel(two_pow, 9);
    }
    match k {
        0 => 1,
        1 => 2,
        2 => 4,
        3 => 8,
        4 => 16,
        5 => 32,
        6 => 64,
        _ => 128,
    }
}

/// Packs bits into bytes, least significant bit first.
pub struct BitWriter {
    bytes: Vec<u8>,
    accumulator: u64,
    bits_in_acc: u8,
}

impl BitWriter {
    /// The bits written so far.
    pub closed spec fn view(&self) -> Seq<bool> {
        bytes_bits(self.bytes@) + bits_of(self.accumulator as nat, self.bits_in_acc as nat)
    }

    pub closed spec fn wf(&self) -> bool {
        self.bits_in_acc < 8 && self.accumulator < two_pow(self.bits_in_acc as nat)
    }

    /// The zero bits that fill the last byte.
    pub closed spec fn padding(&self) -> nat {
        if self.bits_in_acc > 0 {
            (8 - self.bits_in_acc) as nat
        } else {
            0
        }
    }

    pub fn new() -> (w: Self)
        ensures
            w.wf(),
            w.view() == Seq::<bool>::empty(),
    {
        let w = BitWriter { bytes: Vec::new(), accumulator: 0, bits_in_acc: 0 };
        assert(w.view() =~= Seq::<bool>::empty());
        w
    }

    fn push_bit(&mut self, b: bool)
        requires
            old(self).wf(),
        ensures
            final(self).wf(),
            final(self).view() == old(self).view().push(b),
    {
        let ghost acc0 = self.accumulator as nat;
        let ghost k0 = self.bits_in_acc as nat;
        proof {
            lemma_two_pow_mono(k0, 7);
            reveal_with_fuel(two_pow, 8);
        }
        if b {
            self.accumulator = self.accumulator + place(self.bits_in_acc);
        }
        self.bits_in_acc = self.bits_in_acc + 1;
        proof {
            lemma_bits_push(acc0, k0, b);
            assert(two_pow(k0 + 1) == 2 * two_pow(k0));
            assert(self.accumulator == acc0 + (if b {
                two_pow(k0)
            } else {
                0
            }));
        }
        if self.bits_in_acc == 8 {
            proof {
                lemma_two_pow_8();
            }
            let byte = self.accumulator as u8;
            let ghost old_bytes = self.bytes@;
            self.bytes.push(byte);
            self.accumulator = 0;
            self.bits_in_acc = 0;
            proof {
                assert(self.bytes@.drop_last() =~= old_bytes);
                assert(bits_of(0, 0) =~= Seq::<bool>::empty());
                assert(self.view() =~= bytes_bits(old_bytes) + bits_of(acc0 + (if b {
                    two_pow(k0)
                } else {
                    0
                }), 8));
            }
        }
        proof {
            assert(self.view() =~= old(self).view().push(b));
        }
    }

    /// Writes the low `num_bits` bits of `bits`, least significant first; up to 56 at a time.
    pub fn write_bits(&mut self, bits: u64, num_bits: u8)
        requires
            old(self).wf(),
            num_bits <= 56,
        ensures
            final(self).wf(),
            final(self).view() == old(self).view() + bits_of(bits as nat, num_bits as nat),
    {
        let mut v = bits;
        let mut j: u8 = 0;
        let ghost mut done: Seq<bool> = seq![];
        while j < num_bits
            invariant
                self.wf(),
                j <= num_bits,
                bits_of(bits as nat, num_bits as nat) == done + bits_of(v as nat, (num_bits - j) as nat),
                self.view() == old(self).view() + done,
            decreases num_bits - j,
        {
            let b = v % 2 == 1;
            proof {
                assert(bits_of(v as nat, (num_bits - j) as nat) =~= seq![b] + bits_of((v / 2) as nat, (num_bits - j - 1) as nat));
                assert(done + (seq![b] + bits_of((v / 2) as nat, (num_bits - j - 1) as nat)) =~= done.push(b) + bits_of((v / 2) as nat, (num_bits - j - 1) as nat));
                assert(old(self).view() + done.push(b) =~= (old(self).view() + done).push(b));
                done = done.push(b);
            }
            self.push_bit(b);
            v = v / 2;
            j = j + 1;
        }
        proof {
            assert(bits_of(v as nat, 0) =~= Seq::<bool>::empty());
            assert(done + Seq::<bool>::empty() =~= done);
        }
    }

    /// The bytes written, the last padded with zero bits.
    pub fn flush(self) -> (out: Vec<u8>)
        requires
            self.wf(),
        ensures
            bytes_bits(out@) == self.view() + bits_of(0, self.padding()),
    {
        let mut bytes = self.bytes;
        if self.bits_in_acc > 0 {
            let ghost old_bytes = bytes@;
            proof {
                lemma_two_pow_8();
                lemma_two_pow_mono(self.bits_in_acc as nat, 8);
                lemma_bits_pad(self.accumulator as nat, self.bits_in_acc as nat, (8 - self.bits_in_acc) as nat);
            }
            bytes.push(self.accumulator as u8);
            proof {
                assert(bytes@.drop_last() =~= old_bytes);
            }
        } else {
            proof {
                assert(bits_of(self.accumulator as nat, 0) =~= Seq::<bool>::empty());
                assert(bits_of(0, 0) =~= Seq::<bool>::empty());
                assert(bytes_bits(bytes@) + Seq::<bool>::empty() + Seq::<bool>::empty() =~= bytes_bits(bytes@));
            }
        }
        bytes
    }
}

proof fn lemma_two_pow_8()
    ensures
        two_pow(8) == 256,
        two_pow(9) == 512,
        two_pow(16) == 65536,
{
    reveal_with_fuel(two_pow, 17);
}

proof fn lemma_two_pow_mono(a: nat, b: nat)
    requires
        a <= b,
    ensures
        two_pow(a) <= two_pow(b),
    decreases b,
{
    if a < b {
        lemma_two_pow_mono(a, (b - 1) as nat);
    }
}


/// Reads bits from bytes, least significant bit first.
pub struct BitReader<'a> {
    bytes: &'a [u8],
    byte_idx: usize,
    accumulator: u64,
    bits_in_acc: u8,
}

impl<'a> BitReader<'a> {
    /// The bytes being read.
    pub closed spec fn input(&self) -> Seq<u8> {
        self.bytes@
    }

    /// The bits of the whole input.
    pub closed spec fn stream(&self) -> Seq<bool> {
        bytes_bits(self.bytes@)
    }

    /// How many bits have been read.
    pub closed spec fn pos(&self) -> int {
        8 * self.byte_idx - self.bits_in_acc
    }

    pub closed spec fn wf(&self) -> bool {
        &&& self.byte_idx <= self.bytes@.len()
        &&& self.bits_in_acc <= 8
        &&& self.bits_in_acc <= 8 * self.byte_idx
        &&& self.accumulator < two_pow(self.bits_in_acc as nat)
        &&& bits_of(self.accumulator as nat, self.bits_in_acc as nat) == self.stream().subrange(self.pos(), 8 * self.byte_idx)
    }

    pub fn new(bytes: &'a [u8]) -> (r: Self)
        ensures
            r.wf(),
            r.stream() == bytes_bits(bytes@),
            r.pos() == 0,
    {
        let r = BitReader { bytes, byte_idx: 0, accumulator: 0, bits_in_acc: 0 };
        assert(bits_of(0, 0) =~= r.stream().subrange(0, 0));
        r
    }

    fn read_one(&mut self) -> (r: Option<bool>)
        requires
            old(self).wf(),
        ensures
            final(self).wf(),
            final(self).input() == old(self).input(),
            final(self).stream() == old(self).stream(),
            match r {
                Some(b) => old(self).pos() < old(self).stream().len() && b == old(self).stream()[old(self).pos()]
                    && final(self).pos() == old(self).pos() + 1,
                None => old(self).pos() == old(self).stream().len(),
            },
    {
        proof {
            lemma_bytes_bits_len(self.bytes@);
        }
        if self.bits_in_acc == 0 {
            if self.byte_idx >= self.bytes.len() {
                return None;
            }
            proof {
                lemma_bytes_bits_at(self.bytes@, self.byte_idx as int);
                lemma_two_pow_8();
            }
            self.accumulator = self.bytes[self.byte_idx] as u64;
            self.bits_in_acc = 8;
            self.byte_idx = self.byte_idx + 1;
        }
        let ghost acc = self.accumulator as nat;
        let ghost k = self.bits_in_acc as nat;
        let b = self.accumulator % 2 == 1;
        self.accumulator = self.accumulator / 2;
        self.bits_in_acc = self.bits_in_acc - 1;
        proof {
            let s = self.stream();
            let p = 8 * self.byte_idx - k;
            assert(bits_of(acc, k) =~= seq![b] + bits_of(acc / 2, (k - 1) as nat));
            assert(s.subrange(p, 8 * self.byte_idx)[0] == s[p]);
            assert(s.subrange(p + 1, 8 * self.byte_idx) =~= s.subrange(p, 8 * self.byte_idx).drop_first());
            assert((seq![b] + bits_of(acc / 2, (k - 1) as nat)).drop_first() =~= bits_of(acc / 2, (k - 1) as nat));
            assert(two_pow(k) == 2 * two_pow((k - 1) as nat));
        }
        Some(b)
    }

    /// Reads `num_bits` bits (below 64) as a number, least significant first; `None` when
    /// fewer are left.
    pub fn read_bits(&mut self, num_bits: u8) -> (r: Option<u64>)
        requires
            old(self).wf(),
            num_bits < 64,
        ensures
            final(self).wf(),
            final(self).input() == old(self).input(),
            final(self).stream() == old(self).stream(),
            match r {
                Some(v) => old(self).pos() + num_bits <= old(self).stream().len() && v == val_bits(
                    old(self).stream().subrange(old(self).pos(), old(self).pos() + num_bits),
                ) && final(self).pos() == old(self).pos() + num_bits,
                None => old(self).pos() + num_bits > old(self).stream().len(),
            },
    {
        let ghost p0 = self.pos();
        let ghost s = self.stream();
        let mut v: u64 = 0;
        let mut pl: u64 = 1;
        let mut j: u8 = 0;
        proof {
            lemma_bytes_bits_len(self.bytes@);
            assert(s.subrange(p0, p0) =~= Seq::<bool>::empty());
        }
        while j < num_bits
            invariant
                self.wf(),
                self.stream() == s,
                self.input() == old(self).input(),
                s == old(self).stream(),
                p0 == old(self).pos(),
                s.len() == 8 * self.bytes@.len(),
                j <= num_bits < 64,
                self.pos() == p0 + j,
                0 <= p0,
                p0 + j <= s.len(),
                pl == two_pow(j as nat),
                v == val_bits(s.subrange(p0, p0 + j)),
            decreases num_bits - j,
        {
            proof {
                lemma_val_bound(s.subrange(p0, p0 + j));
                lemma_two_pow_mono(j as nat, 62);
                lemma_two_pow_63();
            }
            match self.read_one() {
                None => {
                    return None;
                },
                Some(b) => {
                    proof {
                        assert(b == s[p0 + j]);
                        lemma_val_push(s.subrange(p0, p0 + j), b);
                        assert(s.subrange(p0, p0 + j).push(b) =~= s.subrange(p0, p0 + j + 1));
                    }
                    if b {
                        v = v + pl;
                    }
                    pl = pl * 2;
                    j = j + 1;
                },
            }
        }
        Some(v)
    }

    /// Reads one bit.
    pub fn read_bit(&mut self) -> (r: Option<bool>)
        requires
            old(self).wf(),
        ensures
            final(self).wf(),
            final(self).input() == old(self).input(),
            final(self).stream() == old(self).stream(),
            match r {
                Some(b) => old(self).pos() < old(self).stream().len() && b == old(self).stream()[old(self).pos()]
                    && final(self).pos() == old(self).pos() + 1,
                None => old(self).pos() + 1 > old(self).stream().len(),
            },
    {
        match self.read_bits(1) {
            Some(v) => {
                proof {
                    let t = old(self).stream().subrange(old(self).pos(), old(self).pos() + 1);
                    assert(t.drop_first() =~= Seq::<bool>::empty());
                    assert(t[0] == old(self).stream()[old(self).pos()]);
                    assert(v == (if t[0] { 1nat } else { 0nat }) + 2 * val_bits(t.drop_first()));
                }
                Some(v == 1)
            },
            None => None,
        }
    }
}

proof fn lemma_two_pow_63()
    ensures
        two_pow(62) == 0x4000_0000_0000_0000,
        two_pow(63) == 0x8000_0000_0000_0000,
{
    lemma_two_pow_8();
    reveal_with_fuel(two_pow, 17);
    assert(two_pow(24) == 0x100_0000);
    assert(two_pow(32) == 0x1_0000_0000);
    assert(two_pow(40) == 0x100_0000_0000);
    assert(two_pow(48) == 0x1_0000_0000_0000);
    assert(two_pow(56) == 0x100_0000_0000_0000);
}


/// The compressor of this module.
pub struct Deflate;

/// A code tree: leaves hold symbols, internal nodes have two children (bit 0 left, bit 1 right).
pub enum HTree {
    Leaf(int),
    Node(Box<HTree>, Box<HTree>),
}

/// The tree as written in front of the data: `1` and nine bits of the symbol for a leaf, `0`
/// and the two subtrees for an internal node.
pub open spec fn ser(t: HTree) -> Seq<bool>
    decreases t,
{
    match t {
        HTree::Leaf(s) => seq![true] + bits_of(s as nat, 9),
        HTree::Node(l, r) => seq![false] + ser(*l) + ser(*r),
    }
}

/// Every symbol of the tree fits in `bound`.
pub open spec fn syms_below(t: HTree, bound: int) -> bool
    decreases t,
{
    match t {
        HTree::Leaf(s) => 0 <= s < bound,
        HTree::Node(l, r) => syms_below(*l, bound) && syms_below(*r, bound),
    }
}

pub open spec fn has_leaf(t: HTree, s: int) -> bool
    decreases t,
{
    match t {
        HTree::Leaf(x) => x == s,
        HTree::Node(l, r) => has_leaf(*l, s) || has_leaf(*r, s),
    }
}

/// Reads a tree written by `ser` at bit `p`: the tree and the position after it.
pub open spec fn parse_tree(s: Seq<bool>, p: int) -> Option<(HTree, int)>
    decreases s.len() - p,
{
    if p < 0 || p >= s.len() {
        None
    } else if s[p] {
        if p + 10 <= s.len() {
            Some((HTree::Leaf(val_bits(s.subrange(p + 1, p + 10)) as int), p + 10))
        } else {
            None
        }
    } else {
        match parse_tree(s, p + 1) {
            None => None,
            Some((l, q)) => if q <= p || q > s.len() {
                None
            } else {
                match parse_tree(s, q) {
                    None => None,
                    Some((r, q2)) => Some((HTree::Node(Box::new(l), Box::new(r)), q2)),
                }
            },
        }
    }
}

proof fn lemma_parse_advances(s: Seq<bool>, p: int)
    ensures
        parse_tree(s, p) matches Some((t, q)) ==> p < q <= s.len(),
    decreases s.len() - p,
{
    if 0 <= p < s.len() && !s[p] {
        lemma_parse_advances(s, p + 1);
        if let Some((l, q)) = parse_tree(s, p + 1) {
            if p < q <= s.len() {
                lemma_parse_advances(s, q);
            }
        }
    }
}

/// A written tree reads back as itself.
proof fn lemma_parse_ser(t: HTree, s: Seq<bool>, p: int)
    requires
        syms_below(t, 512),
        0 <= p,
        p + ser(t).len() <= s.len(),
        s.subrange(p, p + ser(t).len()) == ser(t),
    ensures
        parse_tree(s, p) == Some((t, p + ser(t).len())),
    decreases t,
{
    match t {
        HTree::Leaf(x) => {
            lemma_bits_len(x as nat, 9);
            assert(s[p] == ser(t)[0]);
            assert(s.subrange(p + 1, p + 10) =~= ser(t).subrange(1, 10));
            assert(ser(t).subrange(1, 10) =~= bits_of(x as nat, 9));
            lemma_two_pow_8();
            lemma_val_bits(x as nat, 9);
        },
        HTree::Node(l, r) => {
            let sl = ser(*l);
            let sr = ser(*r);
            let a = sl.len() as int;
            let b = sr.len() as int;
            assert(ser(t) =~= seq![false] + sl + sr);
            assert(s[p] == ser(t)[0]);
            assert(s.subrange(p + 1, p + 1 + a) =~= ser(t).subrange(1, 1 + a));
            assert(ser(t).subrange(1, 1 + a) =~= sl);
            lemma_parse_ser(*l, s, p + 1);
            assert(s.subrange(p + 1 + a, p + 1 + a + b) =~= ser(t).subrange(1 + a, 1 + a + b));
            assert(ser(t).subrange(1 + a, 1 + a + b) =~= sr);
            lemma_parse_ser(*r, s, p + 1 + a);
        },
    }
}

/// The symbol reached by following the bits of `s` from `p` down the tree, and the position
/// after them.
pub open spec fn decode_symbol(t: HTree, s: Seq<bool>, p: int) -> Option<(int, int)>
    decreases t,
{
    match t {
        HTree::Leaf(x) => Some((x, p)),
        HTree::Node(l, r) => if p < 0 || p >= s.len() {
            None
        } else if s[p] {
            decode_symbol(*r, s, p + 1)
        } else {
            decode_symbol(*l, s, p + 1)
        },
    }
}

/// The subtree reached by following `path` from the root.
pub open spec fn subtree_at(t: HTree, path: Seq<bool>) -> Option<HTree>
    decreases path.len(),
{
    if path.len() == 0 {
        Some(t)
    } else {
        match t {
            HTree::Leaf(_) => None,
            HTree::Node(l, r) => subtree_at(if path[0] {
                *r
            } else {
                *l
            }, path.drop_first()),
        }
    }
}

proof fn lemma_decode_path(t: HTree, path: Seq<bool>, s: Seq<bool>, p: int, x: int)
    requires
        subtree_at(t, path) == Some(HTree::Leaf(x)),
        0 <= p,
        p + path.len() <= s.len(),
        s.subrange(p, p + path.len()) == path,
    ensures
        decode_symbol(t, s, p) == Some((x, p + path.len())),
    decreases path.len(),
{
    if path.len() > 0 {
        match t {
            HTree::Leaf(_) => {},
            HTree::Node(l, r) => {
                assert(s[p] == path[0]);
                assert(s.subrange(p + 1, p + path.len()) =~= path.drop_first());
                lemma_decode_path(if path[0] {
                    *r
                } else {
                    *l
                }, path.drop_first(), s, p + 1, x);
            },
        }
    }
}

proof fn lemma_subtree_extend(t: HTree, path: Seq<bool>, sub: HTree, b: bool)
    requires
        subtree_at(t, path) == Some(sub),
        sub is Node,
    ensures
        subtree_at(t, path.push(b)) == Some(if b {
            *sub->Node_1
        } else {
            *sub->Node_0
        }),
    decreases path.len(),
{
    if path.len() == 0 {
        assert(path.push(b).drop_first() =~= Seq::<bool>::empty());
        assert(path.push(b)[0] == b);
        assert(t == sub);
        match t {
            HTree::Node(l, r) => {
                assert(subtree_at(t, path.push(b)) == subtree_at(if b { *r } else { *l }, path.push(b).drop_first()));
            },
            _ => {},
        }
    } else {
        match t {
            HTree::Leaf(_) => {},
            HTree::Node(l, r) => {
                assert(path.push(b).drop_first() =~= path.drop_first().push(b));
                assert(path.push(b)[0] == path[0]);
                lemma_subtree_extend(if path[0] {
                    *r
                } else {
                    *l
                }, path.drop_first(), sub, b);
            },
        }
    }
}

/// A node of the code tree as it is built.
#[derive(Debug)]
struct FreqNode {
    freq: usize,
    id: usize,
    symbol: Option<u16>,
    left: Option<Box<FreqNode>>,
    right: Option<Box<FreqNode>>,
}

/// A leaf has a symbol; an internal node has both children.
spec fn full(n: FreqNode) -> bool
    decreases n,
{
    match n.symbol {
        Some(_) => true,
        None => match (n.left, n.right) {
            (Some(l), Some(r)) => full(*l) && full(*r),
            _ => false,
        },
    }
}

spec fn shape(n: FreqNode) -> HTree
    decreases n,
{
    match n.symbol {
        Some(s) => HTree::Leaf(s as int),
        None => match (n.left, n.right) {
            (Some(l), Some(r)) => HTree::Node(Box::new(shape(*l)), Box::new(shape(*r))),
            _ => HTree::Leaf(-1),
        },
    }
}

impl Deflate {
    /// Writes the tree in front of the data.
    fn serialize_tree(node: &FreqNode, writer: &mut BitWriter)
        requires
            old(writer).wf(),
            full(*node),
        ensures
            final(writer).wf(),
            final(writer).view() == old(writer).view() + ser(shape(*node)),
        decreases node,
    {
        match node.symbol {
            Some(sym) => {
                writer.write_bits(1, 1);
                writer.write_bits(sym as u64, 9);
                proof {
                    reveal_with_fuel(bits_of, 2);
                    assert(bits_of(1, 1) =~= seq![true]);
                    assert(old(writer).view() + seq![true] + bits_of(sym as nat, 9) =~= old(writer).view() + ser(shape(*node)));
                }
            },
            None => {
                writer.write_bits(0, 1);
                let ghost mid = writer.view();
                match (&node.left, &node.right) {
                    (Some(l), Some(r)) => {
                        Self::serialize_tree(l, writer);
                        Self::serialize_tree(r, writer);
                        proof {
                            reveal_with_fuel(bits_of, 2);
                            assert(bits_of(0, 1) =~= seq![false]);
                            assert(old(writer).view() + seq![false] + ser(shape(**l)) + ser(shape(**r)) =~= old(writer).view() + ser(shape(*node)));
                        }
                    },
                    _ => {},
                }
            },
        }
    }

    /// Reads a tree written by `serialize_tree`.
    fn deserialize_tree(reader: &mut BitReader) -> (r: Option<Box<FreqNode>>)
        requires
            old(reader).wf(),
        ensures
            final(reader).wf(),
            final(reader).stream() == old(reader).stream(),
            final(reader).input() == old(reader).input(),
            match (r, parse_tree(old(reader).stream(), old(reader).pos())) {
                (Some(n), Some((t, q))) => full(*n) && shape(*n) == t && final(reader).pos() == q,
                (None, None) => true,
                _ => false,
            },
        decreases old(reader).stream().len() - old(reader).pos(),
    {
        let ghost s = reader.stream();
        let ghost p = reader.pos();
        proof {
            lemma_bytes_bits_len(reader.bytes@);
        }
        let is_leaf = match reader.read_bit() {
            Some(b) => b,
            None => {
                return None;
            },
        };
        if is_leaf {
            let sym = match reader.read_bits(9) {
                Some(v) => v,
                None => {
                    return None;
                },
            };
            proof {
                lemma_val_bound(s.subrange(p + 1, p + 10));
                lemma_two_pow_8();
            }
            Some(Box::new(FreqNode { freq: 0, id: 0, symbol: Some(sym as u16), left: None, right: None }))
        } else {
            proof {
                lemma_parse_advances(s, p + 1);
            }
            let left = match Self::deserialize_tree(reader) {
                Some(n) => n,
                None => {
                    return None;
                },
            };
            let right = match Self::deserialize_tree(reader) {
                Some(n) => n,
                None => {
                    return None;
                },
            };
            Some(Box::new(FreqNode { freq: 0, id: 0, symbol: None, left: Some(left), right: Some(right) }))
        }
    }
}


/// The symbols of the tree's leaves.
pub open spec fn leaf_set(t: HTree) -> Set<int>
    decreases t,
{
    match t {
        HTree::Leaf(x) => set![x],
        HTree::Node(l, r) => leaf_set(*l) + leaf_set(*r),
    }
}

proof fn lemma_leaf_set(t: HTree, s: int)
    ensures
        leaf_set(t).contains(s) == has_leaf(t, s),
    decreases t,
{
    match t {
        HTree::Leaf(_) => {},
        HTree::Node(l, r) => {
            lemma_leaf_set(*l, s);
            lemma_leaf_set(*r, s);
        },
    }
}

spec fn pool_sum(p: Seq<FreqNode>) -> nat
    decreases p.len(),
{
    if p.len() == 0 {
        0
    } else {
        pool_sum(p.drop_last()) + p.last().freq as nat
    }
}

spec fn pool_leaves(p: Seq<FreqNode>) -> Set<int>
    decreases p.len(),
{
    if p.len() == 0 {
        Set::empty()
    } else {
        pool_leaves(p.drop_last()) + leaf_set(shape(p.last()))
    }
}

proof fn lemma_pool_concat(a: Seq<FreqNode>, b: Seq<FreqNode>)
    ensures
        pool_sum(a + b) == pool_sum(a) + pool_sum(b),
        pool_leaves(a + b) == pool_leaves(a) + pool_leaves(b),
    decreases b.len(),
{
    if b.len() == 0 {
        assert(a + b =~= a);
        assert(pool_leaves(a) + Set::empty() =~= pool_leaves(a));
    } else {
        assert((a + b).drop_last() =~= a + b.drop_last());
        lemma_pool_concat(a, b.drop_last());
        assert(pool_leaves(a) + pool_leaves(b.drop_last()) + leaf_set(shape(b.last())) =~= pool_leaves(a) + (
        pool_leaves(b.drop_last()) + leaf_set(shape(b.last()))));
    }
}

proof fn lemma_pool_remove(p: Seq<FreqNode>, i: int)
    requires
        0 <= i < p.len(),
    ensures
        pool_sum(p) == pool_sum(p.remove(i)) + p[i].freq,
        pool_leaves(p) == pool_leaves(p.remove(i)) + leaf_set(shape(p[i])),
{
    let a = p.subrange(0, i);
    let b = p.subrange(i + 1, p.len() as int);
    assert(p =~= a + seq![p[i]] + b);
    lemma_pool_concat(a + seq![p[i]], b);
    lemma_pool_concat(a, seq![p[i]]);
    lemma_pool_concat(a, b);
    lemma_pool_single(p[i]);
    assert(pool_leaves(a) + leaf_set(shape(p[i])) + pool_leaves(b) =~= pool_leaves(a) + pool_leaves(b) + leaf_set(
        shape(p[i]),
    ));
}

proof fn lemma_pool_single(x: FreqNode)
    ensures
        pool_sum(seq![x]) == x.freq,
        pool_leaves(seq![x]) == leaf_set(shape(x)),
{
    let e = Seq::<FreqNode>::empty();
    assert(seq![x] =~= e.push(x));
    lemma_pool_push(e, x);
    assert(pool_sum(e) == 0);
    assert(pool_leaves(e) == Set::<int>::empty());
    assert(Set::<int>::empty() + leaf_set(shape(x)) =~= leaf_set(shape(x)));
}

proof fn lemma_pool_push(p: Seq<FreqNode>, x: FreqNode)
    ensures
        pool_sum(p.push(x)) == pool_sum(p) + x.freq,
        pool_leaves(p.push(x)) == pool_leaves(p) + leaf_set(shape(x)),
{
    assert(p.push(x).drop_last() =~= p);
    assert(p.push(x).last() == x);
}

/// The node of least frequency, the older one first among equals.
fn min_index(pool: &Vec<FreqNode>) -> (m: usize)
    requires
        pool@.len() > 0,
    ensures
        m < pool@.len(),
        forall|k: int|
            0 <= k < pool@.len() ==> pool@[m as int].freq < pool@[k].freq || (pool@[m as int].freq == pool@[k].freq
                && pool@[m as int].id <= pool@[k].id),
{
    let mut m: usize = 0;
    let mut k: usize = 1;
    while k < pool.len()
        invariant
            m < k <= pool@.len(),
            forall|q: int|
                0 <= q < k ==> pool@[m as int].freq < pool@[q].freq || (pool@[m as int].freq == pool@[q].freq
                    && pool@[m as int].id <= pool@[q].id),
        decreases pool@.len() - k,
    {
        if pool[k].freq < pool[m].freq || (pool[k].freq == pool[m].freq && pool[k].id < pool[m].id) {
            m = k;
        }
        k = k + 1;
    }
    m
}

spec fn freq_total(f: Seq<usize>, n: int) -> nat
    decreases n,
{
    if n <= 0 {
        0
    } else {
        freq_total(f, n - 1) + f[n - 1] as nat
    }
}

/// Two different symbols occur.
spec fn two_symbols(f: Seq<usize>) -> bool {
    exists|a: int, b: int| 0 <= a < b < f.len() && f[a] > 0 && f[b] > 0
}

impl Deflate {
    /// Builds a code tree over the symbols that occur: the two least frequent subtrees (the
    /// older first among equals) are merged until one is left.
    fn build_huffman_tree(freqs: &Vec<usize>) -> (r: Option<Box<FreqNode>>)
        requires
            freqs@.len() == 258,
            freq_total(freqs@, 258) <= usize::MAX,
        ensures
            match r {
                None => forall|s: int| 0 <= s < 258 ==> freqs@[s] == 0,
                Some(n) => full(*n) && syms_below(shape(*n), 258) && (forall|s: int|
                    0 <= s < 258 && freqs@[s] > 0 ==> has_leaf(shape(*n), s)) && (two_symbols(freqs@) ==> shape(*n) is Node),
            },
    {
        let mut pool: Vec<FreqNode> = Vec::new();
        let mut id_gen: usize = 0;
        let mut sym: usize = 0;
        let ghost mut first: int = -1;
        while sym < 258
            invariant
                freqs@.len() == 258,
                sym <= 258,
                id_gen == pool@.len() <= sym,
                pool_sum(pool@) == freq_total(freqs@, sym as int),
                freq_total(freqs@, 258) <= usize::MAX,
                forall|k: int| 0 <= k < pool@.len() ==> full(#[trigger] pool@[k]) && syms_below(shape(pool@[k]), 258),
                forall|s: int| 0 <= s < sym && freqs@[s] > 0 ==> #[trigger] pool_leaves(pool@).contains(s),
                pool@.len() == 0 <==> (forall|s: int| 0 <= s < sym ==> freqs@[s] == 0),
                pool@.len() >= 1 ==> 0 <= first < sym && freqs@[first] > 0,
                pool@.len() == 1 ==> (forall|s: int| 0 <= s < sym && s != first ==> freqs@[s] == 0),
            decreases 258 - sym,
        {
            proof {
                lemma_freq_total_mono(freqs@, sym as int + 1, 258);
            }
            if freqs[sym] > 0 {
                let ghost old_pool = pool@;
                let node = FreqNode { freq: freqs[sym], id: id_gen, symbol: Some(sym as u16), left: None, right: None };
                pool.push(node);
                proof {
                    lemma_pool_push(old_pool, node);
                    assert(leaf_set(shape(node)) =~= set![sym as int]);
                    if old_pool.len() == 0 {
                        first = sym as int;
                    }
                }
                id_gen = id_gen + 1;
            }
            sym = sym + 1;
        }
        if pool.len() == 0 {
            return None;
        }
        let ghost total = pool_sum(pool@);
        let ghost mut merged = false;
        while pool.len() > 1
            invariant
                pool@.len() >= 1,
                freqs@.len() == 258,
                pool_sum(pool@) == total,
                total <= usize::MAX,
                forall|k: int| 0 <= k < pool@.len() ==> full(#[trigger] pool@[k]) && syms_below(shape(pool@[k]), 258),
                forall|s: int| 0 <= s < 258 && freqs@[s] > 0 ==> #[trigger] pool_leaves(pool@).contains(s),
                merged ==> shape(pool@.last()) is Node,
                !merged && pool@.len() == 1 ==> !two_symbols(freqs@),
            decreases pool@.len(),
        {
            let ghost orig = pool@;
            let i = min_index(&pool);
            proof {
                lemma_pool_remove(pool@, i as int);
            }
            let left = pool.remove(i);
            let j = min_index(&pool);
            proof {
                lemma_pool_remove(pool@, j as int);
            }
            let right = pool.remove(j);
            let ghost rest = pool@;
            proof {
                assert(full(left) && full(right));
                assert(syms_below(shape(left), 258) && syms_below(shape(right), 258));
            }
            let node = FreqNode {
                freq: left.freq + right.freq,
                id: id_gen,
                symbol: None,
                left: Some(Box::new(left)),
                right: Some(Box::new(right)),
            };
            proof {
                assert(shape(node) == HTree::Node(Box::new(shape(left)), Box::new(shape(right))));
                assert(leaf_set(shape(node)) == leaf_set(shape(left)) + leaf_set(shape(right)));
            }
            pool.push(node);
            proof {
                lemma_pool_push(rest, node);
                merged = true;
                assert forall|s: int| 0 <= s < 258 && freqs@[s] > 0 implies #[trigger] pool_leaves(pool@).contains(s) by {
                    assert(pool_leaves(orig).contains(s));
                }
                assert forall|k: int| 0 <= k < pool@.len() implies full(#[trigger] pool@[k]) && syms_below(shape(pool@[k]), 258) by {
                    if k < rest.len() {
                        assert(pool@[k] == rest[k]);
                    }
                }
            }
            id_gen = if id_gen < usize::MAX { id_gen + 1 } else { id_gen };
        }
        let ghost before = pool@;
        let root = pool.pop().unwrap();
        proof {
            assert(before =~= seq![root]);
            assert(pool@.len() == 0);
            lemma_pool_single(root);
            assert forall|s: int| 0 <= s < 258 && freqs@[s] > 0 implies has_leaf(shape(root), s) by {
                assert(pool_leaves(before).contains(s));
                lemma_leaf_set(shape(root), s);
            }
            if two_symbols(freqs@) && !merged {
                let (a, b) = choose|a: int, b: int| 0 <= a < b < freqs@.len() && freqs@[a] > 0 && freqs@[b] > 0;
            }
        }
        Some(Box::new(root))
    }
}

proof fn lemma_freq_total_mono(f: Seq<usize>, a: int, b: int)
    requires
        0 <= a <= b,
    ensures
        freq_total(f, a) <= freq_total(f, b),
    decreases b,
{
    if a < b {
        lemma_freq_total_mono(f, a, b - 1);
    }
}


/// Every code in `codes` leads from the root to the leaf of its symbol.
spec fn codes_ok(root: HTree, codes: Seq<Option<Vec<bool>>>) -> bool {
    forall|s: int|
        0 <= s < codes.len() && (#[trigger] codes[s]) is Some ==> subtree_at(root, codes[s]->Some_0@) == Some(
            HTree::Leaf(s),
        )
}

impl Deflate {
    /// Records, for each leaf below `node`, the bits of the way to it from the root (`path`
    /// leads to `node`): 0 for left, 1 for right.
    fn generate_codes(node: &FreqNode, path: &mut Vec<bool>, codes: &mut Vec<Option<Vec<bool>>>, Ghost(root): Ghost<HTree>)
        requires
            full(*node),
            syms_below(shape(*node), 258),
            old(codes)@.len() == 258,
            subtree_at(root, old(path)@) == Some(shape(*node)),
            codes_ok(root, old(codes)@),
        ensures
            final(path)@ == old(path)@,
            final(codes)@.len() == 258,
            codes_ok(root, final(codes)@),
            forall|s: int| 0 <= s < 258 && (#[trigger] old(codes)@[s]) is Some ==> final(codes)@[s] is Some,
            forall|s: int| 0 <= s < 258 && #[trigger] has_leaf(shape(*node), s) ==> final(codes)@[s] is Some,
        decreases node,
    {
        match node.symbol {
            Some(sym) => {
                let c = path.clone();
                proof {
                    assert(c@ =~= path@);
                }
                codes.set(sym as usize, Some(c));
                proof {
                    assert(shape(*node) == HTree::Leaf(sym as int));
                    assert(codes@[sym as int] is Some);

                    assert forall|s: int|
                        0 <= s < codes@.len() && (#[trigger] codes@[s]) is Some implies subtree_at(root, codes@[s]->Some_0@)
                        == Some(HTree::Leaf(s)) by {
                        if s != sym as int {
                            assert(codes@[s] == old(codes)@[s]);
                        }
                    }
                    assert forall|s: int| 0 <= s < 258 && #[trigger] has_leaf(shape(*node), s) implies codes@[s] is Some by {
                        assert(has_leaf(HTree::Leaf(sym as int), s));
                        assert(s == sym as int);
                    }
                }
            },
            None => {
                match (&node.left, &node.right) {
                    (Some(l), Some(r)) => {
                        let ghost p0 = path@;
                        proof {
                            lemma_subtree_extend(root, p0, shape(*node), false);
                            lemma_subtree_extend(root, p0, shape(*node), true);
                        }
                        path.push(false);
                        Self::generate_codes(l, path, codes, Ghost(root));
                        path.pop();
                        proof {
                            assert(path@ =~= p0);
                        }
                        let ghost mid = codes@;
                        path.push(true);
                        Self::generate_codes(r, path, codes, Ghost(root));
                        path.pop();
                        proof {
                            assert(path@ =~= p0);
                            assert(shape(*node) == HTree::Node(Box::new(shape(**l)), Box::new(shape(**r))));
                            assert forall|s: int| 0 <= s < 258 && #[trigger] has_leaf(shape(*node), s) implies codes@[s] is Some by {
                                assert(has_leaf(shape(*node), s) == (has_leaf(shape(**l), s) || has_leaf(shape(**r), s)));
                                if has_leaf(shape(**l), s) {
                                    assert(mid[s] is Some);
                                }
                            }
                            assert forall|s: int| 0 <= s < 258 && (#[trigger] old(codes)@[s]) is Some implies codes@[s] is Some by {
                                assert(mid[s] is Some);
                            }
                        }
                    },
                    _ => {
                        assert(false);
                    },
                }
            },
        }
    }
}


/// A token of the LZ77 pass: a byte, or a copy of `length` bytes from `distance` back.
#[derive(Debug, Clone, Copy, PartialEq, Eq)]
pub enum Lz77Token {
    Literal(u8),
    Match { length: u16, distance: u16 },
}

/// `out` followed by `n` bytes copied one at a time from `dist` back (the copy may overlap
/// what it writes).
pub open spec fn copy_back(out: Seq<u8>, dist: int, n: nat) -> Seq<u8>
    decreases n,
{
    if n == 0 {
        out
    } else {
        copy_back(out.push(out[out.len() - dist]), dist, (n - 1) as nat)
    }
}

/// One token applied to the output so far; `None` when a copy reaches before the start.
pub open spec fn step(out: Option<Seq<u8>>, t: Lz77Token) -> Option<Seq<u8>> {
    match out {
        None => None,
        Some(o) => match t {
            Lz77Token::Literal(b) => Some(o.push(b)),
            Lz77Token::Match { length, distance } => if 1 <= distance <= o.len() {
                Some(copy_back(o, distance as int, length as nat))
            } else {
                None
            },
        },
    }
}

/// The tokens applied in order.
pub open spec fn run_tokens(out: Option<Seq<u8>>, toks: Seq<Lz77Token>) -> Option<Seq<u8>>
    decreases toks.len(),
{
    if toks.len() == 0 {
        out
    } else {
        run_tokens(step(out, toks[0]), toks.drop_first())
    }
}

/// A match is at least 3 and at most 258 bytes long and reaches at most 32768 bytes back.
pub open spec fn token_ok(t: Lz77Token) -> bool {
    match t {
        Lz77Token::Literal(_) => true,
        Lz77Token::Match { length, distance } => 3 <= length <= 258 && 1 <= distance <= 32768,
    }
}

proof fn lemma_run_push(out: Option<Seq<u8>>, toks: Seq<Lz77Token>, t: Lz77Token)
    ensures
        run_tokens(out, toks.push(t)) == step(run_tokens(out, toks), t),
    decreases toks.len(),
{
    if toks.len() == 0 {
        assert(toks.push(t).drop_first() =~= Seq::<Lz77Token>::empty());
        assert(toks.push(t)[0] == t);
        assert(run_tokens(step(out, t), Seq::<Lz77Token>::empty()) == step(out, t));
        assert(run_tokens(out, toks) == out);
    } else {
        assert(toks.push(t).drop_first() =~= toks.drop_first().push(t));
        assert(toks.push(t)[0] == toks[0]);
        lemma_run_push(step(out, toks[0]), toks.drop_first(), t);
    }
}

proof fn lemma_run_none(toks: Seq<Lz77Token>)
    ensures
        run_tokens(None, toks) == None::<Seq<u8>>,
    decreases toks.len(),
{
    if toks.len() > 0 {
        lemma_run_none(toks.drop_first());
    }
}

/// Copying a stretch that repeats `dist` back reproduces it.
proof fn lemma_copy_back(data: Seq<u8>, i: int, d: int, n: nat)
    requires
        1 <= d <= i,
        i + n <= data.len(),
        forall|k: int| 0 <= k < n ==> data[i - d + k] == #[trigger] data[i + k],
    ensures
        copy_back(data.take(i), d, n) == data.take(i + n),
    decreases n,
{
    if n == 0 {
    } else {
        assert(data.take(i).push(data.take(i)[data.take(i).len() - d]) =~= data.take(i + 1)) by {
            assert(data[i - d + 0] == data[i + 0]);
        }
        assert forall|k: int| 0 <= k < n - 1 implies data[(i + 1) - d + k] == #[trigger] data[(i + 1) + k] by {
            assert(data[i - d + (k + 1)] == data[i + (k + 1)]);
        }
        lemma_copy_back(data, i + 1, d, (n - 1) as nat);
    }
}

/// Replaying `a` then `b` is replaying `a + b`.
proof fn lemma_run_split(out: Option<Seq<u8>>, a: Seq<Lz77Token>, b: Seq<Lz77Token>)
    ensures
        run_tokens(out, a + b) == run_tokens(run_tokens(out, a), b),
    decreases a.len(),
{
    if a.len() > 0 {
        assert((a + b).drop_first() =~= a.drop_first() + b);
        assert((a + b)[0] == a[0]);
        lemma_run_split(step(out, a[0]), a.drop_first(), b);
    } else {
        assert(a + b =~= b);
    }
}

/// A replay of tokens that rebuilds some output never reaches back past what it has produced:
/// before each match, the bytes produced so far number at least its distance.
pub proof fn lemma_replay_reaches_back_within(toks: Seq<Lz77Token>, k: int)
    requires
        run_tokens(Some(seq![]), toks) is Some,
        0 <= k < toks.len(),
        toks[k] is Match,
    ensures
        run_tokens(Some(seq![]), toks.take(k)) matches Some(p) && 1 <= toks[k]->distance <= p.len(),
{
    assert(toks =~= toks.take(k + 1) + toks.skip(k + 1));
    lemma_run_split(Some(seq![]), toks.take(k + 1), toks.skip(k + 1));
    assert(toks.take(k + 1) =~= toks.take(k).push(toks[k]));
    lemma_run_push(Some(seq![]), toks.take(k), toks[k]);
    if run_tokens(Some(seq![]), toks.take(k + 1)) is None {
        lemma_run_none(toks.skip(k + 1));
    }
}

/// How many bytes from `j + k` on repeat those from `i + k` on, up to 258 and the end.
pub open spec fn match_len(d: Seq<u8>, i: int, j: int, k: int) -> int
    decreases 258 - k,
{
    if 0 <= k < 258 && 0 <= j + k && i + k < d.len() && d[j + k] == d[i + k] {
        match_len(d, i, j, k + 1)
    } else {
        k
    }
}

/// The first of the window's positions from `ws` up to `j` (excluded) that starts the longest
/// repeat, of at least 3 bytes, of what starts at `i`: its length and position, or `(0, -1)`.
pub open spec fn longest_repeat(d: Seq<u8>, i: int, ws: int, j: int) -> (int, int)
    decreases j - ws,
{
    if j <= ws {
        (0, -1)
    } else {
        let prev = longest_repeat(d, i, ws, j - 1);
        let l = match_len(d, i, j - 1, 0);
        if l >= 3 && l > prev.0 {
            (l, j - 1)
        } else {
            prev
        }
    }
}

/// Where the search window for position `i` starts: 32768 bytes back, or the start.
pub open spec fn window_from(i: int) -> int {
    if i > 32768 {
        i - 32768
    } else {
        0
    }
}

/// The greedy LZ77 tokens of `d` from position `i` on: the best match there when it has at
/// least 3 bytes, else the byte itself.
pub open spec fn lz77_spec(d: Seq<u8>, i: int) -> Seq<Lz77Token>
    decreases d.len() - i,
{
    if i < 0 || i >= d.len() {
        Seq::empty()
    } else {
        let b = longest_repeat(d, i, window_from(i), i);
        if b.0 >= 3 && i + b.0 <= d.len() {
            seq![Lz77Token::Match { length: b.0 as u16, distance: (i - b.1) as u16 }] + lz77_spec(d, i + b.0)
        } else {
            seq![Lz77Token::Literal(d[i])] + lz77_spec(d, i + 1)
        }
    }
}

proof fn lemma_match_len(d: Seq<u8>, i: int, j: int, k: int)
    requires
        0 <= j,
        0 <= k <= 258,
        i + k <= d.len(),
    ensures
        k <= match_len(d, i, j, k) <= 258,
        i + match_len(d, i, j, k) <= d.len(),
    decreases 258 - k,
{
    if k < 258 && i + k < d.len() && d[j + k] == d[i + k] {
        lemma_match_len(d, i, j, k + 1);
    }
}

proof fn lemma_longest_repeat(d: Seq<u8>, i: int, ws: int, j: int)
    requires
        0 <= ws <= j <= i <= d.len(),
    ensures
        longest_repeat(d, i, ws, j).0 == 0 || (3 <= longest_repeat(d, i, ws, j).0 <= 258 && i + longest_repeat(d, i, ws, j).0
            <= d.len() && ws <= longest_repeat(d, i, ws, j).1 < j),
    decreases j - ws,
{
    if j > ws {
        lemma_longest_repeat(d, i, ws, j - 1);
        lemma_match_len(d, i, j - 1, 0);
    }
}

impl Deflate {
    /// Greedy LZ77: at each position, the longest earlier match in the window (the earliest
    /// among equals), if at least 3 bytes long; otherwise the byte itself.
    pub fn lz77_compress(data: &[u8]) -> (tokens: Vec<Lz77Token>)
        ensures
            tokens@ == lz77_spec(data@, 0),
            run_tokens(Some(seq![]), tokens@) == Some(data@),
            forall|k: int| 0 <= k < tokens@.len() ==> token_ok(#[trigger] tokens@[k]),
            tokens@.len() <= data@.len(),
    {
        let mut tokens: Vec<Lz77Token> = Vec::new();
        let mut i: usize = 0;
        proof {
            assert(data@.take(0) =~= Seq::<u8>::empty());
            assert(tokens@ + lz77_spec(data@, 0) =~= lz77_spec(data@, 0));
        }
        while i < data.len()
            invariant
                i <= data@.len(),
                run_tokens(Some(seq![]), tokens@) == Some(data@.take(i as int)),
                forall|k: int| 0 <= k < tokens@.len() ==> token_ok(#[trigger] tokens@[k]),
                tokens@.len() <= i,
                tokens@ + lz77_spec(data@, i as int) == lz77_spec(data@, 0),
            decreases data@.len() - i,
        {
            let mut best_match: Option<u16> = None;
            let mut best_len: usize = 0;
            let window_start = if i > 32768 { i - 32768 } else { 0 };
            let mut j = window_start;
            let ghost ws = window_start as int;
            proof {
                assert(ws == window_from(i as int));
            }
            while j < i
                invariant
                    i < data@.len(),
                    window_start <= j <= i,
                    ws == window_start as int,
                    i - window_start <= 32768,
                    best_len == longest_repeat(data@, i as int, ws, j as int).0,
                    match best_match {
                        None => best_len == 0,
                        Some(dist) => 3 <= best_len <= 258 && i + best_len <= data@.len() && 1 <= dist <= i
                            && dist <= 32768 && dist == i - longest_repeat(data@, i as int, ws, j as int).1
                            && forall|k: int| 0 <= k < best_len ==> data@[i - dist + k] == #[trigger] data@[i + k],
                    },
                decreases i - j,
            {
                let mut len: usize = 0;
                while len < 258 && len < data.len() - i && data[j + len] == data[i + len]
                    invariant
                        j < i < data@.len(),
                        len <= 258,
                        i + len <= data@.len(),
                        forall|k: int| 0 <= k < len ==> data@[j + k] == #[trigger] data@[i + k],
                        match_len(data@, i as int, j as int, len as int) == match_len(data@, i as int, j as int, 0),
                    decreases 258 - len,
                {
                    len = len + 1;
                }
                assert(len == match_len(data@, i as int, j as int, 0));
                if len >= 3 && len > best_len {
                    best_len = len;
                    best_match = Some((i - j) as u16);
                    proof {
                        assert forall|k: int| 0 <= k < best_len implies data@[i - (i - j) + k] == #[trigger] data@[i + k] by {
                            assert(data@[j + k] == data@[i + k]);
                        }
                    }
                }
                j = j + 1;
            }
            let ghost before = tokens@;
            let ghost b = longest_repeat(data@, i as int, ws, i as int);
            proof {
                lemma_longest_repeat(data@, i as int, ws, i as int);
            }
            if let Some(dist) = best_match {
                let t = Lz77Token::Match { length: best_len as u16, distance: dist };
                tokens.push(t);
                proof {
                    lemma_run_push(Some(seq![]), before, t);
                    lemma_copy_back(data@, i as int, dist as int, best_len as nat);
                    assert(lz77_spec(data@, i as int) == seq![t] + lz77_spec(data@, i + best_len));
                    assert(tokens@ + lz77_spec(data@, i + best_len) =~= before + lz77_spec(data@, i as int));
                }
                i = i + best_len;
            } else {
                let t = Lz77Token::Literal(data[i]);
                tokens.push(t);
                proof {
                    lemma_run_push(Some(seq![]), before, t);
                    assert(data@.take(i as int).push(data@[i as int]) =~= data@.take(i as int + 1));
                    assert(lz77_spec(data@, i as int) == seq![t] + lz77_spec(data@, i + 1));
                    assert(tokens@ + lz77_spec(data@, i + 1) =~= before + lz77_spec(data@, i as int));
                }
                i = i + 1;
            }
        }
        proof {
            assert(data@.take(i as int) =~= data@);
            assert(lz77_spec(data@, i as int) =~= Seq::<Lz77Token>::empty());
            assert(tokens@ + lz77_spec(data@, i as int) =~= tokens@);
        }
        tokens
    }
}

/// What decompressing gives: the bytes, the reason it stops, or no answer (the input makes
/// the decoder copy from where nothing was written, or emit forever).
pub enum Inflated {
    Done(Seq<u8>),
    Failed(Seq<char>),
    Stuck,
}

/// Decoding the symbols from bit `p` on with tree `t`, after the bytes `out`.
pub open spec fn inflate_from(t: HTree, s: Seq<bool>, p: int, out: Seq<u8>) -> Inflated
    decreases s.len() - p,
{
    match decode_symbol(t, s, p) {
        None => Inflated::Failed("Unexpected end of stream navigating tree"@),
        Some((x, q)) => if q < p || q > s.len() {
            Inflated::Stuck
        } else if x == 257 {
            Inflated::Done(out)
        } else if x == 256 {
            if q + 8 > s.len() {
                Inflated::Failed("Unexpected end of stream reading match length"@)
            } else if q + 24 > s.len() {
                Inflated::Failed("Unexpected end of stream reading match distance"@)
            } else {
                let len = val_bits(s.subrange(q, q + 8)) + 3;
                let d = val_bits(s.subrange(q + 8, q + 24));
                if d > out.len() {
                    Inflated::Failed("Invalid match distance"@)
                } else if d == 0 {
                    Inflated::Stuck
                } else {
                    inflate_from(t, s, q + 24, copy_back(out, d as int, len))
                }
            }
        } else if q == p {
            Inflated::Stuck
        } else {
            inflate_from(t, s, q, out.push(x as u8))
        },
    }
}

/// What decompressing `data` gives: the code tree, then the symbols up to the end marker.
pub open spec fn inflate(data: Seq<u8>) -> Inflated {
    if data.len() == 0 {
        Inflated::Done(seq![])
    } else {
        match parse_tree(bytes_bits(data), 0) {
            None => Inflated::Failed("Failed to read Huffman tree"@),
            Some((t, p)) => inflate_from(t, bytes_bits(data), p, seq![]),
        }
    }
}

proof fn lemma_decode_advances(t: HTree, s: Seq<bool>, p: int)
    ensures
        decode_symbol(t, s, p) matches Some((x, q)) ==> p <= q <= s.len() || (t is Leaf && q == p),
        decode_symbol(t, s, p) matches Some((x, q)) ==> (t is Node ==> q > p),
        t is Leaf ==> decode_symbol(t, s, p) == Some((t->Leaf_0, p)),
    decreases t,
{
    match t {
        HTree::Leaf(_) => {},
        HTree::Node(l, r) => {
            lemma_decode_advances(*l, s, p + 1);
            lemma_decode_advances(*r, s, p + 1);
        },
    }
}

impl Deflate {
    /// Follows the bits from the reader down the tree to a symbol.
    fn decode_walk(node: &FreqNode, reader: &mut BitReader) -> (r: Result<u16, &'static str>)
        requires
            old(reader).wf(),
            full(*node),
        ensures
            final(reader).wf(),
            final(reader).stream() == old(reader).stream(),
            final(reader).input() == old(reader).input(),
            match (r, decode_symbol(shape(*node), old(reader).stream(), old(reader).pos())) {
                (Ok(x), Some((sx, q))) => x as int == sx && final(reader).pos() == q,
                (Err(m), None) => m@ == "Unexpected end of stream navigating tree"@,
                _ => false,
            },
        decreases node,
    {
        match node.symbol {
            Some(sym) => Ok(sym),
            None => {
                let bit = match reader.read_bit() {
                    Some(b) => b,
                    None => {
                        return Err("Unexpected end of stream navigating tree");
                    },
                };
                match (&node.left, &node.right) {
                    (Some(l), Some(r)) => {
                        if bit {
                            Self::decode_walk(r, reader)
                        } else {
                            Self::decode_walk(l, reader)
                        }
                    },
                    _ => Err("Unexpected end of stream navigating tree"),
                }
            },
        }
    }
}



/// The symbol a token is coded with: its byte, or the match marker.
pub open spec fn sym_of(t: Lz77Token) -> int {
    match t {
        Lz77Token::Literal(b) => b as int,
        Lz77Token::Match { .. } => 256,
    }
}

spec fn code_of(codes: Seq<Option<Vec<bool>>>, x: int) -> Seq<bool> {
    codes[x]->Some_0@
}

/// The bits of a token: its symbol's code, and for a match the length less 3 in eight bits
/// and the distance in sixteen.
spec fn enc(codes: Seq<Option<Vec<bool>>>, t: Lz77Token) -> Seq<bool> {
    match t {
        Lz77Token::Literal(b) => code_of(codes, b as int),
        Lz77Token::Match { length, distance } => code_of(codes, 256) + bits_of((length - 3) as nat, 8) + bits_of(
            distance as nat,
            16,
        ),
    }
}

spec fn enc_all(codes: Seq<Option<Vec<bool>>>, toks: Seq<Lz77Token>) -> Seq<bool>
    decreases toks.len(),
{
    if toks.len() == 0 {
        seq![]
    } else {
        enc(codes, toks[0]) + enc_all(codes, toks.drop_first())
    }
}

proof fn lemma_enc_push(codes: Seq<Option<Vec<bool>>>, toks: Seq<Lz77Token>, t: Lz77Token)
    ensures
        enc_all(codes, toks.push(t)) == enc_all(codes, toks) + enc(codes, t),
    decreases toks.len(),
{
    if toks.len() == 0 {
        assert(toks.push(t).drop_first() =~= Seq::<Lz77Token>::empty());
        assert(toks.push(t)[0] == t);
        assert(enc_all(codes, toks.push(t)) =~= enc(codes, t) + enc_all(codes, Seq::<Lz77Token>::empty()));
        assert(enc_all(codes, toks) + enc(codes, t) =~= enc(codes, t));
    } else {
        assert(toks.push(t).drop_first() =~= toks.drop_first().push(t));
        assert(toks.push(t)[0] == toks[0]);
        lemma_enc_push(codes, toks.drop_first(), t);
        assert(enc(codes, toks[0]) + (enc_all(codes, toks.drop_first()) + enc(codes, t)) =~= enc(codes, toks[0])
            + enc_all(codes, toks.drop_first()) + enc(codes, t));
    }
}

/// A code in a tree whose root is an internal node is at least one bit long.
proof fn lemma_code_nonempty(t: HTree, c: Seq<bool>, x: int)
    requires
        t is Node,
        subtree_at(t, c) == Some(HTree::Leaf(x)),
    ensures
        c.len() > 0,
{
}

/// The coded tokens and end marker decode to the bytes the tokens stand for.
proof fn lemma_decode_tokens(
    t: HTree,
    codes: Seq<Option<Vec<bool>>>,
    s: Seq<bool>,
    p: int,
    toks: Seq<Lz77Token>,
    out: Seq<u8>,
    fin: Seq<u8>,
)
    requires
        t is Node,
        codes.len() == 258,
        codes_ok(t, codes),
        codes[257] is Some,
        forall|k: int| 0 <= k < toks.len() ==> token_ok(#[trigger] toks[k]) && codes[sym_of(toks[k])] is Some,
        run_tokens(Some(out), toks) == Some(fin),
        0 <= p,
        p + enc_all(codes, toks).len() + code_of(codes, 257).len() <= s.len(),
        s.subrange(p, p + enc_all(codes, toks).len() + code_of(codes, 257).len()) == enc_all(codes, toks) + code_of(
            codes,
            257,
        ),
    ensures
        inflate_from(t, s, p, out) == Inflated::Done(fin),
    decreases toks.len(),
{
    let eof = code_of(codes, 257);
    let all = enc_all(codes, toks);
    if toks.len() == 0 {
        assert(all =~= Seq::<bool>::empty());
        assert(s.subrange(p, p + eof.len()) =~= eof);
        lemma_decode_path(t, eof, s, p, 257);
        lemma_decode_advances(t, s, p);
    } else {
        let tok = toks[0];
        let rest = toks.drop_first();
        let e = enc(codes, tok);
        let er = enc_all(codes, rest);
        assert(all == e + er);
        let x = sym_of(tok);
        let c = code_of(codes, x);
        assert(subtree_at(t, c) == Some(HTree::Leaf(x)));
        lemma_code_nonempty(t, c, x);
        assert forall|k: int| 0 <= k < rest.len() implies token_ok(#[trigger] rest[k]) && codes[sym_of(rest[k])] is Some by {
            assert(rest[k] == toks[k + 1]);
        }
        assert(s.subrange(p, p + c.len()) =~= c) by {
            assert(s.subrange(p, p + c.len()) =~= (all + eof).subrange(0, c.len() as int));
        }
        lemma_decode_path(t, c, s, p, x);
        let q = p + c.len();
        match tok {
            Lz77Token::Literal(b) => {
                assert(e == c);
                assert(s.subrange(q, q + er.len() + eof.len()) =~= er + eof) by {
                    assert(s.subrange(q, q + er.len() + eof.len()) =~= (all + eof).subrange(c.len() as int, (all + eof).len() as int));
                }
                assert((x as u8) == b);
                lemma_decode_tokens(t, codes, s, q, rest, out.push(b), fin);
            },
            Lz77Token::Match { length, distance } => {
                let lb = bits_of((length - 3) as nat, 8);
                let db = bits_of(distance as nat, 16);
                lemma_bits_len((length - 3) as nat, 8);
                lemma_bits_len(distance as nat, 16);
                assert(e == c + lb + db);
                assert(s.subrange(q, q + 8) =~= lb) by {
                    assert(s.subrange(q, q + 8) =~= (all + eof).subrange(c.len() as int, c.len() as int + 8));
                }
                assert(s.subrange(q + 8, q + 24) =~= db) by {
                    assert(s.subrange(q + 8, q + 24) =~= (all + eof).subrange(c.len() as int + 8, c.len() as int + 24));
                }
                lemma_two_pow_8();
                lemma_val_bits((length - 3) as nat, 8);
                lemma_val_bits(distance as nat, 16);
                if !(1 <= distance <= out.len()) {
                    lemma_run_none(rest);
                }
                assert(s.subrange(q + 24, q + 24 + er.len() + eof.len()) =~= er + eof) by {
                    assert(s.subrange(q + 24, q + 24 + er.len() + eof.len()) =~= (all + eof).subrange(
                        c.len() as int + 24,
                        (all + eof).len() as int,
                    ));
                }
                assert((length - 3) as nat + 3 == length as nat);
                lemma_decode_tokens(t, codes, s, q + 24, rest, copy_back(out, distance as int, length as nat), fin);
            },
        }
    }
}

proof fn lemma_freq_bump(f: Seq<usize>, i: int, n: int)
    requires
        0 <= i < f.len(),
        n <= f.len(),
        f[i] < usize::MAX,
    ensures
        freq_total(f.update(i, (f[i] + 1) as usize), n) == freq_total(f, n) + (if 0 <= i < n {
            1int
        } else {
            0int
        }),
    decreases n,
{
    if n > 0 {
        lemma_freq_bump(f, i, n - 1);
        assert(f.update(i, (f[i] + 1) as usize)[n - 1] == if n - 1 == i {
            (f[i] + 1) as usize
        } else {
            f[n - 1]
        });
    }
}

proof fn lemma_freq_entry(f: Seq<usize>, i: int, n: int)
    requires
        0 <= i < n <= f.len(),
    ensures
        f[i] <= freq_total(f, n),
    decreases n,
{
    if i < n - 1 {
        lemma_freq_entry(f, i, n - 1);
    }
}

/// Appends the bits of a code.
fn write_code(writer: &mut BitWriter, code: &Vec<bool>)
    requires
        old(writer).wf(),
    ensures
        final(writer).wf(),
        final(writer).view() == old(writer).view() + code@,
{
    let mut i: usize = 0;
    while i < code.len()
        invariant
            writer.wf(),
            i <= code@.len(),
            writer.view() == old(writer).view() + code@.take(i as int),
        decreases code@.len() - i,
    {
        writer.push_bit(code[i]);
        proof {
            assert(code@.take(i as int + 1) =~= code@.take(i as int).push(code@[i as int]));
        }
        i = i + 1;
    }
    proof {
        assert(code@.take(i as int) =~= code@);
    }
}

/// A compression scheme: `decompress` gives back what `compress` was given.
pub trait Compressor {
    /// What decompressing `data` gives.
    spec fn inflated(data: Seq<u8>) -> Inflated;

    /// Compresses `data`.
    fn compress(data: &[u8]) -> (r: Vec<u8>)
        requires
            data@.len() < usize::MAX,
        ensures
            Self::inflated(r@) == Inflated::Done(data@),
    ;

    /// Decompresses what `compress` produced.
    fn decompress(data: &[u8]) -> (r: Result<Vec<u8>, &'static str>)
        requires
            !(Self::inflated(data@) is Stuck),
        ensures
            match (r, Self::inflated(data@)) {
                (Ok(v), Inflated::Done(o)) => v@ == o,
                (Err(m), Inflated::Failed(sm)) => m@ == sm,
                _ => false,
            },
    ;
}

impl Compressor for Deflate {
    open spec fn inflated(data: Seq<u8>) -> Inflated {
        inflate(data)
    }

    /// The code tree, then each token's code (a match followed by its length less 3 in eight
    /// bits and its distance in sixteen), then the end marker, padded to a whole byte.
    fn compress(data: &[u8]) -> (r: Vec<u8>) {
        if data.len() == 0 {
            proof {
                assert(data@ =~= Seq::<u8>::empty());
            }
            return Vec::new();
        }
        let tokens = Self::lz77_compress(data);
        proof {
            if tokens@.len() == 0 {
                assert(data@ =~= Seq::<u8>::empty());
            }
        }
        let mut freqs: Vec<usize> = Vec::new();
        while freqs.len() < 258
            invariant
                freqs@.len() <= 258,
                forall|s: int| 0 <= s < freqs@.len() ==> freqs@[s] == 0,
            decreases 258 - freqs@.len(),
        {
            freqs.push(0);
        }
        proof {
            assert(freq_total(freqs@, 258) == 0) by {
                lemma_freq_zero(freqs@, 258);
            }
        }
        let mut k: usize = 0;
        while k < tokens.len()
            invariant
                freqs@.len() == 258,
                k <= tokens@.len() <= data@.len() < usize::MAX,
                freq_total(freqs@, 258) == k,
                forall|j: int| 0 <= j < k ==> freqs@[sym_of(#[trigger] tokens@[j])] > 0,
            decreases tokens@.len() - k,
        {
            let sym: usize = match tokens[k] {
                Lz77Token::Literal(b) => b as usize,
                Lz77Token::Match { .. } => 256,
            };
            proof {
                lemma_freq_entry(freqs@, sym as int, 258);
                lemma_freq_bump(freqs@, sym as int, 258);
            }
            let bumped = freqs[sym] + 1;
            freqs.set(sym, bumped);
            k = k + 1;
        }
        proof {
            lemma_freq_entry(freqs@, 257, 258);
            lemma_freq_bump(freqs@, 257, 258);
        }
        let bumped = freqs[257] + 1;
        freqs.set(257, bumped);
        proof {
            assert(freqs@[sym_of(tokens@[0])] > 0);
            assert(two_symbols(freqs@));
        }
        let tree = match Self::build_huffman_tree(&freqs) {
            Some(t) => t,
            None => {
                proof {
                    assert(freqs@[257] > 0);
                }
                return Vec::new();
            },
        };
        let ghost t = shape(*tree);
        let mut codes: Vec<Option<Vec<bool>>> = Vec::new();
        while codes.len() < 258
            invariant
                codes@.len() <= 258,
                forall|s: int| 0 <= s < codes@.len() ==> (#[trigger] codes@[s]) is None,
            decreases 258 - codes@.len(),
        {
            codes.push(None);
        }
        let mut path: Vec<bool> = Vec::new();
        Self::generate_codes(&tree, &mut path, &mut codes, Ghost(t));
        proof {
            assert forall|s: int| 0 <= s < 258 && freqs@[s] > 0 implies (#[trigger] codes@[s]) is Some by {
                assert(has_leaf(t, s));
            }
            assert forall|j: int| 0 <= j < tokens@.len() implies token_ok(#[trigger] tokens@[j]) && codes@[sym_of(tokens@[j])] is Some by {
                assert(freqs@[sym_of(tokens@[j])] > 0);
            }
        }
        let mut writer = BitWriter::new();
        Self::serialize_tree(&tree, &mut writer);
        let ghost header = ser(t);
        let mut k: usize = 0;
        proof {
            assert(tokens@.take(0) =~= Seq::<Lz77Token>::empty());
            assert(writer.view() =~= header + enc_all(codes@, tokens@.take(0)));
        }
        while k < tokens.len()
            invariant
                writer.wf(),
                k <= tokens@.len(),
                codes@.len() == 258,
                forall|j: int| 0 <= j < tokens@.len() ==> token_ok(#[trigger] tokens@[j]) && codes@[sym_of(tokens@[j])] is Some,
                writer.view() == header + enc_all(codes@, tokens@.take(k as int)),
            decreases tokens@.len() - k,
        {
            let tok = tokens[k];
            let ghost before = writer.view();
            proof {
                assert(token_ok(tokens@[k as int]) && codes@[sym_of(tokens@[k as int])] is Some);
            }
            match tok {
                Lz77Token::Literal(b) => {
                    match &codes[b as usize] {
                        Some(c) => write_code(&mut writer, c),
                        None => {},
                    }
                },
                Lz77Token::Match { length, distance } => {
                    match &codes[256] {
                        Some(c) => write_code(&mut writer, c),
                        None => {},
                    }
                    writer.write_bits((length - 3) as u64, 8);
                    writer.write_bits(distance as u64, 16);
                },
            }
            proof {
                lemma_enc_push(codes@, tokens@.take(k as int), tok);
                assert(tokens@.take(k as int + 1) =~= tokens@.take(k as int).push(tok));
                assert(writer.view() =~= before + enc(codes@, tok));
            }
            k = k + 1;
        }
        proof {
            assert(tokens@.take(k as int) =~= tokens@);
            assert(codes@[257] is Some) by {
                assert(freqs@[257] > 0);
            }
        }
        let ghost body = writer.view();
        match &codes[257] {
            Some(c) => write_code(&mut writer, c),
            None => {},
        }
        let ghost pad_len: nat = writer.padding();
        let ghost v = writer.view();
        let out = writer.flush();
        proof {
            let s = bytes_bits(out@);
            let eof = code_of(codes@, 257);
            let all = enc_all(codes@, tokens@);
            assert(v == header + all + eof);
            assert(s == header + all + eof + bits_of(0, pad_len));
            lemma_bytes_bits_len(out@);
            assert(syms_below(t, 512)) by {
                lemma_syms_below_mono(t, 258, 512);
            }
            assert(s.subrange(0, header.len() as int) =~= header);
            lemma_parse_ser(t, s, 0);
            lemma_tree_ser_nonempty(t);
            assert(out@.len() > 0);
            let p = header.len() as int;
            assert(s.subrange(p, p + all.len() + eof.len()) =~= all + eof);
            assert(run_tokens(Some(Seq::<u8>::empty()), tokens@) == Some(data@));
            lemma_decode_tokens(t, codes@, s, p, tokens@, seq![], data@);
        }
        out
    }

    /// Reads the code tree, then decodes symbols until the end marker.
    fn decompress(data: &[u8]) -> (r: Result<Vec<u8>, &'static str>) {
        if data.len() == 0 {
            return Ok(Vec::new());
        }
        let mut reader = BitReader::new(data);
        let tree = match Self::deserialize_tree(&mut reader) {
            Some(t) => t,
            None => {
                return Err("Failed to read Huffman tree");
            },
        };
        let ghost s = reader.stream();
        let ghost t = shape(*tree);
        let mut out: Vec<u8> = Vec::new();
        proof {
            lemma_bytes_bits_len(data@);
            lemma_parse_advances(s, 0);
        }
        loop
            invariant
                reader.wf(),
                reader.stream() == s,
                s == bytes_bits(data@),
                s.len() == 8 * data@.len(),
                full(*tree),
                shape(*tree) == t,
                0 <= reader.pos() <= s.len(),
                inflate(data@) == inflate_from(t, s, reader.pos(), out@),
                !(inflate(data@) is Stuck),
            decreases s.len() - reader.pos(),
        {
            let ghost p = reader.pos();
            proof {
                lemma_decode_advances(t, s, p);
            }
            let symbol = match Self::decode_walk(&tree, &mut reader) {
                Ok(x) => x,
                Err(m) => {
                    return Err(m);
                },
            };
            if symbol == 257 {
                return Ok(out);
            } else if symbol == 256 {
                let ghost q = reader.pos();
                let len_encoded = match reader.read_bits(8) {
                    Some(v) => v,
                    None => {
                        return Err("Unexpected end of stream reading match length");
                    },
                };
                let distance = match reader.read_bits(16) {
                    Some(v) => v,
                    None => {
                        return Err("Unexpected end of stream reading match distance");
                    },
                };
                proof {
                    lemma_val_bound(s.subrange(q, q + 8));
                    lemma_val_bound(s.subrange(q + 8, q + 24));
                    lemma_two_pow_8();
                    assert(inflate_from(t, s, p, out@) == (if distance > out@.len() {
                        Inflated::Failed("Invalid match distance"@)
                    } else if distance == 0 {
                        Inflated::Stuck
                    } else {
                        inflate_from(t, s, q + 24, copy_back(out@, distance as int, (len_encoded + 3) as nat))
                    }));
                }
                let length = len_encoded as u16 + 3;
                if distance as usize > out.len() {
                    return Err("Invalid match distance");
                }
                let ghost target = copy_back(out@, distance as int, length as nat);
                let mut i: u16 = 0;
                while i < length
                    invariant
                        i <= length,
                        1 <= distance,
                        distance < 65536,
                        out@.len() >= distance,
                        copy_back(out@, distance as int, (length - i) as nat) == target,
                    decreases length - i,
                {
                    let b = out[out.len() - distance as usize];
                    out.push(b);
                    i = i + 1;
                }
                proof {
                    assert(copy_back(out@, distance as int, 0) == out@);
                }
            } else {
                out.push(symbol as u8);
            }
        }
    }
}

proof fn lemma_freq_zero(f: Seq<usize>, n: int)
    requires
        0 <= n <= f.len(),
        forall|s: int| 0 <= s < f.len() ==> f[s] == 0,
    ensures
        freq_total(f, n) == 0,
    decreases n,
{
    if n > 0 {
        lemma_freq_zero(f, n - 1);
    }
}

proof fn lemma_syms_below_mono(t: HTree, a: int, b: int)
    requires
        syms_below(t, a),
        a <= b,
    ensures
        syms_below(t, b),
    decreases t,
{
    match t {
        HTree::Leaf(_) => {},
        HTree::Node(l, r) => {
            lemma_syms_below_mono(*l, a, b);
            lemma_syms_below_mono(*r, a, b);
        },
    }
}

proof fn lemma_tree_ser_nonempty(t: HTree)
    ensures
        ser(t).len() > 0,
{
}

/// Round trip: a stream that `compress` returned for `data` meets what `decompress` requires,
/// and whatever `decompress` answers on it, as its contract allows, is `Ok` with exactly `data`.
pub proof fn lemma_round_trip(data: Seq<u8>, packed: Seq<u8>, r: Result<Vec<u8>, &'static str>)
    requires
        Deflate::inflated(packed) == Inflated::Done(data),
        match (r, Deflate::inflated(packed)) {
            (Ok(v), Inflated::Done(o)) => v@ == o,
            (Err(m), Inflated::Failed(sm)) => m@ == sm,
            _ => false,
        },
    ensures
        !(Deflate::inflated(packed) is Stuck),
        r matches Ok(v) && v@ == data,
{
}

} // verus!
