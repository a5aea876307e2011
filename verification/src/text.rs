//! Character-level helpers shared by the formatters and parsers of the crate.

use vstd::prelude::*;

verus! {

/// The decimal digit character for `d` (0..=9).
pub open spec fn digit_char(d: int) -> char {
    (('0' as u8) + d) as char
}

/// The decimal representation of `n`, without leading zeros ("0" for zero).
pub open spec fn decimal(n: nat) -> Seq<char>
    decreases n,
{
    if n < 10 {
        seq![digit_char(n as int)]
    } else {
        decimal(n / 10).push(digit_char((n % 10) as int))
    }
}

/// `k` copies of the character '0'.
pub open spec fn zeros(k: nat) -> Seq<char> {
    Seq::new(k, |i: int| '0')
}

/// The decimal representation of `n`, left-padded with zeros to at least `width` characters.
pub open spec fn zero_padded(n: nat, width: nat) -> Seq<char> {
    let d = decimal(n);
    if d.len() >= width {
        d
    } else {
        zeros((width - d.len()) as nat) + d
    }
}

/// Rust's `{:0w}` rendering of a signed integer: the sign counts toward the width.
pub open spec fn signed_zero_padded(n: int, width: nat) -> Seq<char> {
    if n < 0 {
        seq!['-'] + zero_padded((-n) as nat, if width > 0 { (width - 1) as nat } else { 0 })
    } else {
        zero_padded(n as nat, width)
    }
}

/// `String::push`: appends one character.
#[verifier::external_body]
pub fn string_push(s: &mut String, c: char)
    ensures
        final(s)@ == old(s)@.push(c),
{
    s.push(c);
}

/// The characters of `s` as a vector.
pub fn chars_of(s: &str) -> (out: Vec<char>)
    ensures
        out@ == s@,
{
    let n = s.unicode_len();
    let mut out: Vec<char> = Vec::new();
    let mut i: usize = 0;
    while i < n
        invariant
            n == s@.len(),
            i <= n,
            out@ == s@.subrange(0, i as int),
        decreases n - i,
    {
        let c = s.get_char(i);
        out.push(c);
        i = i + 1;
    }
    out
}

/// A string holding the characters of `cs`.
pub fn string_of(cs: &[char]) -> (out: String)
    ensures
        out@ == cs@,
{
    let mut out = String::new();
    let mut i: usize = 0;
    while i < cs.len()
        invariant
            i <= cs@.len(),
            out@ == cs@.subrange(0, i as int),
        decreases cs@.len() - i,
    {
        string_push(&mut out, cs[i]);
        i = i + 1;
    }
    out
}

/// The decimal digits of `n`, as characters.
pub fn decimal_chars(n: u64) -> (out: Vec<char>)
    ensures
        out@ == decimal(n as nat),
    decreases n,
{
    if n < 10 {
        let c = ((48u8 + n as u8) as char);
        let mut v: Vec<char> = Vec::new();
        v.push(c);
        proof {
            assert(c == digit_char(n as int));
        }
        v
    } else {
        let mut v = decimal_chars(n / 10);
        let c = ((48u8 + (n % 10) as u8) as char);
        proof {
            assert(c == digit_char((n % 10) as int));
        }
        v.push(c);
        v
    }
}

/// Appends `n` in decimal, left-padded with zeros to `width` characters.
pub fn push_zero_padded(s: &mut String, n: u64, width: usize)
    ensures
        final(s)@ == old(s)@ + zero_padded(n as nat, width as nat),
{
    let d = decimal_chars(n);
    let ghost start = s@;
    if d.len() < width {
        let pad = width - d.len();
        let mut i: usize = 0;
        while i < pad
            invariant
                i <= pad,
                s@ == start + zeros(i as nat),
            decreases pad - i,
        {
            string_push(s, '0');
            i = i + 1;
            proof {
                assert(zeros(i as nat) =~= zeros((i - 1) as nat).push('0'));
            }
        }
    }
    let ghost mid = s@;
    let mut j: usize = 0;
    while j < d.len()
        invariant
            j <= d@.len(),
            s@ == mid + d@.subrange(0, j as int),
        decreases d@.len() - j,
    {
        string_push(s, d[j]);
        j = j + 1;
        proof {
            assert(d@.subrange(0, j as int) =~= d@.subrange(0, j - 1).push(d@[j - 1]));
        }
    }
    proof {
        assert(d@.subrange(0, d@.len() as int) =~= d@);
        if d@.len() < width {
            assert(s@ =~= start + (zeros((width - d@.len()) as nat) + d@));
        } else {
            assert(s@ =~= start + d@);
        }
    }
}

/// Appends `n` in decimal like Rust's `{:0w}`: a leading '-' for negatives, counted in the width.
pub fn push_signed_zero_padded(s: &mut String, n: i64, width: usize)
    requires
        n > i64::MIN,
    ensures
        final(s)@ == old(s)@ + signed_zero_padded(n as int, width as nat),
{
    if n < 0 {
        let ghost start = s@;
        string_push(s, '-');
        let w = if width > 0 { width - 1 } else { 0 };
        push_zero_padded(s, (-n) as u64, w);
        proof {
            assert(s@ =~= start + (seq!['-'] + zero_padded((-n) as nat, w as nat)));
        }
    } else {
        push_zero_padded(s, n as u64, width);
    }
}

/// Whether two strings hold the same characters.
pub fn str_eq(a: &str, b: &str) -> (r: bool)
    ensures
        r == (a@ == b@),
{
    let n = a.unicode_len();
    if n != b.unicode_len() {
        return false;
    }
    let mut i: usize = 0;
    while i < n
        invariant
            n == a@.len(),
            n == b@.len(),
            i <= n,
            a@.subrange(0, i as int) == b@.subrange(0, i as int),
        decreases n - i,
    {
        if a.get_char(i) != b.get_char(i) {
            return false;
        }
        assert(a@.subrange(0, i + 1) =~= a@.subrange(0, i as int).push(a@[i as int]));
        assert(b@.subrange(0, i + 1) =~= b@.subrange(0, i as int).push(b@[i as int]));
        i = i + 1;
    }
    assert(a@ =~= a@.subrange(0, n as int));
    assert(b@ =~= b@.subrange(0, n as int));
    true
}

/// Index of the last name equal to `k`, or -1.
pub open spec fn name_pos(names: Seq<Seq<char>>, k: Seq<char>) -> int
    decreases names.len(),
{
    if names.len() == 0 {
        -1
    } else if names.last() == k {
        names.len() - 1
    } else {
        name_pos(names.drop_last(), k)
    }
}

pub proof fn lemma_name_pos(names: Seq<Seq<char>>, k: Seq<char>)
    ensures
        -1 <= name_pos(names, k) < names.len(),
        name_pos(names, k) >= 0 ==> names[name_pos(names, k)] == k,
        name_pos(names, k) < 0 ==> forall|i: int| 0 <= i < names.len() ==> #[trigger] names[i] != k,
    decreases names.len(),
{
    if names.len() > 0 && names.last() != k {
        lemma_name_pos(names.drop_last(), k);
        if name_pos(names, k) < 0 {
            assert forall|i: int| 0 <= i < names.len() implies #[trigger] names[i] != k by {
                if i < names.len() - 1 {
                    assert(names[i] == names.drop_last()[i]);
                }
            }
        }
    }
}

/// With distinct names, the position of a name is where it stands.
pub proof fn lemma_name_pos_distinct(names: Seq<Seq<char>>, i: int)
    requires
        0 <= i < names.len(),
        forall|a: int, b: int| 0 <= a < b < names.len() ==> names[a] != names[b],
    ensures
        name_pos(names, names[i]) == i,
    decreases names.len(),
{
    if i < names.len() - 1 {
        assert(names.drop_last()[i] == names[i]);
        lemma_name_pos_distinct(names.drop_last(), i);
    }
}

} // verus!
