//! Parsing and matching of five-field cron expressions ("minute hour day-of-month month
//! day-of-week") with lists, ranges, steps and wildcards, stored as bit masks.

use vstd::prelude::*;
use crate::text::chars_of;

verus! {

#[derive(Debug, Clone, Copy, PartialEq, Eq, Structural)]
pub enum CronError {
    InvalidFormat,
    InvalidField,
    ValueOutOfBounds,
    InvalidStep,
    InvalidRange,
}

/// The human-readable description of an error.
pub open spec fn error_text(e: CronError) -> Seq<char> {
    match e {
        CronError::InvalidFormat => "Invalid cron format (expected 5 fields)"@,
        CronError::InvalidField => "Invalid field syntax"@,
        CronError::ValueOutOfBounds => "Value out of bounds"@,
        CronError::InvalidStep => "Invalid step value"@,
        CronError::InvalidRange => "Invalid range (start > end)"@,
    }
}

impl CronError {
    /// The human-readable description of the error.
    pub fn message(&self) -> (r: &'static str)
        ensures
            r@ == error_text(*self),
    {
        match self {
            CronError::InvalidFormat => "Invalid cron format (expected 5 fields)",
            CronError::InvalidField => "Invalid field syntax",
            CronError::ValueOutOfBounds => "Value out of bounds",
            CronError::InvalidStep => "Invalid step value",
            CronError::InvalidRange => "Invalid range (start > end)",
        }
    }
}

// ---------------------------------------------------------------------------------------------
// Text splitting
// ---------------------------------------------------------------------------------------------

/// Unicode White_Space, as `str::split_whitespace` uses it.
pub open spec fn is_ws(c: char) -> bool {
    c == ' ' || ('\u{9}' <= c && c <= '\u{d}') || c == '\u{85}' || c == '\u{a0}' || c == '\u{1680}'
        || ('\u{2000}' <= c && c <= '\u{200a}') || c == '\u{2028}' || c == '\u{2029}' || c == '\u{202f}'
        || c == '\u{205f}' || c == '\u{3000}'
}

pub(crate) fn is_ws_exec(c: char) -> (r: bool)
    ensures
        r == is_ws(c),
{
    c == ' ' || ('\u{9}' <= c && c <= '\u{d}') || c == '\u{85}' || c == '\u{a0}' || c == '\u{1680}'
        || ('\u{2000}' <= c && c <= '\u{200a}') || c == '\u{2028}' || c == '\u{2029}' || c == '\u{202f}'
        || c == '\u{205f}' || c == '\u{3000}'
}

/// Index of the first occurrence of `c` in `s`, or -1.
pub open spec fn first_index(s: Seq<char>, c: char) -> int
    decreases s.len(),
{
    if s.len() == 0 {
        -1
    } else if s[0] == c {
        0
    } else {
        let r = first_index(s.drop_first(), c);
        if r < 0 { -1 } else { r + 1 }
    }
}

pub proof fn lemma_first_index(s: Seq<char>, c: char)
    ensures
        -1 <= first_index(s, c) < s.len(),
        first_index(s, c) >= 0 ==> s[first_index(s, c)] == c,
        forall|j: int| 0 <= j < s.len() && (first_index(s, c) < 0 || j < first_index(s, c)) ==> s[j] != c,
    decreases s.len(),
{
    if s.len() > 0 {
        lemma_first_index(s.drop_first(), c);
        assert forall|j: int| 1 <= j < s.len() implies s[j] == s.drop_first()[j - 1] by {}
    }
}

pub(crate) fn find_char(s: &Vec<char>, lo: usize, hi: usize, c: char) -> (r: Option<usize>)
    requires
        lo <= hi <= s@.len(),
    ensures
        first_index(s@.subrange(lo as int, hi as int), c) == (match r {
            Some(i) => i - lo,
            None => -1,
        }),
        r matches Some(i) ==> lo <= i < hi,
{
    let ghost t = s@.subrange(lo as int, hi as int);
    proof {
        lemma_first_index(t, c);
    }
    let mut i = lo;
    while i < hi
        invariant
            lo <= i <= hi <= s@.len(),
            t == s@.subrange(lo as int, hi as int),
            forall|j: int| lo <= j < i ==> s@[j] != c,
        decreases hi - i,
    {
        if s[i] == c {
            proof {
                lemma_first_index(t, c);
                assert(t[i - lo] == c);
                assert forall|j: int| 0 <= j < i - lo implies t[j] != c by {
                    assert(t[j] == s@[lo + j]);
                }
                let f = first_index(t, c);
                if f < 0 || f > i - lo {
                    assert(t[i - lo] != c);
                }
                if 0 <= f < i - lo {
                    assert(t[f] == c);
                    assert(t[f] != c);
                }
            }
            return Some(i);
        }
        i = i + 1;
    }
    proof {
        assert forall|j: int| 0 <= j < t.len() implies t[j] != c by {
            assert(t[j] == s@[lo + j]);
        }
    }
    None
}

/// The pieces of `s` between occurrences of `c` (`str::split`).
pub open spec fn split_on(s: Seq<char>, c: char) -> Seq<Seq<char>>
    decreases s.len(),
{
    let i = first_index(s, c);
    if i < 0 {
        seq![s]
    } else {
        proof {
            lemma_first_index(s, c);
        }
        seq![s.take(i)] + split_on(s.skip(i + 1), c)
    }
}

/// The maximal runs of non-whitespace characters of `s` (`str::split_whitespace`).
pub open spec fn words(s: Seq<char>) -> Seq<Seq<char>>
    decreases s.len(),
{
    if s.len() == 0 {
        Seq::empty()
    } else if is_ws(s[0]) {
        words(s.drop_first())
    } else {
        let n = word_len(s);
        proof {
            lemma_word_len(s);
        }
        seq![s.take(n)] + words(s.skip(n))
    }
}

/// Length of the run of non-whitespace characters at the start of `s`.
pub open spec fn word_len(s: Seq<char>) -> int
    decreases s.len(),
{
    if s.len() == 0 || is_ws(s[0]) { 0 } else { 1 + word_len(s.drop_first()) }
}

pub proof fn lemma_word_len(s: Seq<char>)
    ensures
        0 <= word_len(s) <= s.len(),
        s.len() > 0 && !is_ws(s[0]) ==> word_len(s) >= 1,
        forall|j: int| 0 <= j < word_len(s) ==> !is_ws(#[trigger] s[j]),
        word_len(s) < s.len() ==> is_ws(s[word_len(s)]),
    decreases s.len(),
{
    if s.len() > 0 && !is_ws(s[0]) {
        lemma_word_len(s.drop_first());
        assert forall|j: int| 1 <= j < s.len() implies s[j] == s.drop_first()[j - 1] by {}
    }
}

// ---------------------------------------------------------------------------------------------
// Numbers and masks
// ---------------------------------------------------------------------------------------------

pub open spec fn is_digit(c: char) -> bool {
    '0' <= c && c <= '9'
}

pub open spec fn all_digits(s: Seq<char>) -> bool {
    forall|i: int| 0 <= i < s.len() ==> is_digit(#[trigger] s[i])
}

pub open spec fn digits_value(s: Seq<char>) -> int
    decreases s.len(),
{
    if s.len() == 0 { 0 } else { digits_value(s.drop_last()) * 10 + (s.last() as int - '0' as int) }
}

/// `str::parse::<u8>`: an optional '+', then one or more ASCII digits with value at most 255.
pub open spec fn parse_u8_spec(s: Seq<char>) -> Option<u8> {
    let ds = if s.len() > 0 && s[0] == '+' { s.skip(1) } else { s };
    if ds.len() == 0 || !all_digits(ds) || digits_value(ds) > 255 {
        None
    } else {
        Some(digits_value(ds) as u8)
    }
}

/// The value of a prefix of a run of digits is at most the value of the whole run.
pub proof fn lemma_digits_value_monotone(s: Seq<char>, i: int)
    requires
        all_digits(s),
        0 <= i <= s.len(),
    ensures
        digits_value(s.take(i)) <= digits_value(s),
        digits_value(s.take(i)) >= 0,
    decreases s.len() - i,
{
    if i < s.len() {
        lemma_digits_value_monotone(s, i + 1);
        assert(s.take(i + 1).drop_last() =~= s.take(i));
        lemma_digits_nonneg(s.take(i));
    } else {
        assert(s.take(i) =~= s);
        lemma_digits_nonneg(s);
    }
}

proof fn lemma_digits_nonneg(s: Seq<char>)
    requires
        all_digits(s),
    ensures
        digits_value(s) >= 0,
    decreases s.len(),
{
    if s.len() > 0 {
        assert(all_digits(s.drop_last())) by {
            assert forall|i: int| 0 <= i < s.drop_last().len() implies is_digit(#[trigger] s.drop_last()[i]) by {
                assert(s.drop_last()[i] == s[i]);
            }
        }
        lemma_digits_nonneg(s.drop_last());
        assert(is_digit(s[s.len() - 1]));
    }
}

fn parse_u8(s: &Vec<char>, lo: usize, hi: usize) -> (r: Option<u8>)
    requires
        lo <= hi <= s@.len(),
    ensures
        r == parse_u8_spec(s@.subrange(lo as int, hi as int)),
{
    let ghost t = s@.subrange(lo as int, hi as int);
    let mut start = lo;
    if lo < hi && s[lo] == '+' {
        start = lo + 1;
    }
    let ghost ds = s@.subrange(start as int, hi as int);
    proof {
        if lo < hi && s@[lo as int] == '+' {
            assert(ds =~= t.skip(1));
        } else {
            assert(ds =~= t);
        }
    }
    if start == hi {
        return None;
    }
    assert(ds == (if t.len() > 0 && t[0] == '+' { t.skip(1) } else { t }));
    let mut acc: u32 = 0;
    let mut i = start;
    while i < hi
        invariant
            lo <= start <= i <= hi <= s@.len(),
            ds == s@.subrange(start as int, hi as int),
            t == s@.subrange(lo as int, hi as int),
            ds == (if t.len() > 0 && t[0] == '+' { t.skip(1) } else { t }),
            ds.len() > 0,
            acc as int == digits_value(ds.take(i - start)),
            acc <= 255,
            all_digits(ds.take(i - start)),
        decreases hi - i,
    {
        let c = s[i];
        proof {
            assert(ds.take(i - start + 1).drop_last() =~= ds.take(i - start));
            assert(ds.take(i - start + 1).last() == c);
        }
        proof {
            assert(ds[i - start] == c);
        }
        if !('0' <= c && c <= '9') {
            proof {
                assert(!is_digit(ds[i - start]));
                assert(!all_digits(ds));
            }
            return None;
        }
        let d = (c as u32) - ('0' as u32);
        acc = acc * 10 + d;
        proof {
            assert(all_digits(ds.take(i - start + 1))) by {
                assert forall|q: int| 0 <= q < ds.take(i - start + 1).len() implies is_digit(#[trigger] ds.take(i - start + 1)[q]) by {
                    if q < i - start {
                        assert(ds.take(i - start + 1)[q] == ds.take(i - start)[q]);
                    }
                }
            }
        }
        proof {
            assert(acc as int == digits_value(ds.take(i - start + 1)));
        }
        if acc > 255 {
            proof {
                if all_digits(ds) {
                    lemma_digits_value_monotone(ds, i - start + 1);
                    assert(digits_value(ds) > 255);
                }
            }
            return None;
        }
        i = i + 1;
    }
    proof {
        assert(ds.take(hi - start) =~= ds);
    }
    Some(acc as u8)
}

/// The mask `m` with the bits `lo, lo + step, ...` up to `hi` set.
pub open spec fn mask_steps(m: u64, lo: int, hi: int, step: int) -> u64
    decreases (if hi >= lo { hi - lo + 1 } else { 0 }),
{
    if step <= 0 || lo > hi || lo < 0 || lo >= 64 {
        m
    } else {
        mask_steps(m | (1u64 << (lo as u64)), lo + step, hi, step)
    }
}

fn set_steps(m: u64, lo: u8, hi: u8, step: u8) -> (r: u64)
    requires
        hi < 64,
        step > 0,
    ensures
        r == mask_steps(m, lo as int, hi as int, step as int),
{
    let mut mask = m;
    let mut v: u64 = lo as u64;
    while v <= hi as u64
        invariant
            hi < 64,
            step > 0,
            v >= lo,
            v <= hi as u64 + 256,
            mask_steps(mask, v as int, hi as int, step as int) == mask_steps(m, lo as int, hi as int, step as int),
        decreases hi as u64 + 256 - v,
    {
        mask = mask | (1u64 << v);
        v = v + step as u64;
    }
    mask
}

/// The mask after applying one comma-separated part of a field to `m`.
pub open spec fn apply_range(m: u64, r: Seq<char>, min: u8, max: u8, step: int) -> Result<u64, CronError> {
    let dash = first_index(r, '-');
    if dash < 0 {
        Err(CronError::InvalidField)
    } else {
        match (parse_u8_spec(r.take(dash)), parse_u8_spec(r.skip(dash + 1))) {
            (None, _) => Err(CronError::InvalidField),
            (_, None) => Err(CronError::InvalidField),
            (Some(start), Some(end)) => {
                if start < min || end > max {
                    Err(CronError::ValueOutOfBounds)
                } else if start > end {
                    Err(CronError::InvalidRange)
                } else {
                    Ok(mask_steps(m, start as int, end as int, step))
                }
            },
        }
    }
}

pub open spec fn apply_part(m: u64, p: Seq<char>, min: u8, max: u8) -> Result<u64, CronError> {
    let slash = first_index(p, '/');
    if slash >= 0 {
        let range_str = p.take(slash);
        match parse_u8_spec(p.skip(slash + 1)) {
            None => Err(CronError::InvalidStep),
            Some(step) => {
                if step == 0 {
                    Err(CronError::InvalidStep)
                } else if range_str == seq!['*'] {
                    Ok(mask_steps(m, min as int, max as int, step as int))
                } else {
                    apply_range(m, range_str, min, max, step as int)
                }
            },
        }
    } else if p == seq!['*'] {
        Ok(mask_steps(m, min as int, max as int, 1))
    } else if first_index(p, '-') >= 0 {
        apply_range(m, p, min, max, 1)
    } else {
        match parse_u8_spec(p) {
            None => Err(CronError::InvalidField),
            Some(v) => {
                if v < min || v > max {
                    Err(CronError::ValueOutOfBounds)
                } else {
                    Ok(m | (1u64 << (v as u64)))
                }
            },
        }
    }
}

pub open spec fn apply_parts(m: u64, parts: Seq<Seq<char>>, min: u8, max: u8) -> Result<u64, CronError>
    decreases parts.len(),
{
    if parts.len() == 0 {
        Ok(m)
    } else {
        match apply_part(m, parts[0], min, max) {
            Err(e) => Err(e),
            Ok(m2) => apply_parts(m2, parts.drop_first(), min, max),
        }
    }
}

/// The mask that a field denotes, values `min..=max`.
pub open spec fn field_spec(field: Seq<char>, min: u8, max: u8) -> Result<u64, CronError> {
    apply_parts(0, split_on(field, ','), min, max)
}

fn is_star(s: &Vec<char>, lo: usize, hi: usize) -> (r: bool)
    requires
        lo <= hi <= s@.len(),
    ensures
        r == (s@.subrange(lo as int, hi as int) == seq!['*']),
{
    let r = hi - lo == 1 && s[lo] == '*';
    proof {
        if r {
            assert(s@.subrange(lo as int, hi as int) =~= seq!['*']);
        } else if s@.subrange(lo as int, hi as int) == seq!['*'] {
            assert(s@.subrange(lo as int, hi as int).len() == 1);
            assert(s@.subrange(lo as int, hi as int)[0] == '*');
            assert(s@[lo as int] == '*');
        }
    }
    r
}

fn range_mask(m: u64, s: &Vec<char>, lo: usize, hi: usize, min: u8, max: u8, step: u8) -> (r: Result<u64, CronError>)
    requires
        lo <= hi <= s@.len(),
        max < 64,
        step > 0,
    ensures
        r == apply_range(m, s@.subrange(lo as int, hi as int), min, max, step as int),
{
    let ghost t = s@.subrange(lo as int, hi as int);
    match find_char(s, lo, hi, '-') {
        None => Err(CronError::InvalidField),
        Some(d) => {
            proof {
                assert(t.take(d - lo) =~= s@.subrange(lo as int, d as int));
                assert(t.skip(d - lo + 1) =~= s@.subrange(d + 1, hi as int));
            }
            let start = parse_u8(s, lo, d);
            let end = parse_u8(s, d + 1, hi);
            match (start, end) {
                (None, _) => Err(CronError::InvalidField),
                (_, None) => Err(CronError::InvalidField),
                (Some(start), Some(end)) => {
                    if start < min || end > max {
                        Err(CronError::ValueOutOfBounds)
                    } else if start > end {
                        Err(CronError::InvalidRange)
                    } else {
                        Ok(set_steps(m, start, end, step))
                    }
                },
            }
        },
    }
}

fn part_mask(m: u64, s: &Vec<char>, lo: usize, hi: usize, min: u8, max: u8) -> (r: Result<u64, CronError>)
    requires
        lo <= hi <= s@.len(),
        min <= max < 64,
    ensures
        r == apply_part(m, s@.subrange(lo as int, hi as int), min, max),
{
    let ghost t = s@.subrange(lo as int, hi as int);
    match find_char(s, lo, hi, '/') {
        Some(sl) => {
            proof {
                assert(t.take(sl - lo) =~= s@.subrange(lo as int, sl as int));
                assert(t.skip(sl - lo + 1) =~= s@.subrange(sl + 1, hi as int));
            }
            match parse_u8(s, sl + 1, hi) {
                None => Err(CronError::InvalidStep),
                Some(step) => {
                    if step == 0 {
                        Err(CronError::InvalidStep)
                    } else if is_star(s, lo, sl) {
                        Ok(set_steps(m, min, max, step))
                    } else {
                        range_mask(m, s, lo, sl, min, max, step)
                    }
                },
            }
        },
        None => {
            if is_star(s, lo, hi) {
                Ok(set_steps(m, min, max, 1))
            } else if find_char(s, lo, hi, '-').is_some() {
                range_mask(m, s, lo, hi, min, max, 1)
            } else {
                match parse_u8(s, lo, hi) {
                    None => Err(CronError::InvalidField),
                    Some(v) => {
                        if v < min || v > max {
                            Err(CronError::ValueOutOfBounds)
                        } else {
                            Ok(m | (1u64 << (v as u64)))
                        }
                    },
                }
            }
        },
    }
}

/// Parses one field of a cron expression, values `min..=max`, into a bit mask.
fn parse_field(s: &Vec<char>, lo: usize, hi: usize, min: u8, max: u8) -> (r: Result<u64, CronError>)
    requires
        lo <= hi <= s@.len(),
        min <= max < 64,
    ensures
        r == field_spec(s@.subrange(lo as int, hi as int), min, max),
{
    let mut mask: u64 = 0;
    let mut pos = lo;
    loop
        invariant
            lo <= pos <= hi <= s@.len(),
            min <= max < 64,
            apply_parts(mask, split_on(s@.subrange(pos as int, hi as int), ','), min, max)
                == field_spec(s@.subrange(lo as int, hi as int), min, max),
        decreases hi - pos,
    {
        let ghost x = s@.subrange(pos as int, hi as int);
        proof {
            lemma_first_index(x, ',');
        }
        match find_char(s, pos, hi, ',') {
            None => {
                proof {
                    assert(split_on(x, ',') == seq![x]);
                    assert(seq![x].drop_first() =~= Seq::<Seq<char>>::empty());
                }
                let r = part_mask(mask, s, pos, hi, min, max);
                proof {
                    if let Ok(m2) = r {
                        assert(apply_parts(m2, seq![x].drop_first(), min, max) == Ok::<u64, CronError>(m2));
                    }
                }
                return r;
            },
            Some(c) => {
                proof {
                    assert(x.take(c - pos) =~= s@.subrange(pos as int, c as int));
                    assert(x.skip(c - pos + 1) =~= s@.subrange(c + 1, hi as int));
                    let parts = split_on(x, ',');
                    assert(parts == seq![x.take(c - pos)] + split_on(x.skip(c - pos + 1), ','));
                    assert(parts[0] == x.take(c - pos));
                    assert(parts.drop_first() =~= split_on(x.skip(c - pos + 1), ','));
                }
                match part_mask(mask, s, pos, c, min, max) {
                    Err(e) => {
                        return Err(e);
                    },
                    Ok(m2) => {
                        mask = m2;
                    },
                }
                pos = c + 1;
            },
        }
    }
}

proof fn lemma_word_len_exact(x: Seq<char>, k: int)
    requires
        0 <= k <= x.len(),
        forall|j: int| 0 <= j < k ==> !is_ws(#[trigger] x[j]),
        k == x.len() || is_ws(x[k]),
    ensures
        word_len(x) == k,
{
    lemma_word_len(x);
    if word_len(x) < k {
        assert(is_ws(x[word_len(x)]));
        assert(!is_ws(x[word_len(x)]));
    }
    if word_len(x) > k {
        assert(!is_ws(x[k]));
    }
}

/// The character ranges of the whitespace-separated words of `s`.
#[verifier::spinoff_prover]
pub(crate) fn split_words(s: &Vec<char>) -> (r: Vec<(usize, usize)>)
    ensures
        r@.len() == words(s@).len(),
        forall|i: int| 0 <= i < r@.len() ==> #[trigger] r@[i].0 <= r@[i].1 <= s@.len()
            && s@.subrange(r@[i].0 as int, r@[i].1 as int) == words(s@)[i],
{
    let mut r: Vec<(usize, usize)> = Vec::new();
    let ghost mut done: Seq<Seq<char>> = Seq::empty();
    let mut pos: usize = 0;
    proof {
        assert(s@.subrange(0, s@.len() as int) =~= s@);
    }
    while pos < s.len()
        invariant
            pos <= s@.len(),
            r@.len() == done.len(),
            forall|i: int| 0 <= i < r@.len() ==> #[trigger] r@[i].0 <= r@[i].1 <= s@.len()
                && s@.subrange(r@[i].0 as int, r@[i].1 as int) == done[i],
            done + words(s@.subrange(pos as int, s@.len() as int)) == words(s@),
        decreases s@.len() - pos,
    {
        let ghost x = s@.subrange(pos as int, s@.len() as int);
        if is_ws_exec(s[pos]) {
            proof {
                assert(x[0] == s@[pos as int]);
                assert(x.drop_first() =~= s@.subrange(pos + 1, s@.len() as int));
            }
            pos = pos + 1;
        } else {
            let start = pos;
            while pos < s.len() && !is_ws_exec(s[pos])
                invariant
                    start <= pos <= s@.len(),
                    forall|j: int| start <= j < pos ==> !is_ws(#[trigger] s@[j]),
                decreases s@.len() - pos,
            {
                pos = pos + 1;
            }
            proof {
                assert(x[0] == s@[start as int]);
                assert forall|j: int| 0 <= j < pos - start implies !is_ws(#[trigger] x[j]) by {
                    assert(x[j] == s@[start + j]);
                }
                if pos < s@.len() {
                    assert(x[pos - start] == s@[pos as int]);
                }
                lemma_word_len_exact(x, pos - start);
                assert(x.take(pos - start) =~= s@.subrange(start as int, pos as int));
                assert(x.skip(pos - start) =~= s@.subrange(pos as int, s@.len() as int));
                assert(words(x) == seq![x.take(pos - start)] + words(x.skip(pos - start)));
                done = done.push(x.take(pos - start));
                assert(done + words(s@.subrange(pos as int, s@.len() as int)) =~= words(s@));
            }
            r.push((start, pos));
        }
    }
    proof {
        assert(s@.subrange(pos as int, s@.len() as int) =~= Seq::<char>::empty());
        assert(done =~= words(s@));
    }
    r
}

#[derive(Debug, Clone, PartialEq, Eq)]
pub struct CronSchedule {
    pub minutes: u64,
    pub hours: u32,
    pub days_of_month: u32,
    pub months: u16,
    pub days_of_week: u8,
    pub dom_restricted: bool,
    pub dow_restricted: bool,
}

/// Folds the day-of-week mask for values 0..=7 onto 0..=6, day 7 being Sunday like day 0.
pub open spec fn fold_sunday(raw: u64) -> u8 {
    let low = (raw & 0x7f) as u8;
    if raw & (1u64 << 7u64) != 0 { low | 1u8 } else { low }
}

/// The schedule that the text `s` denotes, or the first error in it.
pub open spec fn schedule_spec(s: Seq<char>) -> Result<CronSchedule, CronError> {
    let w = words(s);
    if w.len() != 5 {
        Err(CronError::InvalidFormat)
    } else {
        match field_spec(w[0], 0, 59) {
            Err(e) => Err(e),
            Ok(minutes) => match field_spec(w[1], 0, 23) {
                Err(e) => Err(e),
                Ok(hours) => match field_spec(w[2], 1, 31) {
                    Err(e) => Err(e),
                    Ok(dom) => match field_spec(w[3], 1, 12) {
                        Err(e) => Err(e),
                        Ok(months) => match field_spec(w[4], 0, 7) {
                            Err(e) => Err(e),
                            Ok(raw_dow) => Ok(CronSchedule {
                                minutes,
                                hours: hours as u32,
                                days_of_month: dom as u32,
                                months: months as u16,
                                days_of_week: fold_sunday(raw_dow),
                                dom_restricted: w[2] != seq!['*'],
                                dow_restricted: w[4] != seq!['*'],
                            }),
                        },
                    },
                },
            },
        }
    }
}

/// Parses a five-field cron expression.
pub fn parse_schedule(text: &str) -> (r: Result<CronSchedule, CronError>)
    ensures
        r == schedule_spec(text@),
{
    let s = chars_of(text);
    let w = split_words(&s);
    if w.len() != 5 {
        return Err(CronError::InvalidFormat);
    }
    let minutes = match parse_field(&s, w[0].0, w[0].1, 0, 59) {
        Ok(m) => m,
        Err(e) => {
            return Err(e);
        },
    };
    let hours = match parse_field(&s, w[1].0, w[1].1, 0, 23) {
        Ok(m) => m,
        Err(e) => {
            return Err(e);
        },
    };
    let days_of_month = match parse_field(&s, w[2].0, w[2].1, 1, 31) {
        Ok(m) => m,
        Err(e) => {
            return Err(e);
        },
    };
    let months = match parse_field(&s, w[3].0, w[3].1, 1, 12) {
        Ok(m) => m,
        Err(e) => {
            return Err(e);
        },
    };
    let raw_dow = match parse_field(&s, w[4].0, w[4].1, 0, 7) {
        Ok(m) => m,
        Err(e) => {
            return Err(e);
        },
    };
    let mut days_of_week = (raw_dow & 0x7f) as u8;
    if raw_dow & (1u64 << 7u64) != 0 {
        days_of_week = days_of_week | 1u8;
    }
    let dom_restricted = !is_star(&s, w[2].0, w[2].1);
    let dow_restricted = !is_star(&s, w[4].0, w[4].1);
    Ok(CronSchedule {
        minutes,
        hours: hours as u32,
        days_of_month: days_of_month as u32,
        months: months as u16,
        days_of_week,
        dom_restricted,
        dow_restricted,
    })
}

impl std::str::FromStr for CronSchedule {
    type Err = CronError;

    fn from_str(s: &str) -> (r: Result<Self, Self::Err>)
        ensures
            r == schedule_spec(s@),
    {
        parse_schedule(s)
    }
}

/// Whether the schedule fires at the given time fields. When both day fields are
/// restricted, a match of either suffices; otherwise both must match.
pub open spec fn matches_spec(s: CronSchedule, minute: u8, hour: u8, day_of_month: u8, month: u8, day_of_week: u8) -> bool {
    let min_match = (s.minutes & (1u64 << (minute as u64))) != 0;
    let hr_match = (s.hours & (1u32 << (hour as u32))) != 0;
    let mo_match = (s.months & (1u16 << (month as u16))) != 0;
    let dom_match = (s.days_of_month & (1u32 << (day_of_month as u32))) != 0;
    let dow_match = (s.days_of_week & (1u8 << (day_of_week as u8))) != 0;
    let day_match = if s.dom_restricted && s.dow_restricted { dom_match || dow_match } else { dom_match && dow_match };
    min_match && hr_match && mo_match && day_match
}

/// Day `d` of the month is in the schedule's day-of-month set.
pub open spec fn in_days_of_month(s: CronSchedule, d: u8) -> bool {
    (s.days_of_month & (1u32 << (d as u32))) != 0
}

/// Weekday `w` is in the schedule's day-of-week set.
pub open spec fn in_days_of_week(s: CronSchedule, w: u8) -> bool {
    (s.days_of_week & (1u8 << (w as u8))) != 0
}

/// The minute, hour and month are in the schedule's sets.
pub open spec fn in_time_sets(s: CronSchedule, minute: u8, hour: u8, month: u8) -> bool {
    &&& (s.minutes & (1u64 << (minute as u64))) != 0
    &&& (s.hours & (1u32 << (hour as u32))) != 0
    &&& (s.months & (1u16 << (month as u16))) != 0
}

/// How the day fields combine: a time matches only when its minute, hour and month are in
/// their sets; when both day fields are restricted, a day in either set will do; when at most
/// one is, the day of the month and the weekday must both be in their sets, so that a schedule
/// whose other day field is `*` fires only on the days its restricted field names.
pub proof fn lemma_matches_day_fields(s: CronSchedule, minute: u8, hour: u8, day_of_month: u8, month: u8, day_of_week: u8)
    ensures
        matches_spec(s, minute, hour, day_of_month, month, day_of_week) ==> in_time_sets(s, minute, hour, month),
        s.dom_restricted && s.dow_restricted ==> (matches_spec(s, minute, hour, day_of_month, month, day_of_week)
            <==> in_time_sets(s, minute, hour, month) && (in_days_of_month(s, day_of_month) || in_days_of_week(
            s,
            day_of_week,
        ))),
        !(s.dom_restricted && s.dow_restricted) ==> (matches_spec(s, minute, hour, day_of_month, month, day_of_week)
            <==> in_time_sets(s, minute, hour, month) && in_days_of_month(s, day_of_month) && in_days_of_week(
            s,
            day_of_week,
        )),
{
}

/// A schedule whose day-of-week field is `*` fires only on the days of the month it names,
/// whatever the weekday; likewise a `*` day of the month leaves only the weekdays named.
pub proof fn lemma_star_day_field(text: Seq<char>, minute: u8, hour: u8, day_of_month: u8, month: u8, day_of_week: u8)
    requires
        schedule_spec(text) is Ok,
    ensures
        words(text)[4] == seq!['*'] && matches_spec(schedule_spec(text)->Ok_0, minute, hour, day_of_month, month, day_of_week)
            ==> in_days_of_month(schedule_spec(text)->Ok_0, day_of_month),
        words(text)[2] == seq!['*'] && matches_spec(schedule_spec(text)->Ok_0, minute, hour, day_of_month, month, day_of_week)
            ==> in_days_of_week(schedule_spec(text)->Ok_0, day_of_week),
{
}

pub trait Schedule {
    fn matches(&self, minute: u8, hour: u8, day_of_month: u8, month: u8, day_of_week: u8) -> bool
        requires
            minute < 64,
            hour < 32,
            day_of_month < 32,
            month < 16,
            day_of_week < 8,
    ;
}

impl Schedule for CronSchedule {
    fn matches(&self, minute: u8, hour: u8, day_of_month: u8, month: u8, day_of_week: u8) -> (r: bool)
        ensures
            r == matches_spec(*self, minute, hour, day_of_month, month, day_of_week),
    {
        let min_match = (self.minutes & (1u64 << (minute as u64))) != 0;
        let hr_match = (self.hours & (1u32 << (hour as u32))) != 0;
        let mo_match = (self.months & (1u16 << (month as u16))) != 0;
        let dom_match = (self.days_of_month & (1u32 << (day_of_month as u32))) != 0;
        let dow_match = (self.days_of_week & (1u8 << (day_of_week as u8))) != 0;
        let day_match = if self.dom_restricted && self.dow_restricted {
            dom_match || dow_match
        } else {
            dom_match && dow_match
        };
        min_match && hr_match && mo_match && day_match
    }
}

} // verus!
