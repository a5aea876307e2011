//! A small GraphQL front end: a lexer for the query language and a parser for selection sets
//! with arguments.

use crate::text::{chars_of, string_of};
use std::collections::HashMap;
use vstd::prelude::*;

verus! {

/// A token of the query language.
#[derive(Debug, PartialEq, Clone)]
pub enum Token {
    BraceL,
    BraceR,
    ParenL,
    ParenR,
    Colon,
    Name(String),
    String(String),
    Int(i64),
}

/// A token as text and numbers.
pub enum Lexeme {
    BraceL,
    BraceR,
    ParenL,
    ParenR,
    Colon,
    Name(Seq<char>),
    Str(Seq<char>),
    Int(int),
}

pub open spec fn lexeme(t: Token) -> Lexeme {
    match t {
        Token::BraceL => Lexeme::BraceL,
        Token::BraceR => Lexeme::BraceR,
        Token::ParenL => Lexeme::ParenL,
        Token::ParenR => Lexeme::ParenR,
        Token::Colon => Lexeme::Colon,
        Token::Name(s) => Lexeme::Name(s@),
        Token::String(s) => Lexeme::Str(s@),
        Token::Int(i) => Lexeme::Int(i as int),
    }
}

pub open spec fn opt_lexeme(t: Option<Token>) -> Option<Lexeme> {
    match t {
        Some(t) => Some(lexeme(t)),
        None => None,
    }
}

/// Blanks and commas separate tokens.
pub open spec fn is_separator(c: char) -> bool {
    c == ' ' || c == '\n' || c == '\r' || c == '\t' || c == ','
}

pub open spec fn is_ascii_alpha(c: char) -> bool {
    ('a' <= c && c <= 'z') || ('A' <= c && c <= 'Z')
}

pub open spec fn is_ascii_digit(c: char) -> bool {
    '0' <= c && c <= '9'
}

pub open spec fn is_name_char(c: char) -> bool {
    is_ascii_alpha(c) || is_ascii_digit(c) || c == '_'
}

/// The first index from `i` on whose character is not a name character (or the end).
pub open spec fn name_end(s: Seq<char>, i: int) -> int
    decreases s.len() - i,
{
    if i < 0 || i >= s.len() || !is_name_char(s[i]) { i } else { name_end(s, i + 1) }
}

/// The first index from `i` on whose character is not a digit (or the end).
pub open spec fn digits_end(s: Seq<char>, i: int) -> int
    decreases s.len() - i,
{
    if i < 0 || i >= s.len() || !is_ascii_digit(s[i]) { i } else { digits_end(s, i + 1) }
}

/// The first index from `i` on holding a double quote (or the end).
pub open spec fn quote_end(s: Seq<char>, i: int) -> int
    decreases s.len() - i,
{
    if i < 0 || i >= s.len() || s[i] == '"' { i } else { quote_end(s, i + 1) }
}

/// The number written by the decimal digits `d`.
pub open spec fn digits_value(d: Seq<char>) -> nat
    decreases d.len(),
{
    if d.len() == 0 {
        0
    } else {
        (10 * digits_value(d.drop_last()) + (d.last() as int - '0' as int)) as nat
    }
}

/// The `i64` an integer literal denotes: the digits with the sign, or 0 when there are no
/// digits or the number does not fit.
pub open spec fn int_literal(neg: bool, d: Seq<char>) -> int {
    if d.len() == 0 {
        0
    } else if neg {
        if digits_value(d) <= 0x8000_0000_0000_0000 { -digits_value(d) } else { 0 }
    } else {
        if digits_value(d) <= i64::MAX { digits_value(d) as int } else { 0 }
    }
}

/// The token that starts at or after `pos`, and the position just past it.
pub open spec fn next_lexeme(s: Seq<char>, pos: int) -> (Option<Lexeme>, int)
    decreases s.len() - pos,
{
    if pos < 0 || pos >= s.len() {
        (None, pos)
    } else {
        let c = s[pos];
        if c == '{' {
            (Some(Lexeme::BraceL), pos + 1)
        } else if c == '}' {
            (Some(Lexeme::BraceR), pos + 1)
        } else if c == '(' {
            (Some(Lexeme::ParenL), pos + 1)
        } else if c == ')' {
            (Some(Lexeme::ParenR), pos + 1)
        } else if c == ':' {
            (Some(Lexeme::Colon), pos + 1)
        } else if c == '"' {
            let e = quote_end(s, pos + 1);
            (Some(Lexeme::Str(s.subrange(pos + 1, e))), if e < s.len() { e + 1 } else { e })
        } else if is_ascii_alpha(c) || c == '_' {
            let e = name_end(s, pos);
            (Some(Lexeme::Name(s.subrange(pos, e))), e)
        } else if is_ascii_digit(c) || c == '-' {
            let start = if c == '-' { pos + 1 } else { pos };
            let e = digits_end(s, start);
            (Some(Lexeme::Int(int_literal(c == '-', s.subrange(start, e)))), e)
        } else {
            next_lexeme(s, pos + 1)
        }
    }
}

proof fn lemma_name_end(s: Seq<char>, i: int)
    requires
        0 <= i <= s.len(),
    ensures
        i <= name_end(s, i) <= s.len(),
        forall|j: int| i <= j < name_end(s, i) ==> is_name_char(#[trigger] s[j]),
        name_end(s, i) < s.len() ==> !is_name_char(s[name_end(s, i)]),
    decreases s.len() - i,
{
    if i < s.len() && is_name_char(s[i]) {
        lemma_name_end(s, i + 1);
    }
}

proof fn lemma_digits_end(s: Seq<char>, i: int)
    requires
        0 <= i <= s.len(),
    ensures
        i <= digits_end(s, i) <= s.len(),
        forall|j: int| i <= j < digits_end(s, i) ==> is_ascii_digit(#[trigger] s[j]),
        digits_end(s, i) < s.len() ==> !is_ascii_digit(s[digits_end(s, i)]),
    decreases s.len() - i,
{
    if i < s.len() && is_ascii_digit(s[i]) {
        lemma_digits_end(s, i + 1);
    }
}

proof fn lemma_quote_end(s: Seq<char>, i: int)
    requires
        0 <= i <= s.len(),
    ensures
        i <= quote_end(s, i) <= s.len(),
        quote_end(s, i) < s.len() ==> s[quote_end(s, i)] == '"',
    decreases s.len() - i,
{
    if i < s.len() && s[i] != '"' {
        lemma_quote_end(s, i + 1);
    }
}

/// A token stream over a query.
pub struct Lexer<'a> {
    input: &'a str,
    chars: Vec<char>,
    pos: usize,
}

impl<'a> Lexer<'a> {
    /// The characters being scanned.
    pub closed spec fn text(&self) -> Seq<char> {
        self.chars@
    }

    /// How far the scan has got.
    pub closed spec fn position(&self) -> int {
        self.pos as int
    }

    pub closed spec fn wf(&self) -> bool {
        self.pos <= self.chars@.len()
    }

    pub fn new(input: &'a str) -> (l: Self)
        ensures
            l.wf(),
            l.text() == input@,
            l.position() == 0,
    {
        Lexer { input, chars: chars_of(input), pos: 0 }
    }

    /// The end of the run of characters from `i` that satisfy the name rule.
    fn scan_name(&self, i: usize) -> (e: usize)
        requires
            i <= self.chars@.len(),
        ensures
            e == name_end(self.chars@, i as int),
    {
        let mut j = i;
        while j < self.chars.len()
            invariant
                i <= j <= self.chars@.len(),
                name_end(self.chars@, i as int) == name_end(self.chars@, j as int),
            decreases self.chars@.len() - j,
        {
            let c = self.chars[j];
            if !(('a' <= c && c <= 'z') || ('A' <= c && c <= 'Z') || ('0' <= c && c <= '9') || c
                == '_') {
                return j;
            }
            j = j + 1;
        }
        j
    }

    /// The end of the run of digits from `i`.
    fn scan_digits(&self, i: usize) -> (e: usize)
        requires
            i <= self.chars@.len(),
        ensures
            e == digits_end(self.chars@, i as int),
    {
        let mut j = i;
        while j < self.chars.len()
            invariant
                i <= j <= self.chars@.len(),
                digits_end(self.chars@, i as int) == digits_end(self.chars@, j as int),
            decreases self.chars@.len() - j,
        {
            let c = self.chars[j];
            if !('0' <= c && c <= '9') {
                return j;
            }
            j = j + 1;
        }
        j
    }

    /// The position of the next double quote from `i`, or the end.
    fn scan_quote(&self, i: usize) -> (e: usize)
        requires
            i <= self.chars@.len(),
        ensures
            e == quote_end(self.chars@, i as int),
    {
        let mut j = i;
        while j < self.chars.len()
            invariant
                i <= j <= self.chars@.len(),
                quote_end(self.chars@, i as int) == quote_end(self.chars@, j as int),
            decreases self.chars@.len() - j,
        {
            if self.chars[j] == '"' {
                return j;
            }
            j = j + 1;
        }
        j
    }

    /// The value of the integer literal with the digits `chars[start..end]`.
    fn int_value(&self, neg: bool, start: usize, end: usize) -> (v: i64)
        requires
            start <= end <= self.chars@.len(),
            forall|j: int| start <= j < end ==> is_ascii_digit(#[trigger] self.chars@[j]),
        ensures
            v as int == int_literal(neg, self.chars@.subrange(start as int, end as int)),
    {
        let ghost d = self.chars@.subrange(start as int, end as int);
        let mut val: u64 = 0;
        let mut big = false;
        let mut j = start;
        while j < end
            invariant
                start <= j <= end <= self.chars@.len(),
                d == self.chars@.subrange(start as int, end as int),
                forall|k: int| start <= k < end ==> is_ascii_digit(#[trigger] self.chars@[k]),
                big == (digits_value(d.subrange(0, j - start)) > 0x8000_0000_0000_0000),
                !big ==> val == digits_value(d.subrange(0, j - start)),
            decreases end - j,
        {
            let c = self.chars[j];
            let digit = (c as u32 - '0' as u32) as u64;
            let ghost p = d.subrange(0, j - start);
            assert(d.subrange(0, j + 1 - start).drop_last() =~= p);
            assert(d.subrange(0, j + 1 - start).last() == c);
            if !big {
                if val > (0x8000_0000_0000_0000u64 - digit) / 10 {
                    big = true;
                } else {
                    val = val * 10 + digit;
                }
            }
            j = j + 1;
        }
        assert(d.subrange(0, end - start) =~= d);
        if end == start {
            0
        } else if neg {
            if big {
                0
            } else if val == 0x8000_0000_0000_0000u64 {
                i64::MIN
            } else {
                -(val as i64)
            }
        } else {
            if big || val > 0x7fff_ffff_ffff_ffffu64 {
                0
            } else {
                val as i64
            }
        }
    }

    /// The next token, skipping separators and characters that start no token.
    pub fn next_token(&mut self) -> (t: Option<Token>)
        requires
            old(self).wf(),
        ensures
            final(self).wf(),
            final(self).text() == old(self).text(),
            (opt_lexeme(t), final(self).position()) == next_lexeme(old(self).text(), old(self).position()),
    {
        let ghost start = self.pos as int;
        loop
            invariant
                self.wf(),
                self.chars@ == old(self).chars@,
                start == old(self).pos,
                next_lexeme(self.chars@, start) == next_lexeme(self.chars@, self.pos as int),
            decreases self.chars@.len() - self.pos,
        {
            if self.pos >= self.chars.len() {
                return None;
            }
            let c = self.chars[self.pos];
            if c == '{' {
                self.pos = self.pos + 1;
                return Some(Token::BraceL);
            } else if c == '}' {
                self.pos = self.pos + 1;
                return Some(Token::BraceR);
            } else if c == '(' {
                self.pos = self.pos + 1;
                return Some(Token::ParenL);
            } else if c == ')' {
                self.pos = self.pos + 1;
                return Some(Token::ParenR);
            } else if c == ':' {
                self.pos = self.pos + 1;
                return Some(Token::Colon);
            } else if c == '"' {
                let from = self.pos + 1;
                proof {
                    lemma_quote_end(self.chars@, from as int);
                }
                let e = self.scan_quote(from);
                let text = string_of(&self.chars.as_slice()[from..e]);
                self.pos = if e < self.chars.len() {
                    e + 1
                } else {
                    e
                };
                return Some(Token::String(text));
            } else if ('a' <= c && c <= 'z') || ('A' <= c && c <= 'Z') || c == '_' {
                let from = self.pos;
                proof {
                    lemma_name_end(self.chars@, from as int);
                }
                let e = self.scan_name(from);
                let text = string_of(&self.chars.as_slice()[from..e]);
                self.pos = e;
                return Some(Token::Name(text));
            } else if ('0' <= c && c <= '9') || c == '-' {
                let from = if c == '-' {
                    self.pos + 1
                } else {
                    self.pos
                };
                proof {
                    lemma_digits_end(self.chars@, from as int);
                }
                let e = self.scan_digits(from);
                let v = self.int_value(c == '-', from, e);
                self.pos = e;
                return Some(Token::Int(v));
            } else {
                self.pos = self.pos + 1;
            }
        }
    }
}

/// A value produced by resolving fields, or given as an argument.
#[derive(Debug)]
pub enum Value {
    String(String),
    Int(i64),
    Object(HashMap<String, Value>),
    List(Vec<Value>),
    Null,
}

/// A named argument of a field.
#[derive(Debug)]
pub struct Argument {
    pub name: String,
    pub value: Value,
}

/// A selected field with its arguments and nested selection.
#[derive(Debug)]
pub struct Field {
    pub name: String,
    pub arguments: Vec<Argument>,
    pub selection_set: Vec<Field>,
}

/// An argument value as text or a number.
pub enum ArgV {
    Str(Seq<char>),
    Int(int),
}

/// A field as its name, its arguments and its nested selection.
pub struct FieldV {
    pub name: Seq<char>,
    pub args: Seq<(Seq<char>, ArgV)>,
    pub sub: Seq<FieldV>,
}

pub open spec fn arg_view(a: Argument) -> (Seq<char>, ArgV) {
    (
        a.name@,
        match a.value {
            Value::String(x) => ArgV::Str(x@),
            Value::Int(i) => ArgV::Int(i as int),
            _ => ArgV::Int(0),
        },
    )
}

pub open spec fn args_view(s: Seq<Argument>) -> Seq<(Seq<char>, ArgV)> {
    s.map_values(|a: Argument| arg_view(a))
}

pub open spec fn field_view(f: Field) -> FieldV
    decreases f,
{
    FieldV { name: f.name@, args: args_view(f.arguments@), sub: fields_view(f.selection_set@) }
}

pub open spec fn fields_view(fs: Seq<Field>) -> Seq<FieldV>
    decreases fs,
{
    if fs.len() == 0 {
        Seq::empty()
    } else {
        fields_view(fs.drop_last()).push(field_view(fs.last()))
    }
}

/// Decreases with every token consumed: twice the characters left, plus one for a token
/// under the cursor.
pub open spec fn pmeasure(s: Seq<char>, cur: Option<Lexeme>, pos: int) -> int {
    2 * (s.len() - pos) + if cur is Some {
        1int
    } else {
        0int
    }
}

/// The arguments from the cursor `(cur, pos)` up to and past `)`, added to `acc`, and the
/// cursor after them; or the error.
pub open spec fn p_args(s: Seq<char>, cur: Option<Lexeme>, pos: int, acc: Seq<(Seq<char>, ArgV)>) -> Result<
    (Seq<(Seq<char>, ArgV)>, Option<Lexeme>, int),
    Seq<char>,
>
    decreases pmeasure(s, cur, pos), 0int,
{
    match cur {
        None => Err("Expected ) after arguments"@),
        Some(Lexeme::ParenR) => {
            let a = next_lexeme(s, pos);
            Ok((acc, a.0, a.1))
        },
        Some(Lexeme::Name(n)) => {
            let a = next_lexeme(s, pos);
            if !(a.0 matches Some(Lexeme::Colon)) {
                Err("Expected : after argument name"@)
            } else {
                let b = next_lexeme(s, a.1);
                let v = match b.0 {
                    Some(Lexeme::Str(x)) => Some(ArgV::Str(x)),
                    Some(Lexeme::Int(i)) => Some(ArgV::Int(i)),
                    _ => None,
                };
                match v {
                    None => Err("Expected argument value"@),
                    Some(v) => {
                        let c = next_lexeme(s, b.1);
                        if 0 <= pmeasure(s, c.0, c.1) < pmeasure(s, cur, pos) {
                            p_args(s, c.0, c.1, acc.push((n, v)))
                        } else {
                            Err(Seq::empty())
                        }
                    },
                }
            }
        },
        Some(_) => Err("Expected argument name"@),
    }
}

/// The field at the cursor: its name, its arguments in parentheses if any, its nested
/// selection in braces if any; and the cursor after it. Or the error.
pub open spec fn p_field(s: Seq<char>, cur: Option<Lexeme>, pos: int) -> Result<(FieldV, Option<Lexeme>, int), Seq<char>>
    decreases pmeasure(s, cur, pos), 1int,
{
    match cur {
        Some(Lexeme::Name(n)) => {
            let a = next_lexeme(s, pos);
            let ar: Result<(Seq<(Seq<char>, ArgV)>, Option<Lexeme>, int), Seq<char>> = if a.0 matches Some(
                Lexeme::ParenL,
            ) {
                let b = next_lexeme(s, a.1);
                if 0 <= pmeasure(s, b.0, b.1) < pmeasure(s, cur, pos) {
                    p_args(s, b.0, b.1, Seq::empty())
                } else {
                    Err(Seq::empty())
                }
            } else {
                Ok((Seq::empty(), a.0, a.1))
            };
            match ar {
                Err(e) => Err(e),
                Ok(ar) => if ar.1 matches Some(Lexeme::BraceL) {
                    if 0 <= pmeasure(s, ar.1, ar.2) < pmeasure(s, cur, pos) {
                        match p_sel(s, ar.1, ar.2) {
                            Err(e) => Err(e),
                            Ok(sr) => Ok((FieldV { name: n, args: ar.0, sub: sr.0 }, sr.1, sr.2)),
                        }
                    } else {
                        Err(Seq::empty())
                    }
                } else {
                    Ok((FieldV { name: n, args: ar.0, sub: Seq::empty() }, ar.1, ar.2))
                },
            }
        },
        _ => Err("Expected field name"@),
    }
}

/// The fields from the cursor up to and past `}`, added to `acc`, and the cursor after them;
/// or the error.
pub open spec fn p_fields(s: Seq<char>, cur: Option<Lexeme>, pos: int, acc: Seq<FieldV>) -> Result<(Seq<FieldV>, Option<Lexeme>, int), Seq<char>>
    decreases pmeasure(s, cur, pos), 2int,
{
    match cur {
        None => Err("Expected }"@),
        Some(Lexeme::BraceR) => {
            let a = next_lexeme(s, pos);
            Ok((acc, a.0, a.1))
        },
        Some(_) => match p_field(s, cur, pos) {
            Err(e) => Err(e),
            Ok(fr) => if 0 <= pmeasure(s, fr.1, fr.2) < pmeasure(s, cur, pos) {
                p_fields(s, fr.1, fr.2, acc.push(fr.0))
            } else {
                Err(Seq::empty())
            },
        },
    }
}

/// The selection set `{ field ... }` at the cursor, and the cursor after it; or the error.
pub open spec fn p_sel(s: Seq<char>, cur: Option<Lexeme>, pos: int) -> Result<(Seq<FieldV>, Option<Lexeme>, int), Seq<char>>
    decreases pmeasure(s, cur, pos), 3int,
{
    if cur matches Some(Lexeme::BraceL) {
        let a = next_lexeme(s, pos);
        if 0 <= pmeasure(s, a.0, a.1) < pmeasure(s, cur, pos) {
            p_fields(s, a.0, a.1, Seq::empty())
        } else {
            Err(Seq::empty())
        }
    } else {
        Err("Expected { for selection set"@)
    }
}

/// A recursive-descent parser over the token stream of a lexer.
pub struct Parser<'a> {
    lexer: Lexer<'a>,
    current_token: Option<Token>,
}

fn is_brace_l(t: &Option<Token>) -> (b: bool)
    ensures
        b == (t matches Some(Token::BraceL)),
{
    match t {
        Some(Token::BraceL) => true,
        _ => false,
    }
}

fn is_brace_r(t: &Option<Token>) -> (b: bool)
    ensures
        b == (t matches Some(Token::BraceR)),
{
    match t {
        Some(Token::BraceR) => true,
        _ => false,
    }
}

fn is_paren_l(t: &Option<Token>) -> (b: bool)
    ensures
        b == (t matches Some(Token::ParenL)),
{
    match t {
        Some(Token::ParenL) => true,
        _ => false,
    }
}

fn is_paren_r(t: &Option<Token>) -> (b: bool)
    ensures
        b == (t matches Some(Token::ParenR)),
{
    match t {
        Some(Token::ParenR) => true,
        _ => false,
    }
}

fn is_colon(t: &Option<Token>) -> (b: bool)
    ensures
        b == (t matches Some(Token::Colon)),
{
    match t {
        Some(Token::Colon) => true,
        _ => false,
    }
}

fn text_of(m: &str) -> (e: String)
    ensures
        e@ == m@,
{
    String::from_str(m)
}

impl<'a> Parser<'a> {
    pub closed spec fn wf(&self) -> bool {
        &&& self.lexer.wf()
        &&& self.current_token matches Some(Token::Name(n)) ==> n@.len() > 0
    }

    /// The token under the cursor.
    pub closed spec fn current(&self) -> Option<Token> {
        self.current_token
    }

    /// Decreases with every token consumed.
    pub closed spec fn measure(&self) -> int {
        2 * (self.lexer.text().len() - self.lexer.position()) + if self.current_token is Some {
            1int
        } else {
            0int
        }
    }

    /// How far the lexer has scanned.
    pub closed spec fn position(&self) -> int {
        self.lexer.position()
    }

    pub closed spec fn text(&self) -> Seq<char> {
        self.lexer.text()
    }

    /// A parser looking at the first token of `lexer`.
    pub fn new(lexer: Lexer<'a>) -> (p: Self)
        requires
            lexer.wf(),
        ensures
            p.wf(),
            p.text() == lexer.text(),
            (opt_lexeme(p.current()), p.position()) == next_lexeme(lexer.text(), lexer.position()),
    {
        let mut lexer = lexer;
        proof {
            lemma_next_advances(lexer.chars@, lexer.pos as int);
        }
        let current_token = lexer.next_token();
        Parser { lexer, current_token }
    }

    fn advance(&mut self)
        requires
            old(self).wf(),
        ensures
            final(self).wf(),
            final(self).text() == old(self).text(),
            final(self).position() >= old(self).position(),
            (opt_lexeme(final(self).current()), final(self).position()) == next_lexeme(old(self).text(), old(self).position()),
            final(self).measure() == pmeasure(final(self).text(), opt_lexeme(final(self).current()), final(self).position()),
            final(self).measure() <= old(self).measure(),
            old(self).current() is Some ==> final(self).measure() < old(self).measure(),
    {
        proof {
            lemma_next_advances(self.lexer.chars@, self.lexer.pos as int);
        }
        self.current_token = self.lexer.next_token();
    }

    /// Parses the arguments after `(`, up to and past `)`.
    fn parse_arguments(&mut self) -> (r: Result<Vec<Argument>, String>)
        requires
            old(self).wf(),
        ensures
            final(self).wf(),
            final(self).text() == old(self).text(),
            final(self).position() >= old(self).position(),
            final(self).measure() <= old(self).measure(),
            match (r, p_args(old(self).text(), opt_lexeme(old(self).current()), old(self).position(), Seq::empty())) {
                (Ok(args), Ok(v)) => args_view(args@) == v.0 && opt_lexeme(final(self).current()) == v.1
                    && final(self).position() == v.2,
                (Err(e), Err(m)) => e@ == m,
                _ => false,
            },
    {
        let ghost s = self.text();
        let ghost c0 = opt_lexeme(self.current());
        let ghost p0 = self.position();
        let mut arguments: Vec<Argument> = Vec::new();
        proof {
            assert(args_view(arguments@) =~= Seq::<(Seq<char>, ArgV)>::empty());
        }
        while self.current_token.is_some() && !is_paren_r(&self.current_token)
            invariant
                self.wf(),
                self.text() == s,
                self.position() >= p0,
                self.measure() <= old(self).measure(),
                old(self).text() == s,
                c0 == opt_lexeme(old(self).current()),
                p0 == old(self).position(),
                p_args(s, opt_lexeme(self.current()), self.position(), args_view(arguments@)) == p_args(
                    s,
                    c0,
                    p0,
                    Seq::empty(),
                ),
            decreases self.measure(),
        {
            let ghost m0 = pmeasure(s, opt_lexeme(self.current()), self.position());
            let ghost cur = opt_lexeme(self.current());
            let ghost pos = self.position();
            let ghost acc = args_view(arguments@);
            assert(self.measure() == m0);
            let arg_name = match &self.current_token {
                Some(Token::Name(n)) => n.clone(),
                _ => {
                    return Err(text_of("Expected argument name"));
                },
            };
            self.advance();
            if !is_colon(&self.current_token) {
                return Err(text_of("Expected : after argument name"));
            }
            self.advance();
            let value = match &self.current_token {
                Some(Token::String(x)) => Value::String(x.clone()),
                Some(Token::Int(i)) => Value::Int(*i),
                _ => {
                    return Err(text_of("Expected argument value"));
                },
            };
            self.advance();
            let ghost before = arguments@;
            arguments.push(Argument { name: arg_name, value });
            proof {
                assert(args_view(arguments@) =~= acc.push((arg_name@, arg_view(arguments@.last()).1)));
                assert(pmeasure(s, opt_lexeme(self.current()), self.position()) < m0);
            }
        }
        let ghost acc = args_view(arguments@);
        if is_paren_r(&self.current_token) {
            self.advance();
            Ok(arguments)
        } else {
            Err(text_of("Expected ) after arguments"))
        }
    }

    /// Parses one field: its name, arguments in parentheses and nested selection in braces.
    fn parse_field(&mut self) -> (r: Result<Field, String>)
        requires
            old(self).wf(),
        ensures
            final(self).wf(),
            final(self).text() == old(self).text(),
            final(self).position() >= old(self).position(),
            final(self).measure() <= old(self).measure(),
            r is Ok ==> final(self).measure() < old(self).measure(),
            match (r, p_field(old(self).text(), opt_lexeme(old(self).current()), old(self).position())) {
                (Ok(f), Ok(v)) => field_view(f) == v.0 && opt_lexeme(final(self).current()) == v.1 && final(self).position() == v.2,
                (Err(e), Err(m)) => e@ == m,
                _ => false,
            },
        decreases old(self).measure(), 1int,
    {
        let ghost s = self.text();
        let ghost cur = opt_lexeme(self.current());
        let ghost pos = self.position();
        let name = match &self.current_token {
            Some(Token::Name(n)) => n.clone(),
            _ => {
                return Err(text_of("Expected field name"));
            },
        };
        self.advance();
        let mut arguments: Vec<Argument> = Vec::new();
        if is_paren_l(&self.current_token) {
            self.advance();
            match self.parse_arguments() {
                Ok(a) => {
                    arguments = a;
                },
                Err(e) => {
                    return Err(e);
                },
            }
        } else {
            assert(args_view(arguments@) =~= Seq::<(Seq<char>, ArgV)>::empty());
        }
        let mut selection_set: Vec<Field> = Vec::new();
        if is_brace_l(&self.current_token) {
            match self.parse_selection_set() {
                Ok(nested) => {
                    selection_set = nested;
                },
                Err(e) => {
                    return Err(e);
                },
            }
        } else {
            assert(fields_view(selection_set@) =~= Seq::<FieldV>::empty());
        }
        let f = Field { name, arguments, selection_set };
        assert(field_view(f) == FieldV { name: name@, args: args_view(f.arguments@), sub: fields_view(f.selection_set@) });
        Ok(f)
    }

    /// Parses `{ field(arg: value) { ... } ... }` starting at the current token.
    pub fn parse_selection_set(&mut self) -> (r: Result<Vec<Field>, String>)
        requires
            old(self).wf(),
        ensures
            final(self).wf(),
            final(self).text() == old(self).text(),
            final(self).position() >= old(self).position(),
            final(self).measure() <= old(self).measure(),
            match (r, p_sel(old(self).text(), opt_lexeme(old(self).current()), old(self).position())) {
                (Ok(fs), Ok(v)) => fields_view(fs@) == v.0 && opt_lexeme(final(self).current()) == v.1
                    && final(self).position() == v.2,
                (Err(e), Err(m)) => e@ == m,
                _ => false,
            },
        decreases old(self).measure(), 3int,
    {
        let ghost s = self.text();
        let mut fields: Vec<Field> = Vec::new();
        if !is_brace_l(&self.current_token) {
            return Err(text_of("Expected { for selection set"));
        }
        self.advance();
        proof {
            assert(fields_view(fields@) =~= Seq::<FieldV>::empty());
        }
        while self.current_token.is_some() && !is_brace_r(&self.current_token)
            invariant
                self.wf(),
                self.text() == s,
                old(self).text() == s,
                self.position() >= old(self).position(),
                self.measure() < old(self).measure(),
                p_fields(s, opt_lexeme(self.current()), self.position(), fields_view(fields@)) == p_sel(
                    s,
                    opt_lexeme(old(self).current()),
                    old(self).position(),
                ),
            decreases self.measure(),
        {
            let ghost m0 = self.measure();
            let ghost acc = fields_view(fields@);
            let f = match self.parse_field() {
                Ok(f) => f,
                Err(e) => {
                    return Err(e);
                },
            };
            let ghost before = fields@;
            fields.push(f);
            proof {
                assert(fields@.drop_last() =~= before);
                assert(fields_view(fields@) == acc.push(field_view(f)));
            }
        }
        if is_brace_r(&self.current_token) {
            self.advance();
            Ok(fields)
        } else {
            Err(text_of("Expected }"))
        }
    }
}

proof fn lemma_next_advances(s: Seq<char>, pos: int)
    requires
        0 <= pos <= s.len(),
    ensures
        pos <= next_lexeme(s, pos).1 <= s.len(),
        next_lexeme(s, pos).0 is Some ==> pos < next_lexeme(s, pos).1,
        next_lexeme(s, pos).0 matches Some(Lexeme::Name(n)) ==> n.len() > 0,
    decreases s.len() - pos,
{
    if pos < s.len() {
        let c = s[pos];
        if c == '"' {
            lemma_quote_end(s, pos + 1);
        } else if is_ascii_alpha(c) || c == '_' {
            lemma_name_end(s, pos);
            assert(is_name_char(s[pos]));
        } else if is_ascii_digit(c) || c == '-' {
            let start = if c == '-' { pos + 1 } else { pos };
            lemma_digits_end(s, start);
        } else if !(c == '{' || c == '}' || c == '(' || c == ')' || c == ':') {
            lemma_next_advances(s, pos + 1);
        }
    }
}

} // verus!
