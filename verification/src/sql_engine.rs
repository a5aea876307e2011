//! A small SQL engine: a lexer and recursive-descent parser for `CREATE TABLE`, `INSERT` and
//! `SELECT ... WHERE a = b`, and an executor that type-checks inserts and filters and projects
//! rows over a pluggable storage engine.

use crate::cron::{is_ws, is_ws_exec};
use crate::text::{chars_of, decimal, decimal_chars, lemma_name_pos, lemma_name_pos_distinct, name_pos, str_eq, string_of};
use vstd::prelude::*;

verus! {

/// The stage at which a statement failed, with a message.
#[derive(Debug, PartialEq, Eq)]
pub enum SqlError {
    LexerError(String),
    ParserError(String),
    ExecutionError(String),
    StorageError(String),
}

impl SqlError {
    /// The error as text: the stage, a colon and the message.
    pub fn message(&self) -> (s: String)
        ensures
            s@ == match self {
                SqlError::LexerError(m) => "Lexer Error: "@ + m@,
                SqlError::ParserError(m) => "Parser Error: "@ + m@,
                SqlError::ExecutionError(m) => "Execution Error: "@ + m@,
                SqlError::StorageError(m) => "Storage Error: "@ + m@,
            },
    {
        let (prefix, m) = match self {
            SqlError::LexerError(m) => ("Lexer Error: ", m),
            SqlError::ParserError(m) => ("Parser Error: ", m),
            SqlError::ExecutionError(m) => ("Execution Error: ", m),
            SqlError::StorageError(m) => ("Storage Error: ", m),
        };
        let s = String::from_str(prefix);
        s.concat(m.as_str())
    }
}

/// A column type.
#[derive(Debug, Clone, Copy, PartialEq, Eq)]
pub enum DataType {
    Integer,
    Text,
    Boolean,
}

/// A value stored in a table.
#[derive(Debug, Clone, PartialEq, Eq, PartialOrd, Ord)]
pub enum Value {
    Integer(i64),
    Text(String),
    Boolean(bool),
    Null,
}

/// A value as a number, text, truth value or null.
pub enum Cell {
    Int(int),
    Text(Seq<char>),
    Bool(bool),
    Null,
}

pub open spec fn cell(v: Value) -> Cell {
    match v {
        Value::Integer(i) => Cell::Int(i as int),
        Value::Text(s) => Cell::Text(s@),
        Value::Boolean(b) => Cell::Bool(b),
        Value::Null => Cell::Null,
    }
}

impl Value {
    /// A copy of the value.
    pub fn duplicate(&self) -> (v: Value)
        ensures
            cell(v) == cell(*self),
    {
        match self {
            Value::Integer(i) => Value::Integer(*i),
            Value::Text(s) => Value::Text(s.clone()),
            Value::Boolean(b) => Value::Boolean(*b),
            Value::Null => Value::Null,
        }
    }

    /// Whether two values are equal.
    pub fn equals(&self, other: &Value) -> (b: bool)
        ensures
            b == (cell(*self) == cell(*other)),
    {
        match (self, other) {
            (Value::Integer(a), Value::Integer(b)) => *a == *b,
            (Value::Text(a), Value::Text(b)) => *a == *b,
            (Value::Boolean(a), Value::Boolean(b)) => *a == *b,
            (Value::Null, Value::Null) => true,
            _ => false,
        }
    }
}

/// A token of the query language.
#[derive(Debug, Clone, PartialEq, Eq)]
pub enum Token {
    Create,
    Table,
    Insert,
    Into,
    Values,
    Select,
    From,
    Where,
    And,
    IntType,
    TextType,
    BoolType,
    Identifier(String),
    StringLiteral(String),
    IntegerLiteral(i64),
    BooleanLiteral(bool),
    OpenParen,
    CloseParen,
    Comma,
    Asterisk,
    Equals,
    Semicolon,
    Eof,
}

/// A token as text and numbers.
pub enum Lexeme {
    Create,
    Table,
    Insert,
    Into,
    Values,
    Select,
    From,
    Where,
    And,
    IntType,
    TextType,
    BoolType,
    Ident(Seq<char>),
    Str(Seq<char>),
    Int(int),
    Bool(bool),
    OpenParen,
    CloseParen,
    Comma,
    Asterisk,
    Equals,
    Semicolon,
    Eof,
}

pub open spec fn lexeme(t: Token) -> Lexeme {
    match t {
        Token::Create => Lexeme::Create,
        Token::Table => Lexeme::Table,
        Token::Insert => Lexeme::Insert,
        Token::Into => Lexeme::Into,
        Token::Values => Lexeme::Values,
        Token::Select => Lexeme::Select,
        Token::From => Lexeme::From,
        Token::Where => Lexeme::Where,
        Token::And => Lexeme::And,
        Token::IntType => Lexeme::IntType,
        Token::TextType => Lexeme::TextType,
        Token::BoolType => Lexeme::BoolType,
        Token::Identifier(s) => Lexeme::Ident(s@),
        Token::StringLiteral(s) => Lexeme::Str(s@),
        Token::IntegerLiteral(i) => Lexeme::Int(i as int),
        Token::BooleanLiteral(b) => Lexeme::Bool(b),
        Token::OpenParen => Lexeme::OpenParen,
        Token::CloseParen => Lexeme::CloseParen,
        Token::Comma => Lexeme::Comma,
        Token::Asterisk => Lexeme::Asterisk,
        Token::Equals => Lexeme::Equals,
        Token::Semicolon => Lexeme::Semicolon,
        Token::Eof => Lexeme::Eof,
    }
}

pub open spec fn is_alpha(c: char) -> bool {
    ('a' <= c && c <= 'z') || ('A' <= c && c <= 'Z')
}

pub open spec fn is_digit(c: char) -> bool {
    '0' <= c && c <= '9'
}

pub open spec fn is_word_char(c: char) -> bool {
    is_alpha(c) || is_digit(c) || c == '_'
}

/// ASCII upper case.
pub open spec fn upper(c: char) -> char {
    if 'a' <= c && c <= 'z' { ((c as u32) - 32) as char } else { c }
}

pub open spec fn upper_seq(s: Seq<char>) -> Seq<char> {
    s.map_values(|c: char| upper(c))
}

/// The first index from `i` on whose character is not whitespace (or the end).
pub open spec fn skip_ws(s: Seq<char>, i: int) -> int
    decreases s.len() - i,
{
    if i < 0 || i >= s.len() || !is_ws(s[i]) { i } else { skip_ws(s, i + 1) }
}

/// The first index from `i` on whose character is not a word character (or the end).
pub open spec fn word_end(s: Seq<char>, i: int) -> int
    decreases s.len() - i,
{
    if i < 0 || i >= s.len() || !is_word_char(s[i]) { i } else { word_end(s, i + 1) }
}

/// The first index from `i` on whose character is not a digit (or the end).
pub open spec fn digit_end(s: Seq<char>, i: int) -> int
    decreases s.len() - i,
{
    if i < 0 || i >= s.len() || !is_digit(s[i]) { i } else { digit_end(s, i + 1) }
}

/// The index of the next single quote from `i` on (or the end).
pub open spec fn quote_end(s: Seq<char>, i: int) -> int
    decreases s.len() - i,
{
    if i < 0 || i >= s.len() || s[i] == '\'' { i } else { quote_end(s, i + 1) }
}

/// The number written by decimal digits.
pub open spec fn digits_value(d: Seq<char>) -> nat
    decreases d.len(),
{
    if d.len() == 0 {
        0
    } else {
        (10 * digits_value(d.drop_last()) + (d.last() as int - '0' as int)) as nat
    }
}

/// The `i64` an optional minus sign and digits denote, if they denote one.
pub open spec fn i64_literal(neg: bool, d: Seq<char>) -> Option<int> {
    if d.len() == 0 {
        None
    } else if neg {
        if digits_value(d) <= 0x8000_0000_0000_0000 { Some(-digits_value(d)) } else { None }
    } else {
        if digits_value(d) <= i64::MAX { Some(digits_value(d) as int) } else { None }
    }
}

/// The token a word denotes: a keyword in any case, or an identifier as written.
pub open spec fn word_lexeme(w: Seq<char>) -> Lexeme {
    let u = upper_seq(w);
    if u == "CREATE"@ {
        Lexeme::Create
    } else if u == "TABLE"@ {
        Lexeme::Table
    } else if u == "INSERT"@ {
        Lexeme::Insert
    } else if u == "INTO"@ {
        Lexeme::Into
    } else if u == "VALUES"@ {
        Lexeme::Values
    } else if u == "SELECT"@ {
        Lexeme::Select
    } else if u == "FROM"@ {
        Lexeme::From
    } else if u == "WHERE"@ {
        Lexeme::Where
    } else if u == "AND"@ {
        Lexeme::And
    } else if u == "INT"@ || u == "INTEGER"@ {
        Lexeme::IntType
    } else if u == "TEXT"@ || u == "VARCHAR"@ {
        Lexeme::TextType
    } else if u == "BOOL"@ || u == "BOOLEAN"@ {
        Lexeme::BoolType
    } else if u == "TRUE"@ {
        Lexeme::Bool(true)
    } else if u == "FALSE"@ {
        Lexeme::Bool(false)
    } else {
        Lexeme::Ident(w)
    }
}

/// The token at `pos` after whitespace, with the position after it, or the error message.
pub open spec fn lex_at(s: Seq<char>, pos: int) -> Result<(Lexeme, int), Seq<char>> {
    let p = skip_ws(s, pos);
    if p >= s.len() {
        Ok((Lexeme::Eof, p))
    } else {
        let c = s[p];
        if c == '(' {
            Ok((Lexeme::OpenParen, p + 1))
        } else if c == ')' {
            Ok((Lexeme::CloseParen, p + 1))
        } else if c == ',' {
            Ok((Lexeme::Comma, p + 1))
        } else if c == '*' {
            Ok((Lexeme::Asterisk, p + 1))
        } else if c == '=' {
            Ok((Lexeme::Equals, p + 1))
        } else if c == ';' {
            Ok((Lexeme::Semicolon, p + 1))
        } else if c == '\'' {
            let e = quote_end(s, p + 1);
            if e < s.len() {
                Ok((Lexeme::Str(s.subrange(p + 1, e)), e + 1))
            } else {
                Err("Unterminated string literal"@)
            }
        } else if is_alpha(c) || c == '_' {
            let e = word_end(s, p);
            Ok((word_lexeme(s.subrange(p, e)), e))
        } else if is_digit(c) || c == '-' {
            let start = if c == '-' { p + 1 } else { p };
            let e = digit_end(s, start);
            match i64_literal(c == '-', s.subrange(start, e)) {
                Some(v) => Ok((Lexeme::Int(v), e)),
                None => Err("Invalid integer literal: "@ + s.subrange(p, e)),
            }
        } else {
            Err("Unexpected character: "@ + seq![c])
        }
    }
}

/// All tokens from `pos` to the end, or the first lexer error.
pub open spec fn lex_all(s: Seq<char>, pos: int) -> Result<Seq<Lexeme>, Seq<char>>
    decreases s.len() - pos,
{
    match lex_at(s, pos) {
        Err(m) => Err(m),
        Ok((t, p)) => if t is Eof || p <= pos || pos < 0 || p > s.len() {
            Ok(seq![])
        } else {
            match lex_all(s, p) {
                Ok(rest) => Ok(seq![t] + rest),
                Err(m) => Err(m),
            }
        },
    }
}

proof fn lemma_skip_ws(s: Seq<char>, i: int)
    requires
        0 <= i <= s.len(),
    ensures
        i <= skip_ws(s, i) <= s.len(),
    decreases s.len() - i,
{
    if i < s.len() && is_ws(s[i]) {
        lemma_skip_ws(s, i + 1);
    }
}

proof fn lemma_word_end(s: Seq<char>, i: int)
    requires
        0 <= i <= s.len(),
    ensures
        i <= word_end(s, i) <= s.len(),
    decreases s.len() - i,
{
    if i < s.len() && is_word_char(s[i]) {
        lemma_word_end(s, i + 1);
    }
}

proof fn lemma_digit_end(s: Seq<char>, i: int)
    requires
        0 <= i <= s.len(),
    ensures
        i <= digit_end(s, i) <= s.len(),
        forall|j: int| i <= j < digit_end(s, i) ==> is_digit(#[trigger] s[j]),
    decreases s.len() - i,
{
    if i < s.len() && is_digit(s[i]) {
        lemma_digit_end(s, i + 1);
    }
}

proof fn lemma_quote_end(s: Seq<char>, i: int)
    requires
        0 <= i <= s.len(),
    ensures
        i <= quote_end(s, i) <= s.len(),
    decreases s.len() - i,
{
    if i < s.len() && s[i] != '\'' {
        lemma_quote_end(s, i + 1);
    }
}

/// The lexer's result for a token, in terms of text.
pub open spec fn lexed(r: Result<Token, SqlError>, spec_r: Result<(Lexeme, int), Seq<char>>, pos: int) -> bool {
    match (r, spec_r) {
        (Ok(t), Ok((l, p))) => lexeme(t) == l && pos == p,
        (Err(SqlError::LexerError(m)), Err(sm)) => m@ == sm,
        _ => false,
    }
}

/// A token stream over a query.
pub struct Lexer<'a> {
    input: &'a str,
    chars: Vec<char>,
    pos: usize,
}

impl<'a> Lexer<'a> {
    pub closed spec fn text(&self) -> Seq<char> {
        self.chars@
    }

    pub closed spec fn position(&self) -> int {
        self.pos as int
    }

    pub closed spec fn wf(&self) -> bool {
        self.pos <= self.chars@.len()
    }

    pub fn new(input: &'a str) -> (l: Self)
        ensures
            l.wf(),
            l.text() == input@,
            l.position() == 0,
    {
        Lexer { input, chars: chars_of(input), pos: 0 }
    }

    fn scan_while_word(&self, i: usize) -> (e: usize)
        requires
            i <= self.chars@.len(),
        ensures
            e == word_end(self.chars@, i as int),
    {
        let mut j = i;
        while j < self.chars.len()
            invariant
                i <= j <= self.chars@.len(),
                word_end(self.chars@, i as int) == word_end(self.chars@, j as int),
            decreases self.chars@.len() - j,
        {
            let c = self.chars[j];
            if !(('a' <= c && c <= 'z') || ('A' <= c && c <= 'Z') || ('0' <= c && c <= '9') || c == '_') {
                return j;
            }
            j = j + 1;
        }
        j
    }

    fn scan_digits(&self, i: usize) -> (e: usize)
        requires
            i <= self.chars@.len(),
        ensures
            e == digit_end(self.chars@, i as int),
    {
        let mut j = i;
        while j < self.chars.len()
            invariant
                i <= j <= self.chars@.len(),
                digit_end(self.chars@, i as int) == digit_end(self.chars@, j as int),
            decreases self.chars@.len() - j,
        {
            let c = self.chars[j];
            if !('0' <= c && c <= '9') {
                return j;
            }
            j = j + 1;
        }
        j
    }

    fn scan_quote(&self, i: usize) -> (e: usize)
        requires
            i <= self.chars@.len(),
        ensures
            e == quote_end(self.chars@, i as int),
    {
        let mut j = i;
        while j < self.chars.len()
            invariant
                i <= j <= self.chars@.len(),
                quote_end(self.chars@, i as int) == quote_end(self.chars@, j as int),
            decreases self.chars@.len() - j,
        {
            if self.chars[j] == '\'' {
                return j;
            }
            j = j + 1;
        }
        j
    }

    fn skip_whitespace(&self, i: usize) -> (e: usize)
        requires
            i <= self.chars@.len(),
        ensures
            e == skip_ws(self.chars@, i as int),
    {
        let mut j = i;
        while j < self.chars.len()
            invariant
                i <= j <= self.chars@.len(),
                skip_ws(self.chars@, i as int) == skip_ws(self.chars@, j as int),
            decreases self.chars@.len() - j,
        {
            if !is_ws_exec(self.chars[j]) {
                return j;
            }
            j = j + 1;
        }
        j
    }

    /// The value of the digits `chars[start..end]` with the sign, if it fits an `i64`.
    fn int_value(&self, neg: bool, start: usize, end: usize) -> (v: Option<i64>)
        requires
            start <= end <= self.chars@.len(),
            forall|j: int| start <= j < end ==> is_digit(#[trigger] self.chars@[j]),
        ensures
            match v {
                Some(x) => i64_literal(neg, self.chars@.subrange(start as int, end as int)) == Some(x as int),
                None => i64_literal(neg, self.chars@.subrange(start as int, end as int)) is None,
            },
    {
        let ghost d = self.chars@.subrange(start as int, end as int);
        let mut val: u64 = 0;
        let mut big = false;
        let mut j = start;
        while j < end
            invariant
                start <= j <= end <= self.chars@.len(),
                d == self.chars@.subrange(start as int, end as int),
                forall|k: int| start <= k < end ==> is_digit(#[trigger] self.chars@[k]),
                big == (digits_value(d.subrange(0, j - start)) > 0x8000_0000_0000_0000),
                !big ==> val == digits_value(d.subrange(0, j - start)),
            decreases end - j,
        {
            let c = self.chars[j];
            let digit = (c as u32 - '0' as u32) as u64;
            assert(d.subrange(0, j + 1 - start).drop_last() =~= d.subrange(0, j - start));
            assert(d.subrange(0, j + 1 - start).last() == c);
            if !big {
                if val > (0x8000_0000_0000_0000u64 - digit) / 10 {
                    big = true;
                } else {
                    val = val * 10 + digit;
                }
            }
            j = j + 1;
        }
        assert(d.subrange(0, end - start) =~= d);
        if end == start {
            None
        } else if neg {
            if big {
                None
            } else if val == 0x8000_0000_0000_0000u64 {
                Some(i64::MIN)
            } else {
                Some(-(val as i64))
            }
        } else {
            if big || val > 0x7fff_ffff_ffff_ffffu64 {
                None
            } else {
                Some(val as i64)
            }
        }
    }

    /// The token a word denotes.
    fn word_token(&self, start: usize, end: usize) -> (t: Token)
        requires
            start <= end <= self.chars@.len(),
        ensures
            lexeme(t) == word_lexeme(self.chars@.subrange(start as int, end as int)),
    {
        let word = &self.chars.as_slice()[start..end];
        let mut up: Vec<char> = Vec::new();
        let mut i: usize = 0;
        while i < word.len()
            invariant
                i <= word@.len(),
                up@ == upper_seq(word@.subrange(0, i as int)),
            decreases word@.len() - i,
        {
            let c = word[i];
            let u = if 'a' <= c && c <= 'z' {
                ((c as u8) - 32) as char
            } else {
                c
            };
            up.push(u);
            assert(upper_seq(word@.subrange(0, i + 1)) =~= upper_seq(word@.subrange(0, i as int)).push(upper(c)));
            i = i + 1;
        }
        assert(word@.subrange(0, word@.len() as int) =~= word@);
        let u = string_of(up.as_slice());
        let us = u.as_str();
        if crate::text::str_eq(us, "CREATE") {
            Token::Create
        } else if crate::text::str_eq(us, "TABLE") {
            Token::Table
        } else if crate::text::str_eq(us, "INSERT") {
            Token::Insert
        } else if crate::text::str_eq(us, "INTO") {
            Token::Into
        } else if crate::text::str_eq(us, "VALUES") {
            Token::Values
        } else if crate::text::str_eq(us, "SELECT") {
            Token::Select
        } else if crate::text::str_eq(us, "FROM") {
            Token::From
        } else if crate::text::str_eq(us, "WHERE") {
            Token::Where
        } else if crate::text::str_eq(us, "AND") {
            Token::And
        } else if crate::text::str_eq(us, "INT") || crate::text::str_eq(us, "INTEGER") {
            Token::IntType
        } else if crate::text::str_eq(us, "TEXT") || crate::text::str_eq(us, "VARCHAR") {
            Token::TextType
        } else if crate::text::str_eq(us, "BOOL") || crate::text::str_eq(us, "BOOLEAN") {
            Token::BoolType
        } else if crate::text::str_eq(us, "TRUE") {
            Token::BooleanLiteral(true)
        } else if crate::text::str_eq(us, "FALSE") {
            Token::BooleanLiteral(false)
        } else {
            Token::Identifier(string_of(word))
        }
    }

    fn lexer_error(prefix: &str, tail: &[char]) -> (e: SqlError)
        ensures
            e matches SqlError::LexerError(m) && m@ == prefix@ + tail@,
    {
        let s = String::from_str(prefix);
        let t = string_of(tail);
        SqlError::LexerError(s.concat(t.as_str()))
    }

    /// The next token after whitespace; `Eof` at the end of the text.
    pub fn next_token(&mut self) -> (r: Result<Token, SqlError>)
        requires
            old(self).wf(),
        ensures
            final(self).wf(),
            final(self).text() == old(self).text(),
            lexed(r, lex_at(old(self).text(), old(self).position()), final(self).position()),
    {
        proof {
            lemma_skip_ws(self.chars@, self.pos as int);
        }
        let p = self.skip_whitespace(self.pos);
        self.pos = p;
        if p >= self.chars.len() {
            return Ok(Token::Eof);
        }
        let c = self.chars[p];
        if c == '(' {
            self.pos = p + 1;
            Ok(Token::OpenParen)
        } else if c == ')' {
            self.pos = p + 1;
            Ok(Token::CloseParen)
        } else if c == ',' {
            self.pos = p + 1;
            Ok(Token::Comma)
        } else if c == '*' {
            self.pos = p + 1;
            Ok(Token::Asterisk)
        } else if c == '=' {
            self.pos = p + 1;
            Ok(Token::Equals)
        } else if c == ';' {
            self.pos = p + 1;
            Ok(Token::Semicolon)
        } else if c == '\'' {
            proof {
                lemma_quote_end(self.chars@, p + 1);
            }
            let e = self.scan_quote(p + 1);
            if e < self.chars.len() {
                let text = string_of(&self.chars.as_slice()[p + 1..e]);
                self.pos = e + 1;
                Ok(Token::StringLiteral(text))
            } else {
                self.pos = e;
                Err(SqlError::LexerError(String::from_str("Unterminated string literal")))
            }
        } else if ('a' <= c && c <= 'z') || ('A' <= c && c <= 'Z') || c == '_' {
            proof {
                lemma_word_end(self.chars@, p as int);
            }
            let e = self.scan_while_word(p);
            let t = self.word_token(p, e);
            self.pos = e;
            Ok(t)
        } else if ('0' <= c && c <= '9') || c == '-' {
            let start = if c == '-' {
                p + 1
            } else {
                p
            };
            proof {
                lemma_digit_end(self.chars@, start as int);
            }
            let e = self.scan_digits(start);
            let v = self.int_value(c == '-', start, e);
            self.pos = e;
            match v {
                Some(x) => Ok(Token::IntegerLiteral(x)),
                None => Err(Self::lexer_error("Invalid integer literal: ", &self.chars.as_slice()[p..e])),
            }
        } else {
            let one = [c];
            assert(one@ =~= seq![c]);
            Err(Self::lexer_error("Unexpected character: ", &one))
        }
    }

    /// All tokens up to the end of the text, or the first lexer error.
    pub fn tokenize(self) -> (r: Result<Vec<Token>, SqlError>)
        requires
            self.wf(),
        ensures
            match (r, lex_all(self.text(), self.position())) {
                (Ok(ts), Ok(ls)) => ts@.map_values(|t: Token| lexeme(t)) == ls,
                (Err(SqlError::LexerError(m)), Err(sm)) => m@ == sm,
                _ => false,
            },
    {
        let mut lexer = self;
        let mut tokens: Vec<Token> = Vec::new();
        let ghost s = lexer.chars@;
        let ghost p0 = lexer.pos as int;
        loop
            invariant
                lexer.wf(),
                lexer.chars@ == s,
                s == self.text(),
                p0 == self.position(),
                0 <= p0,
                lex_all(s, p0) == match lex_all(s, lexer.pos as int) {
                    Ok(rest) => Ok(tokens@.map_values(|t: Token| lexeme(t)) + rest),
                    Err(m) => Err(m),
                },
            decreases s.len() - lexer.pos,
        {
            let ghost before = lexer.pos as int;
            proof {
                lemma_lex_advances(s, before);
            }
            let r = lexer.next_token();
            match r {
                Err(e) => {
                    assert(lex_at(s, before) is Err);
                    assert(lex_all(s, before) == Err::<Seq<Lexeme>, Seq<char>>(lex_at(s, before)->Err_0));
                    return Err(e);
                },
                Ok(t) => {
                    if let Token::Eof = t {
                        assert(lex_all(s, before) == Ok::<Seq<Lexeme>, Seq<char>>(seq![]));
                        assert(tokens@.map_values(|t: Token| lexeme(t)) + Seq::<Lexeme>::empty() =~= tokens@.map_values(|t: Token| lexeme(t)));
                        return Ok(tokens);
                    }
                    let ghost old_tokens = tokens@;
                    tokens.push(t);
                    proof {
                        assert(tokens@.map_values(|t: Token| lexeme(t)) =~= old_tokens.map_values(|t: Token| lexeme(t)).push(lexeme(t)));
                        match lex_all(s, lexer.pos as int) {
                            Ok(rest) => {
                                assert(old_tokens.map_values(|t: Token| lexeme(t)) + (seq![lexeme(t)] + rest) =~= tokens@.map_values(|t: Token| lexeme(t)) + rest);
                            },
                            Err(_) => {},
                        }
                    }
                },
            }
        }
    }
}

/// Every token but the end advances the position.
proof fn lemma_lex_advances(s: Seq<char>, pos: int)
    requires
        0 <= pos <= s.len(),
    ensures
        lex_at(s, pos) matches Ok((t, p)) ==> (pos <= p <= s.len() && (!(t is Eof) ==> pos < p)),
{
    lemma_skip_ws(s, pos);
    let p = skip_ws(s, pos);
    if p < s.len() {
        let c = s[p];
        lemma_quote_end(s, p + 1);
        lemma_word_end(s, p);
        lemma_word_end(s, p + 1);
        if is_alpha(c) || c == '_' {
            assert(is_word_char(s[p]));
        }
        let start = if c == '-' { p + 1 } else { p };
        lemma_digit_end(s, start);
        lemma_digit_end(s, p + 1);
        if is_digit(c) && c != '-' {
            assert(is_digit(s[p]));
        }
    }
}

/// A column of a table.
#[derive(Debug, Clone, PartialEq, Eq)]
pub struct ColumnDef {
    pub name: String,
    pub data_type: DataType,
}

/// An expression: a column, a literal, or a comparison.
#[derive(Debug)]
pub enum Expr {
    Ident(String),
    Literal(Value),
    BinaryOp { left: Box<Expr>, op: Token, right: Box<Expr> },
}

/// A parsed statement.
#[derive(Debug)]
pub enum Statement {
    CreateTable { name: String, columns: Vec<ColumnDef> },
    Insert { table_name: String, columns: Option<Vec<String>>, values: Vec<Expr> },
    Select { table_name: String, columns: Vec<String>, where_clause: Option<Expr> },
}

/// An expression as text and values.
pub enum ExprV {
    Ident(Seq<char>),
    Lit(Cell),
    Bin(Box<ExprV>, Lexeme, Box<ExprV>),
}

pub open spec fn expr_view(e: Expr) -> ExprV
    decreases e,
{
    match e {
        Expr::Ident(s) => ExprV::Ident(s@),
        Expr::Literal(v) => ExprV::Lit(cell(v)),
        Expr::BinaryOp { left, op, right } => ExprV::Bin(
            Box::new(expr_view(*left)),
            lexeme(op),
            Box::new(expr_view(*right)),
        ),
    }
}

/// A statement as text and values.
pub enum StmtV {
    Create(Seq<char>, Seq<(Seq<char>, DataType)>),
    Insert(Seq<char>, Option<Seq<Seq<char>>>, Seq<ExprV>),
    Select(Seq<char>, Seq<Seq<char>>, Option<ExprV>),
}

/// The table a statement works on.
pub open spec fn stmt_table(s: StmtV) -> Seq<char> {
    match s {
        StmtV::Create(name, _) => name,
        StmtV::Insert(name, _, _) => name,
        StmtV::Select(name, _, _) => name,
    }
}

pub open spec fn names_view(v: Seq<String>) -> Seq<Seq<char>> {
    v.map_values(|s: String| s@)
}

pub open spec fn exprs_view(v: Seq<Expr>) -> Seq<ExprV> {
    v.map_values(|e: Expr| expr_view(e))
}

pub open spec fn coldefs_view(v: Seq<ColumnDef>) -> Seq<(Seq<char>, DataType)> {
    v.map_values(|c: ColumnDef| (c.name@, c.data_type))
}

pub open spec fn stmt_view(s: Statement) -> StmtV {
    match s {
        Statement::CreateTable { name, columns } => StmtV::Create(name@, coldefs_view(columns@)),
        Statement::Insert { table_name, columns, values } => StmtV::Insert(
            table_name@,
            match columns {
                Some(c) => Some(names_view(c@)),
                None => None,
            },
            exprs_view(values@),
        ),
        Statement::Select { table_name, columns, where_clause } => StmtV::Select(
            table_name@,
            names_view(columns@),
            match where_clause {
                Some(e) => Some(expr_view(e)),
                None => None,
            },
        ),
    }
}

/// The token at `i`, if any.
pub open spec fn at(t: Seq<Lexeme>, i: int) -> Option<Lexeme> {
    if 0 <= i < t.len() { Some(t[i]) } else { None }
}

/// `left` or `left = right`, where each side is an identifier or a literal.
pub open spec fn p_expr(t: Seq<Lexeme>, i: int) -> Option<(ExprV, int)>
    decreases t.len() - i,
{
    let left = match at(t, i) {
        Some(Lexeme::Ident(s)) => Some(ExprV::Ident(s)),
        Some(Lexeme::Str(s)) => Some(ExprV::Lit(Cell::Text(s))),
        Some(Lexeme::Int(n)) => Some(ExprV::Lit(Cell::Int(n))),
        Some(Lexeme::Bool(b)) => Some(ExprV::Lit(Cell::Bool(b))),
        _ => None,
    };
    match left {
        None => None,
        Some(l) => if at(t, i + 1) matches Some(Lexeme::Equals) {
            if i < 0 || i + 2 > t.len() {
                None
            } else {
                match p_expr(t, i + 2) {
                    Some((r, j)) => Some((ExprV::Bin(Box::new(l), Lexeme::Equals, Box::new(r)), j)),
                    None => None,
                }
            }
        } else {
            Some((l, i + 1))
        },
    }
}

/// `name type, name type, ...` up to (not past) the closing parenthesis.
pub open spec fn p_coldefs(t: Seq<Lexeme>, i: int) -> Option<(Seq<(Seq<char>, DataType)>, int)>
    decreases t.len() - i,
{
    let name = match at(t, i) {
        Some(Lexeme::Ident(s)) => Some(s),
        _ => None,
    };
    let ty = match at(t, i + 1) {
        Some(Lexeme::IntType) => Some(DataType::Integer),
        Some(Lexeme::TextType) => Some(DataType::Text),
        Some(Lexeme::BoolType) => Some(DataType::Boolean),
        _ => None,
    };
    match (name, ty) {
        (Some(n), Some(d)) => match at(t, i + 2) {
            Some(Lexeme::Comma) => if i < 0 || i + 3 > t.len() {
                None
            } else {
                match p_coldefs(t, i + 3) {
                    Some((rest, j)) => Some((seq![(n, d)] + rest, j)),
                    None => None,
                }
            },
            Some(Lexeme::CloseParen) => Some((seq![(n, d)], i + 2)),
            _ => None,
        },
        _ => None,
    }
}

/// `CREATE TABLE name ( columns )`.
pub open spec fn p_create(t: Seq<Lexeme>, i: int) -> Option<(StmtV, int)> {
    if at(t, i) matches Some(Lexeme::Create) && at(t, i + 1) matches Some(Lexeme::Table) && at(t, i + 3)
        matches Some(Lexeme::OpenParen) {
        match at(t, i + 2) {
            Some(Lexeme::Ident(name)) => match p_coldefs(t, i + 4) {
                Some((cols, j)) => if at(t, j) matches Some(Lexeme::CloseParen) {
                    Some((StmtV::Create(name, cols), j + 1))
                } else {
                    None
                },
                None => None,
            },
            _ => None,
        }
    } else {
        None
    }
}

/// `name, name, ...` up to (not past) the closing parenthesis.
pub open spec fn p_names(t: Seq<Lexeme>, i: int) -> Option<(Seq<Seq<char>>, int)>
    decreases t.len() - i,
{
    match at(t, i) {
        Some(Lexeme::Ident(n)) => match at(t, i + 1) {
            Some(Lexeme::Comma) => if i < 0 || i + 2 > t.len() {
                None
            } else {
                match p_names(t, i + 2) {
                    Some((rest, j)) => Some((seq![n] + rest, j)),
                    None => None,
                }
            },
            Some(Lexeme::CloseParen) => Some((seq![n], i + 1)),
            _ => None,
        },
        _ => None,
    }
}

/// `expr, expr, ...` up to (not past) the closing parenthesis.
pub open spec fn p_values(t: Seq<Lexeme>, i: int) -> Option<(Seq<ExprV>, int)>
    decreases t.len() - i,
{
    match p_expr(t, i) {
        Some((e, j)) => match at(t, j) {
            Some(Lexeme::Comma) => if j < i || j + 1 > t.len() {
                None
            } else {
                match p_values(t, j + 1) {
                    Some((rest, k)) => Some((seq![e] + rest, k)),
                    None => None,
                }
            },
            Some(Lexeme::CloseParen) => Some((seq![e], j)),
            _ => None,
        },
        None => None,
    }
}

/// `INSERT INTO name [( columns )] VALUES ( values )`.
pub open spec fn p_insert(t: Seq<Lexeme>, i: int) -> Option<(StmtV, int)> {
    if at(t, i) matches Some(Lexeme::Insert) && at(t, i + 1) matches Some(Lexeme::Into) {
        match at(t, i + 2) {
            Some(Lexeme::Ident(name)) => {
                let cols: Option<(Option<Seq<Seq<char>>>, int)> = if at(t, i + 3) matches Some(
                    Lexeme::OpenParen,
                ) {
                    match p_names(t, i + 4) {
                        Some((cs, j)) => if at(t, j) matches Some(Lexeme::CloseParen) {
                            Some((Some(cs), j + 1))
                        } else {
                            None
                        },
                        None => None,
                    }
                } else {
                    Some((None, i + 3))
                };
                match cols {
                    Some((cs, k)) => if at(t, k) matches Some(Lexeme::Values) && at(t, k + 1) matches Some(
                        Lexeme::OpenParen,
                    ) {
                        match p_values(t, k + 2) {
                            Some((vs, j)) => if at(t, j) matches Some(Lexeme::CloseParen) {
                                Some((StmtV::Insert(name, cs, vs), j + 1))
                            } else {
                                None
                            },
                            None => None,
                        }
                    } else {
                        None
                    },
                    None => None,
                }
            },
            _ => None,
        }
    } else {
        None
    }
}

/// `name [, name ...]`.
pub open spec fn p_col_list(t: Seq<Lexeme>, i: int) -> Option<(Seq<Seq<char>>, int)>
    decreases t.len() - i,
{
    match at(t, i) {
        Some(Lexeme::Ident(n)) => if at(t, i + 1) matches Some(Lexeme::Comma) {
            if i < 0 || i + 2 > t.len() {
                None
            } else {
                match p_col_list(t, i + 2) {
                    Some((rest, j)) => Some((seq![n] + rest, j)),
                    None => None,
                }
            }
        } else {
            Some((seq![n], i + 1))
        },
        _ => None,
    }
}

/// `SELECT (* | columns) FROM name [WHERE expr]`.
pub open spec fn p_select(t: Seq<Lexeme>, i: int) -> Option<(StmtV, int)> {
    if at(t, i) matches Some(Lexeme::Select) {
        let cols: Option<(Seq<Seq<char>>, int)> = if at(t, i + 1) matches Some(Lexeme::Asterisk) {
            Some((seq![], i + 2))
        } else {
            p_col_list(t, i + 1)
        };
        match cols {
            Some((cs, k)) => if at(t, k) matches Some(Lexeme::From) {
                match at(t, k + 1) {
                    Some(Lexeme::Ident(name)) => if at(t, k + 2) matches Some(Lexeme::Where) {
                        match p_expr(t, k + 3) {
                            Some((e, j)) => Some((StmtV::Select(name, cs, Some(e)), j)),
                            None => None,
                        }
                    } else {
                        Some((StmtV::Select(name, cs, None), k + 2))
                    },
                    _ => None,
                }
            } else {
                None
            },
            None => None,
        }
    } else {
        None
    }
}

pub open spec fn p_statement(t: Seq<Lexeme>, i: int) -> Option<(StmtV, int)> {
    match at(t, i) {
        Some(Lexeme::Create) => p_create(t, i),
        Some(Lexeme::Insert) => p_insert(t, i),
        Some(Lexeme::Select) => p_select(t, i),
        _ => None,
    }
}

/// Statements, each optionally followed by a semicolon, up to the end of the tokens.
pub open spec fn p_all(t: Seq<Lexeme>, i: int) -> Option<Seq<StmtV>>
    decreases t.len() - i,
{
    if i < 0 || i >= t.len() {
        Some(seq![])
    } else {
        match p_statement(t, i) {
            Some((s, j)) => {
                let k = if at(t, j) matches Some(Lexeme::Semicolon) { j + 1 } else { j };
                if k <= i || k > t.len() {
                    None
                } else {
                    match p_all(t, k) {
                        Some(rest) => Some(seq![s] + rest),
                        None => None,
                    }
                }
            },
            None => None,
        }
    }
}

pub open spec fn pre<A>(acc: Seq<A>, r: Option<(Seq<A>, int)>) -> Option<(Seq<A>, int)> {
    match r {
        Some((rest, j)) => Some((acc + rest, j)),
        None => None,
    }
}

proof fn lemma_pre_empty<A>(r: Option<(Seq<A>, int)>)
    ensures
        pre(Seq::<A>::empty(), r) == r,
{
    match r {
        Some((rest, j)) => {
            assert(Seq::<A>::empty() + rest =~= rest);
        },
        None => {},
    }
}

proof fn lemma_pre_step<A>(acc: Seq<A>, x: A, r: Option<(Seq<A>, int)>)
    ensures
        pre(acc, pre(seq![x], r)) == pre(acc.push(x), r),
{
    match r {
        Some((rest, j)) => {
            assert(acc + (seq![x] + rest) =~= acc.push(x) + rest);
        },
        None => {},
    }
}

proof fn lemma_p_expr_bounds(t: Seq<Lexeme>, i: int)
    requires
        0 <= i,
    ensures
        p_expr(t, i) matches Some((e, j)) ==> i < j <= t.len(),
    decreases t.len() - i,
{
    if at(t, i + 1) matches Some(Lexeme::Equals) && i + 2 <= t.len() {
        lemma_p_expr_bounds(t, i + 2);
    }
}

/// `{:?}` of a string: the text in double quotes, with quotes, backslashes and control
/// characters escaped.
pub uninterp spec fn str_debug(s: Seq<char>) -> Seq<char>;

/// `format!("{:?}", s)` for a string: the text quoted, with its special characters escaped.
#[verifier::external_body]
fn debug_str(s: &str) -> (r: String)
    ensures
        r@ == str_debug(s@),
{
    format!("{:?}", s)
}

/// A signed integer in decimal.
pub open spec fn int_text(n: int) -> Seq<char> {
    if n < 0 {
        seq!['-'] + decimal((-n) as nat)
    } else {
        decimal(n as nat)
    }
}

/// `true` or `false`.
pub open spec fn bool_text(b: bool) -> Seq<char> {
    if b {
        "true"@
    } else {
        "false"@
    }
}

/// A token as its `Debug` formatting shows it.
pub open spec fn token_debug(t: Lexeme) -> Seq<char> {
    match t {
        Lexeme::Create => "Create"@,
        Lexeme::Table => "Table"@,
        Lexeme::Insert => "Insert"@,
        Lexeme::Into => "Into"@,
        Lexeme::Values => "Values"@,
        Lexeme::Select => "Select"@,
        Lexeme::From => "From"@,
        Lexeme::Where => "Where"@,
        Lexeme::And => "And"@,
        Lexeme::IntType => "IntType"@,
        Lexeme::TextType => "TextType"@,
        Lexeme::BoolType => "BoolType"@,
        Lexeme::Ident(s) => "Identifier("@ + str_debug(s) + ")"@,
        Lexeme::Str(s) => "StringLiteral("@ + str_debug(s) + ")"@,
        Lexeme::Int(n) => "IntegerLiteral("@ + int_text(n) + ")"@,
        Lexeme::Bool(b) => "BooleanLiteral("@ + bool_text(b) + ")"@,
        Lexeme::OpenParen => "OpenParen"@,
        Lexeme::CloseParen => "CloseParen"@,
        Lexeme::Comma => "Comma"@,
        Lexeme::Asterisk => "Asterisk"@,
        Lexeme::Equals => "Equals"@,
        Lexeme::Semicolon => "Semicolon"@,
        Lexeme::Eof => "Eof"@,
    }
}

/// A value as its `Debug` formatting shows it.
pub open spec fn cell_debug(c: Cell) -> Seq<char> {
    match c {
        Cell::Int(n) => "Integer("@ + int_text(n) + ")"@,
        Cell::Text(s) => "Text("@ + str_debug(s) + ")"@,
        Cell::Bool(b) => "Boolean("@ + bool_text(b) + ")"@,
        Cell::Null => "Null"@,
    }
}

/// Appends `n` in decimal.
fn push_int(s: &mut String, n: i64)
    ensures
        final(s)@ == old(s)@ + int_text(n as int),
{
    let mag: u64 = if n < 0 {
        if n == i64::MIN {
            0x8000_0000_0000_0000u64
        } else {
            (-n) as u64
        }
    } else {
        n as u64
    };
    let digits = string_of(decimal_chars(mag).as_slice());
    if n < 0 {
        s.append("-");
        proof {
            reveal_strlit("-");
        }
    }
    s.append(digits.as_str());
}

/// Appends a truth value.
fn push_bool(s: &mut String, b: bool)
    ensures
        final(s)@ == old(s)@ + bool_text(b),
{
    if b {
        s.append("true");
    } else {
        s.append("false");
    }
}

/// Appends the `Debug` text of a token.
fn push_token_debug(s: &mut String, t: &Token)
    ensures
        final(s)@ == old(s)@ + token_debug(lexeme(*t)),
{
    match t {
        Token::Create => s.append("Create"),
        Token::Table => s.append("Table"),
        Token::Insert => s.append("Insert"),
        Token::Into => s.append("Into"),
        Token::Values => s.append("Values"),
        Token::Select => s.append("Select"),
        Token::From => s.append("From"),
        Token::Where => s.append("Where"),
        Token::And => s.append("And"),
        Token::IntType => s.append("IntType"),
        Token::TextType => s.append("TextType"),
        Token::BoolType => s.append("BoolType"),
        Token::Identifier(x) => {
            s.append("Identifier(");
            s.append(debug_str(x.as_str()).as_str());
            s.append(")");
        },
        Token::StringLiteral(x) => {
            s.append("StringLiteral(");
            s.append(debug_str(x.as_str()).as_str());
            s.append(")");
        },
        Token::IntegerLiteral(n) => {
            s.append("IntegerLiteral(");
            push_int(s, *n);
            s.append(")");
        },
        Token::BooleanLiteral(b) => {
            s.append("BooleanLiteral(");
            push_bool(s, *b);
            s.append(")");
        },
        Token::OpenParen => s.append("OpenParen"),
        Token::CloseParen => s.append("CloseParen"),
        Token::Comma => s.append("Comma"),
        Token::Asterisk => s.append("Asterisk"),
        Token::Equals => s.append("Equals"),
        Token::Semicolon => s.append("Semicolon"),
        Token::Eof => s.append("Eof"),
    }
}

/// Reports what was expected and what was found.
fn describe_mismatch(expected: &Token, found: Option<&Token>) -> (m: String)
    ensures
        m@ == "Expected "@ + token_debug(lexeme(*expected)) + ", found "@ + match found {
            Some(t) => token_debug(lexeme(*t)),
            None => "EOF"@,
        },
{
    let mut m = String::from_str("Expected ");
    push_token_debug(&mut m, expected);
    m.append(", found ");
    match found {
        Some(t) => push_token_debug(&mut m, t),
        None => m.append("EOF"),
    }
    m
}

/// Reports an unexpected statement start.
fn describe_statement_start(found: &Token) -> (m: String)
    ensures
        m@ == "Unexpected statement start: "@ + token_debug(lexeme(*found)),
{
    let mut m = String::from_str("Unexpected statement start: ");
    push_token_debug(&mut m, found);
    m
}

fn parser_error(m: &str) -> (e: SqlError)
    ensures
        e matches SqlError::ParserError(s) && s@ == m@,
{
    SqlError::ParserError(String::from_str(m))
}

/// The parse result of an exec parse step against its specification.
pub open spec fn parsed<X, V>(r: Result<X, SqlError>, s: Option<(V, int)>, view: spec_fn(X) -> V, pos: int) -> bool {
    match (r, s) {
        (Ok(x), Some((v, j))) => view(x) == v && pos == j,
        (Err(SqlError::ParserError(_)), None) => true,
        _ => false,
    }
}

/// A recursive-descent parser over a token list.
pub struct Parser {
    tokens: Vec<Token>,
    pos: usize,
}

impl Parser {
    pub closed spec fn toks(&self) -> Seq<Lexeme> {
        self.tokens@.map_values(|t: Token| lexeme(t))
    }

    pub closed spec fn position(&self) -> int {
        self.pos as int
    }

    pub closed spec fn wf(&self) -> bool {
        self.pos <= self.tokens@.len()
    }

    pub fn new(tokens: Vec<Token>) -> (p: Self)
        ensures
            p.wf(),
            p.toks() == tokens@.map_values(|t: Token| lexeme(t)),
            p.position() == 0,
    {
        Parser { tokens, pos: 0 }
    }

    /// Whether the token at `i` is the punctuation or keyword `k`.
    fn is_at(&self, i: usize, k: &Token) -> (b: bool)
        ensures
            b ==> i < self.tokens@.len() && i < usize::MAX,
            (k is Comma || k is CloseParen || k is OpenParen || k is Equals || k is Semicolon || k is Asterisk
                || k is Create || k is Table || k is Insert || k is Into || k is Values || k is Select
                || k is From || k is Where) ==> b == (at(self.toks(), i as int) == Some(lexeme(*k))),
    {
        if i >= self.tokens.len() {
            return false;
        }
        let t = &self.tokens[i];
        assert(self.toks()[i as int] == lexeme(*t));
        match (t, k) {
            (Token::Comma, Token::Comma) => true,
            (Token::CloseParen, Token::CloseParen) => true,
            (Token::OpenParen, Token::OpenParen) => true,
            (Token::Equals, Token::Equals) => true,
            (Token::Semicolon, Token::Semicolon) => true,
            (Token::Asterisk, Token::Asterisk) => true,
            (Token::Create, Token::Create) => true,
            (Token::Table, Token::Table) => true,
            (Token::Insert, Token::Insert) => true,
            (Token::Into, Token::Into) => true,
            (Token::Values, Token::Values) => true,
            (Token::Select, Token::Select) => true,
            (Token::From, Token::From) => true,
            (Token::Where, Token::Where) => true,
            _ => false,
        }
    }

    /// Consumes the keyword or punctuation `k`.
    fn consume(&mut self, k: Token) -> (r: Result<(), SqlError>)
        requires
            old(self).wf(),
            k is Comma || k is CloseParen || k is OpenParen || k is Equals || k is Semicolon || k is Asterisk
                || k is Create || k is Table || k is Insert || k is Into || k is Values || k is Select
                || k is From || k is Where,
        ensures
            final(self).wf(),
            final(self).toks() == old(self).toks(),
            r is Ok <==> at(old(self).toks(), old(self).position()) == Some(lexeme(k)),
            r is Ok ==> final(self).position() == old(self).position() + 1,
            r matches Err(e) ==> e is ParserError,
    {
        if self.pos < self.tokens.len() && self.is_at(self.pos, &k) {
            self.pos = self.pos + 1;
            Ok(())
        } else if self.pos < self.tokens.len() {
            let m = describe_mismatch(&k, Some(&self.tokens[self.pos]));
            self.pos = self.pos + 1;
            Err(SqlError::ParserError(m))
        } else {
            Err(SqlError::ParserError(describe_mismatch(&k, None)))
        }
    }

    /// The identifier at the cursor, consumed.
    fn identifier(&mut self, message: &str) -> (r: Result<String, SqlError>)
        requires
            old(self).wf(),
        ensures
            final(self).wf(),
            final(self).toks() == old(self).toks(),
            match (r, at(old(self).toks(), old(self).position())) {
                (Ok(s), Some(Lexeme::Ident(n))) => s@ == n && final(self).position() == old(self).position() + 1,
                (Err(SqlError::ParserError(_)), l) => !(l matches Some(Lexeme::Ident(_))),
                _ => false,
            },
    {
        if self.pos >= self.tokens.len() {
            return Err(parser_error(message));
        }
        assert(self.toks()[self.pos as int] == lexeme(self.tokens@[self.pos as int]));
        let r = match &self.tokens[self.pos] {
            Token::Identifier(id) => Ok(id.clone()),
            _ => Err(parser_error(message)),
        };
        self.pos = self.pos + 1;
        r
    }

    /// `left` or `left = right`.
    fn parse_expression(&mut self) -> (r: Result<Expr, SqlError>)
        requires
            old(self).wf(),
        ensures
            final(self).wf(),
            final(self).toks() == old(self).toks(),
            parsed(r, p_expr(old(self).toks(), old(self).position()), |e: Expr| expr_view(e), final(self).position()),
        decreases old(self).tokens@.len() - old(self).pos,
    {
        if self.pos >= self.tokens.len() {
            return Err(parser_error("Expected expression"));
        }
        let ghost t = self.toks();
        let ghost i = self.pos as int;
        assert(t[i] == lexeme(self.tokens@[i]));
        let ghost lv: ExprV;
        let left = match &self.tokens[self.pos] {
            Token::Identifier(id) => {
                proof {
                    lv = ExprV::Ident(id@);
                }
                Expr::Ident(id.clone())
            },
            Token::StringLiteral(s) => {
                proof {
                    lv = ExprV::Lit(Cell::Text(s@));
                }
                Expr::Literal(Value::Text(s.clone()))
            },
            Token::IntegerLiteral(n) => {
                proof {
                    lv = ExprV::Lit(Cell::Int(*n as int));
                }
                Expr::Literal(Value::Integer(*n))
            },
            Token::BooleanLiteral(b) => {
                proof {
                    lv = ExprV::Lit(Cell::Bool(*b));
                }
                Expr::Literal(Value::Boolean(*b))
            },
            _ => {
                self.pos = self.pos + 1;
                return Err(parser_error("Expected expression"));
            },
        };
        assert(expr_view(left) == lv);
        self.pos = self.pos + 1;
        if self.is_at(self.pos, &Token::Equals) {
            assert(at(t, i + 1) == Some(Lexeme::Equals));
            self.pos = self.pos + 1;
            let right = match self.parse_expression() {
                Ok(e) => e,
                Err(e) => {
                    return Err(e);
                },
            };
            let r = Expr::BinaryOp { left: Box::new(left), op: Token::Equals, right: Box::new(right) };
            assert(expr_view(r) == ExprV::Bin(Box::new(lv), Lexeme::Equals, Box::new(expr_view(right))));
            Ok(r)
        } else {
            assert(!(at(t, i + 1) matches Some(Lexeme::Equals)));
            Ok(left)
        }
    }

    /// `CREATE TABLE name ( name type, ... )`.
    fn parse_create_table(&mut self) -> (r: Result<Statement, SqlError>)
        requires
            old(self).wf(),
        ensures
            final(self).wf(),
            final(self).toks() == old(self).toks(),
            parsed(r, p_create(old(self).toks(), old(self).position()), |s: Statement| stmt_view(s), final(self).position()),
    {
        let ghost t = self.toks();
        let ghost i = self.pos as int;
        match self.consume(Token::Create) {
            Ok(_) => {},
            Err(e) => {
                return Err(e);
            },
        }
        match self.consume(Token::Table) {
            Ok(_) => {},
            Err(e) => {
                return Err(e);
            },
        }
        let table_name = match self.identifier("Expected table name") {
            Ok(n) => n,
            Err(e) => {
                return Err(e);
            },
        };
        match self.consume(Token::OpenParen) {
            Ok(_) => {},
            Err(e) => {
                return Err(e);
            },
        }
        let mut columns: Vec<ColumnDef> = Vec::new();
        let ghost start = self.pos as int;
        proof {
            lemma_pre_empty(p_coldefs(t, start));
        }
        loop
            invariant_except_break
                p_coldefs(t, start) == pre(coldefs_view(columns@), p_coldefs(t, self.pos as int)),
            invariant
                self.wf(),
                self.toks() == t,
                t == old(self).toks(),
                i == old(self).position(),
                p_coldefs(t, start) is None ==> p_create(t, i) is None,
                start <= self.pos,
            ensures
                self.wf(),
                self.toks() == t,
                p_coldefs(t, start) == Some((coldefs_view(columns@), self.pos as int)),
                at(t, self.pos as int) matches Some(Lexeme::CloseParen),
            decreases t.len() - self.pos,
        {
            let ghost cur = self.pos as int;
            let col_name = match self.identifier("Expected column name") {
                Ok(n) => n,
                Err(e) => {
                    return Err(e);
                },
            };
            if self.pos >= self.tokens.len() {
                return Err(parser_error("Expected column type"));
            }
            assert(t[self.pos as int] == lexeme(self.tokens@[self.pos as int]));
            let data_type = match &self.tokens[self.pos] {
                Token::IntType => DataType::Integer,
                Token::TextType => DataType::Text,
                Token::BoolType => DataType::Boolean,
                _ => {
                    return Err(parser_error("Expected column type"));
                },
            };
            self.pos = self.pos + 1;
            let ghost before = columns@;
            columns.push(ColumnDef { name: col_name, data_type });
            proof {
                assert(coldefs_view(columns@) =~= coldefs_view(before).push((col_name@, data_type)));
            }
            if self.is_at(self.pos, &Token::Comma) {
                self.pos = self.pos + 1;
                proof {
                    lemma_pre_step(coldefs_view(before), (col_name@, data_type), p_coldefs(t, self.pos as int));
                }
            } else if self.is_at(self.pos, &Token::CloseParen) {
                proof {
                    assert(coldefs_view(before) + seq![(col_name@, data_type)] =~= coldefs_view(columns@));
                }
                break;
            } else {
                return Err(parser_error("Expected ',' or ')'"));
            }
        }
        match self.consume(Token::CloseParen) {
            Ok(_) => {},
            Err(e) => {
                return Err(e);
            },
        }
        Ok(Statement::CreateTable { name: table_name, columns })
    }

    /// `INSERT INTO name [( columns )] VALUES ( values )`.
    fn parse_insert(&mut self) -> (r: Result<Statement, SqlError>)
        requires
            old(self).wf(),
        ensures
            final(self).wf(),
            final(self).toks() == old(self).toks(),
            parsed(r, p_insert(old(self).toks(), old(self).position()), |s: Statement| stmt_view(s), final(self).position()),
    {
        let ghost t = self.toks();
        let ghost i = self.pos as int;
        match self.consume(Token::Insert) {
            Ok(_) => {},
            Err(e) => {
                return Err(e);
            },
        }
        match self.consume(Token::Into) {
            Ok(_) => {},
            Err(e) => {
                return Err(e);
            },
        }
        let table_name = match self.identifier("Expected table name") {
            Ok(n) => n,
            Err(e) => {
                return Err(e);
            },
        };
        let mut columns: Option<Vec<String>> = None;
        if self.is_at(self.pos, &Token::OpenParen) {
            self.pos = self.pos + 1;
            let mut cols: Vec<String> = Vec::new();
            let ghost start = self.pos as int;
            proof {
                lemma_pre_empty(p_names(t, start));
            }
            loop
                invariant_except_break
                    p_names(t, start) == pre(names_view(cols@), p_names(t, self.pos as int)),
                invariant
                    self.wf(),
                    self.toks() == t,
                    t == old(self).toks(),
                    i == old(self).position(),
                    start == i + 4,
                    at(t, i) matches Some(Lexeme::Insert),
                    at(t, i + 1) matches Some(Lexeme::Into),
                    at(t, i + 2) == Some(Lexeme::Ident(table_name@)),
                    at(t, i + 3) matches Some(Lexeme::OpenParen),
                    start <= self.pos,
                ensures
                    self.wf(),
                    self.toks() == t,
                    p_names(t, start) == Some((names_view(cols@), self.pos as int)),
                    at(t, self.pos as int) matches Some(Lexeme::CloseParen),
                decreases t.len() - self.pos,
            {
                let name = match self.identifier("Expected column name") {
                    Ok(n) => n,
                    Err(e) => {
                        return Err(e);
                    },
                };
                let ghost before = cols@;
                cols.push(name);
                assert(names_view(cols@) =~= names_view(before).push(name@));
                if self.is_at(self.pos, &Token::Comma) {
                    self.pos = self.pos + 1;
                    proof {
                        lemma_pre_step(names_view(before), name@, p_names(t, self.pos as int));
                    }
                } else if self.is_at(self.pos, &Token::CloseParen) {
                    assert(names_view(before) + seq![name@] =~= names_view(cols@));
                    break;
                } else {
                    return Err(parser_error("Expected ',' or ')'"));
                }
            }
            match self.consume(Token::CloseParen) {
                Ok(_) => {},
                Err(e) => {
                    return Err(e);
                },
            }
            columns = Some(cols);
        }
        let ghost k = self.pos as int;
        match self.consume(Token::Values) {
            Ok(_) => {},
            Err(e) => {
                return Err(e);
            },
        }
        match self.consume(Token::OpenParen) {
            Ok(_) => {},
            Err(e) => {
                return Err(e);
            },
        }
        let ghost cs = match &columns {
            Some(c) => Some(names_view(c@)),
            None => None::<Seq<Seq<char>>>,
        };
        let mut values: Vec<Expr> = Vec::new();
        let ghost start = self.pos as int;
        proof {
            lemma_pre_empty(p_values(t, start));
        }
        loop
            invariant_except_break
                p_values(t, start) == pre(exprs_view(values@), p_values(t, self.pos as int)),
            invariant
                self.wf(),
                self.toks() == t,
                t == old(self).toks(),
                i == old(self).position(),
                start == k + 2,
                p_values(t, start) is None ==> p_insert(t, i) is None,
                p_values(t, start) matches Some((vs, j)) ==> p_insert(t, i) == (if at(t, j) matches Some(Lexeme::CloseParen) {
                    Some((StmtV::Insert(table_name@, cs, vs), j + 1))
                } else {
                    None
                }),
                start <= self.pos,
            ensures
                self.wf(),
                self.toks() == t,
                p_values(t, start) == Some((exprs_view(values@), self.pos as int)),
                at(t, self.pos as int) matches Some(Lexeme::CloseParen),
            decreases t.len() - self.pos,
        {
            proof {
                lemma_p_expr_bounds(t, self.pos as int);
            }
            let e = match self.parse_expression() {
                Ok(e) => e,
                Err(err) => {
                    return Err(err);
                },
            };
            let ghost before = values@;
            let ghost ev = expr_view(e);
            values.push(e);
            assert(exprs_view(values@) =~= exprs_view(before).push(ev));
            if self.is_at(self.pos, &Token::Comma) {
                self.pos = self.pos + 1;
                proof {
                    lemma_pre_step(exprs_view(before), ev, p_values(t, self.pos as int));
                }
            } else if self.is_at(self.pos, &Token::CloseParen) {
                assert(exprs_view(before) + seq![ev] =~= exprs_view(values@));
                break;
            } else {
                return Err(parser_error("Expected ',' or ')'"));
            }
        }
        match self.consume(Token::CloseParen) {
            Ok(_) => {},
            Err(e) => {
                return Err(e);
            },
        }
        Ok(Statement::Insert { table_name, columns, values })
    }

    /// `SELECT (* | columns) FROM name [WHERE expr]`.
    fn parse_select(&mut self) -> (r: Result<Statement, SqlError>)
        requires
            old(self).wf(),
        ensures
            final(self).wf(),
            final(self).toks() == old(self).toks(),
            parsed(r, p_select(old(self).toks(), old(self).position()), |s: Statement| stmt_view(s), final(self).position()),
    {
        let ghost t = self.toks();
        let ghost i = self.pos as int;
        match self.consume(Token::Select) {
            Ok(_) => {},
            Err(e) => {
                return Err(e);
            },
        }
        let mut columns: Vec<String> = Vec::new();
        if self.is_at(self.pos, &Token::Asterisk) {
            self.pos = self.pos + 1;
            assert(names_view(columns@) =~= Seq::<Seq<char>>::empty());
        } else {
            let ghost start = self.pos as int;
            proof {
                lemma_pre_empty(p_col_list(t, start));
            }
            loop
                invariant_except_break
                    p_col_list(t, start) == pre(names_view(columns@), p_col_list(t, self.pos as int)),
                invariant
                    self.wf(),
                    self.toks() == t,
                    t == old(self).toks(),
                    i == old(self).position(),
                    start == i + 1,
                    at(t, i) matches Some(Lexeme::Select),
                    !(at(t, i + 1) matches Some(Lexeme::Asterisk)),
                    start <= self.pos,
                ensures
                    self.wf(),
                    self.toks() == t,
                    p_col_list(t, start) == Some((names_view(columns@), self.pos as int)),
                decreases t.len() - self.pos,
            {
                let name = match self.identifier("Expected column name or '*'") {
                    Ok(n) => n,
                    Err(e) => {
                        return Err(e);
                    },
                };
                let ghost before = columns@;
                columns.push(name);
                assert(names_view(columns@) =~= names_view(before).push(name@));
                if self.is_at(self.pos, &Token::Comma) {
                    self.pos = self.pos + 1;
                    proof {
                        lemma_pre_step(names_view(before), name@, p_col_list(t, self.pos as int));
                    }
                } else {
                    assert(names_view(before) + seq![name@] =~= names_view(columns@));
                    break;
                }
            }
        }
        match self.consume(Token::From) {
            Ok(_) => {},
            Err(e) => {
                return Err(e);
            },
        }
        let table_name = match self.identifier("Expected table name") {
            Ok(n) => n,
            Err(e) => {
                return Err(e);
            },
        };
        if self.is_at(self.pos, &Token::Where) {
            self.pos = self.pos + 1;
            let e = match self.parse_expression() {
                Ok(e) => e,
                Err(err) => {
                    return Err(err);
                },
            };
            Ok(Statement::Select { table_name, columns, where_clause: Some(e) })
        } else {
            Ok(Statement::Select { table_name, columns, where_clause: None })
        }
    }

    fn parse_statement(&mut self) -> (r: Result<Statement, SqlError>)
        requires
            old(self).wf(),
        ensures
            final(self).wf(),
            final(self).toks() == old(self).toks(),
            parsed(r, p_statement(old(self).toks(), old(self).position()), |s: Statement| stmt_view(s), final(self).position()),
    {
        if self.pos >= self.tokens.len() {
            return Err(parser_error("Unexpected EOF"));
        }
        assert(self.toks()[self.pos as int] == lexeme(self.tokens@[self.pos as int]));
        match &self.tokens[self.pos] {
            Token::Create => self.parse_create_table(),
            Token::Insert => self.parse_insert(),
            Token::Select => self.parse_select(),
            t => Err(SqlError::ParserError(describe_statement_start(t))),
        }
    }

    /// All statements, each optionally followed by a semicolon.
    pub fn parse(&mut self) -> (r: Result<Vec<Statement>, SqlError>)
        requires
            old(self).wf(),
        ensures
            final(self).wf(),
            final(self).toks() == old(self).toks(),
            match (r, p_all(old(self).toks(), old(self).position())) {
                (Ok(v), Some(sv)) => v@.map_values(|s: Statement| stmt_view(s)) == sv,
                (Err(SqlError::ParserError(_)), None) => true,
                _ => false,
            },
    {
        let ghost t = self.toks();
        let ghost p0 = self.pos as int;
        let mut stmts: Vec<Statement> = Vec::new();
        while self.pos < self.tokens.len()
            invariant
                self.wf(),
                self.toks() == t,
                t == old(self).toks(),
                p0 == old(self).position(),
                p0 <= self.pos,
                p_all(t, p0) == match p_all(t, self.pos as int) {
                    Some(rest) => Some(stmts@.map_values(|s: Statement| stmt_view(s)) + rest),
                    None => None,
                },
            decreases t.len() - self.pos,
        {
            let cur = self.pos;
            let s = match self.parse_statement() {
                Ok(s) => s,
                Err(e) => {
                    return Err(e);
                },
            };
            if self.is_at(self.pos, &Token::Semicolon) {
                self.pos = self.pos + 1;
            }
            if self.pos <= cur {
                return Err(parser_error("Unexpected EOF"));
            }
            let ghost before = stmts@;
            let ghost sv = stmt_view(s);
            stmts.push(s);
            proof {
                assert(stmts@.map_values(|s: Statement| stmt_view(s)) =~= before.map_values(|s: Statement| stmt_view(s)).push(sv));
                match p_all(t, self.pos as int) {
                    Some(rest) => {
                        assert(before.map_values(|s: Statement| stmt_view(s)) + (seq![sv] + rest) =~= stmts@.map_values(|s: Statement| stmt_view(s)) + rest);
                    },
                    None => {},
                }
            }
        }
        assert(stmts@.map_values(|s: Statement| stmt_view(s)) + Seq::<StmtV>::empty() =~= stmts@.map_values(|s: Statement| stmt_view(s)));
        Ok(stmts)
    }
}


/// The columns of a table.
#[derive(Debug)]
pub struct TableSchema {
    pub columns: Vec<ColumnDef>,
}

/// A row of a table.
#[derive(Debug)]
pub struct Row {
    pub values: Vec<Value>,
}

/// The columns of a schema, as names and types.
pub open spec fn schema_view(s: TableSchema) -> Seq<(Seq<char>, DataType)> {
    coldefs_view(s.columns@)
}

pub open spec fn row_view(r: Row) -> Seq<Cell> {
    r.values@.map_values(|v: Value| cell(v))
}

pub open spec fn rows_view(rs: Seq<Row>) -> Seq<Seq<Cell>> {
    rs.map_values(|r: Row| row_view(r))
}

/// Index of the first column named `name`, or -1.
pub open spec fn col_pos(cols: Seq<(Seq<char>, DataType)>, name: Seq<char>) -> int
    decreases cols.len(),
{
    if cols.len() == 0 {
        -1
    } else if cols[0].0 == name {
        0
    } else if col_pos(cols.drop_first(), name) < 0 {
        -1
    } else {
        col_pos(cols.drop_first(), name) + 1
    }
}

proof fn lemma_col_pos(cols: Seq<(Seq<char>, DataType)>, name: Seq<char>)
    ensures
        -1 <= col_pos(cols, name) < cols.len(),
        col_pos(cols, name) >= 0 ==> cols[col_pos(cols, name)].0 == name,
        forall|j: int|
            0 <= j < cols.len() && (col_pos(cols, name) < 0 || j < col_pos(cols, name)) ==> #[trigger] cols[j].0 != name,
    decreases cols.len(),
{
    if cols.len() > 0 && cols[0].0 != name {
        lemma_col_pos(cols.drop_first(), name);
        assert forall|j: int|
            0 <= j < cols.len() && (col_pos(cols, name) < 0 || j < col_pos(cols, name)) implies #[trigger] cols[j].0
            != name by {
            if j > 0 {
                assert(cols[j] == cols.drop_first()[j - 1]);
            }
        }
    }
}

/// The name of a column type.
pub open spec fn kind_name(d: DataType) -> Seq<char> {
    match d {
        DataType::Integer => "Integer"@,
        DataType::Text => "Text"@,
        DataType::Boolean => "Boolean"@,
    }
}

/// A value fits a column type; null fits every type.
pub open spec fn fits(c: Cell, d: DataType) -> bool {
    match (c, d) {
        (Cell::Int(_), DataType::Integer) => true,
        (Cell::Text(_), DataType::Text) => true,
        (Cell::Bool(_), DataType::Boolean) => true,
        (Cell::Null, _) => true,
        _ => false,
    }
}

/// The first value, from `i` on, that is not a literal of its column's type, or -1.
pub open spec fn first_bad(cols: Seq<(Seq<char>, DataType)>, vals: Seq<ExprV>, i: int) -> int
    decreases vals.len() - i,
{
    if i < 0 || i >= vals.len() {
        -1
    } else if !(vals[i] matches ExprV::Lit(c) && fits(c, cols[i].1)) {
        i
    } else {
        first_bad(cols, vals, i + 1)
    }
}

/// The row an `INSERT ... VALUES` without a column list stores, or why it is refused.
pub open spec fn insert_row_spec(cols: Seq<(Seq<char>, DataType)>, named: bool, vals: Seq<ExprV>) -> Result<
    Seq<Cell>,
    Seq<char>,
> {
    if named {
        Err("Named column inserts not yet supported"@)
    } else if vals.len() != cols.len() {
        Err("Column count mismatch. Expected "@ + decimal(cols.len()) + ", got "@ + decimal(vals.len()))
    } else {
        let b = first_bad(cols, vals, 0);
        if b < 0 {
            Ok(vals.map_values(|e: ExprV| match e {
                ExprV::Lit(c) => c,
                _ => Cell::Null,
            }))
        } else {
            match vals[b] {
                ExprV::Lit(c) => Err(mismatch_prefix(cols[b]) + cell_debug(c)),
                _ => Err("Only literals supported in INSERT VALUES"@),
            }
        }
    }
}

/// The start of the message of an insert whose value does not fit column `c`; the value as
/// `Debug` shows it follows.
pub open spec fn mismatch_prefix(c: (Seq<char>, DataType)) -> Seq<char> {
    "Type mismatch for column '"@ + c.0 + "'. Expected "@ + kind_name(c.1) + ", got "@
}

/// The value of an operand of a `WHERE` comparison in a row.
pub open spec fn eval_operand(e: ExprV, row: Seq<Cell>, cols: Seq<(Seq<char>, DataType)>) -> Result<Cell, Seq<char>> {
    match e {
        ExprV::Lit(c) => Ok(c),
        ExprV::Ident(n) => if col_pos(cols, n) < 0 {
            Err("Column '"@ + n + "' not found in WHERE clause"@)
        } else {
            Ok(row[col_pos(cols, n)])
        },
        ExprV::Bin(..) => Err("Nested binary operations not supported"@),
    }
}

/// Whether a row satisfies a `WHERE` condition `a = b`.
pub open spec fn eval_where(e: ExprV, row: Seq<Cell>, cols: Seq<(Seq<char>, DataType)>) -> Result<bool, Seq<char>> {
    match e {
        ExprV::Bin(l, op, r) => if !(op is Equals) {
            Err("Only '=' operator supported in WHERE"@)
        } else {
            match eval_operand(*l, row, cols) {
                Err(m) => Err(m),
                Ok(a) => match eval_operand(*r, row, cols) {
                    Err(m) => Err(m),
                    Ok(b) => Ok(a == b),
                },
            }
        },
        _ => Err("WHERE clause must be a boolean expression"@),
    }
}

/// The column indices of a list of names, in order.
pub open spec fn projection_list(cols: Seq<(Seq<char>, DataType)>, names: Seq<Seq<char>>) -> Result<
    Seq<int>,
    Seq<char>,
>
    decreases names.len(),
{
    if names.len() == 0 {
        Ok(seq![])
    } else {
        match projection_list(cols, names.drop_last()) {
            Err(m) => Err(m),
            Ok(idx) => if col_pos(cols, names.last()) < 0 {
                Err("Column '"@ + names.last() + "' not found"@)
            } else {
                Ok(idx.push(col_pos(cols, names.last())))
            },
        }
    }
}

/// The column indices a `SELECT` list names: every column for `*` (an empty list).
pub open spec fn projection(cols: Seq<(Seq<char>, DataType)>, names: Seq<Seq<char>>) -> Result<Seq<int>, Seq<char>> {
    if names.len() == 0 {
        Ok(Seq::new(cols.len(), |j: int| j))
    } else {
        projection_list(cols, names)
    }
}

/// The cells of `row` at the indices `idx`.
pub open spec fn project(row: Seq<Cell>, idx: Seq<int>) -> Seq<Cell> {
    idx.map_values(|j: int| row[j])
}

/// The selected rows: those satisfying the condition, in order, with the chosen columns.
pub open spec fn filter_rows(
    rows: Seq<Seq<Cell>>,
    idx: Seq<int>,
    cond: Option<ExprV>,
    cols: Seq<(Seq<char>, DataType)>,
) -> Result<Seq<Seq<Cell>>, Seq<char>>
    decreases rows.len(),
{
    if rows.len() == 0 {
        Ok(seq![])
    } else {
        let keep = match cond {
            None => Ok(true),
            Some(e) => eval_where(e, rows[0], cols),
        };
        match keep {
            Err(m) => Err(m),
            Ok(k) => match filter_rows(rows.drop_first(), idx, cond, cols) {
                Err(m) => Err(m),
                Ok(rest) => Ok(
                    if k {
                        seq![project(rows[0], idx)] + rest
                    } else {
                        rest
                    },
                ),
            },
        }
    }
}

/// What `SELECT names FROM t [WHERE cond]` gives on a table with columns `cols` and rows `rows`.
pub open spec fn select_spec(
    cols: Seq<(Seq<char>, DataType)>,
    rows: Seq<Seq<Cell>>,
    names: Seq<Seq<char>>,
    cond: Option<ExprV>,
) -> Result<Seq<Seq<Cell>>, Seq<char>> {
    match projection(cols, names) {
        Err(m) => Err(m),
        Ok(idx) => filter_rows(rows, idx, cond, cols),
    }
}

pub open spec fn opt_expr_view(e: Option<Expr>) -> Option<ExprV> {
    match e {
        Some(x) => Some(expr_view(x)),
        None => None,
    }
}

fn execution_error(m: &str) -> (e: SqlError)
    ensures
        e matches SqlError::ExecutionError(s) && s@ == m@,
{
    SqlError::ExecutionError(String::from_str(m))
}

/// A value as `Debug` formatting shows it.
fn value_debug(v: &Value) -> (s: String)
    ensures
        s@ == cell_debug(cell(*v)),
{
    let mut s = String::new();
    match v {
        Value::Integer(n) => {
            s.append("Integer(");
            push_int(&mut s, *n);
            s.append(")");
        },
        Value::Text(t) => {
            s.append("Text(");
            s.append(debug_str(t.as_str()).as_str());
            s.append(")");
        },
        Value::Boolean(b) => {
            s.append("Boolean(");
            push_bool(&mut s, *b);
            s.append(")");
        },
        Value::Null => s.append("Null"),
    }
    s
}

/// `pre + a + mid + b + post` as one string.
fn concat5(pre: &str, a: &str, mid: &str, b: &str, post: &str) -> (s: String)
    ensures
        s@ == pre@ + a@ + mid@ + b@ + post@,
{
    let s = String::from_str(pre);
    let s = s.concat(a);
    let s = s.concat(mid);
    let s = s.concat(b);
    s.concat(post)
}

/// `pre + a + post` as one string.
fn concat3(pre: &str, a: &str, post: &str) -> (s: String)
    ensures
        s@ == pre@ + a@ + post@,
{
    let s = String::from_str(pre);
    let s = s.concat(a);
    s.concat(post)
}

fn find_column(cols: &Vec<ColumnDef>, name: &String) -> (r: Option<usize>)
    ensures
        match r {
            Some(i) => i as int == col_pos(coldefs_view(cols@), name@),
            None => col_pos(coldefs_view(cols@), name@) < 0,
        },
{
    let ghost cv = coldefs_view(cols@);
    proof {
        lemma_col_pos(cv, name@);
    }
    let mut i: usize = 0;
    while i < cols.len()
        invariant
            cv == coldefs_view(cols@),
            i <= cols@.len(),
            -1 <= col_pos(cv, name@) < cv.len(),
            col_pos(cv, name@) >= 0 ==> cv[col_pos(cv, name@)].0 == name@,
            forall|j: int| 0 <= j < cv.len() && (col_pos(cv, name@) < 0 || j < col_pos(cv, name@)) ==> #[trigger] cv[j].0 != name@,
            col_pos(cv, name@) < 0 || col_pos(cv, name@) >= i,
        decreases cols@.len() - i,
    {
        assert(cv[i as int].0 == cols@[i as int].name@);
        if cols[i].name == *name {
            return Some(i);
        }
        i = i + 1;
    }
    None
}

/// The name of a column type, as its `Debug` formatting shows it.
fn kind_label(d: DataType) -> (s: &'static str)
    ensures
        s@ == kind_name(d),
{
    match d {
        DataType::Integer => "Integer",
        DataType::Text => "Text",
        DataType::Boolean => "Boolean",
    }
}

fn fits_exec(v: &Value, d: DataType) -> (b: bool)
    ensures
        b == fits(cell(*v), d),
{
    match (v, d) {
        (Value::Integer(_), DataType::Integer) => true,
        (Value::Text(_), DataType::Text) => true,
        (Value::Boolean(_), DataType::Boolean) => true,
        (Value::Null, _) => true,
        _ => false,
    }
}

/// The row that `INSERT ... VALUES (values)` stores into a table with `schema`, checking the
/// number of values, that each is a literal, and that each fits its column's type.
pub fn row_for_insert(schema: &TableSchema, columns: &Option<Vec<String>>, values: &Vec<Expr>) -> (r: Result<Row, SqlError>)
    ensures
        match (r, insert_row_spec(schema_view(*schema), columns is Some, exprs_view(values@))) {
            (Ok(row), Ok(cells)) => row_view(row) == cells,
            (Err(SqlError::ExecutionError(m)), Err(sm)) => m@ == sm,
            _ => false,
        },
{
    let ghost cols = schema_view(*schema);
    let ghost vals = exprs_view(values@);
    if columns.is_some() {
        return Err(execution_error("Named column inserts not yet supported"));
    }
    if values.len() != schema.columns.len() {
        let expected = string_of(decimal_chars(schema.columns.len() as u64).as_slice());
        let got = string_of(decimal_chars(values.len() as u64).as_slice());
        let m = concat5("Column count mismatch. Expected ", expected.as_str(), ", got ", got.as_str(), "");
        proof {
            reveal_strlit("");
            assert(m@ =~= "Column count mismatch. Expected "@ + decimal(cols.len()) + ", got "@ + decimal(vals.len()));
        }
        return Err(SqlError::ExecutionError(m));
    }
    let mut row_values: Vec<Value> = Vec::new();
    let mut i: usize = 0;
    while i < values.len()
        invariant
            cols == schema_view(*schema),
            vals == exprs_view(values@),
            !(columns is Some),
            values@.len() == cols.len(),
            i <= values@.len(),
            row_values@.len() == i,
            first_bad(cols, vals, 0) == first_bad(cols, vals, i as int),
            forall|j: int| 0 <= j < i ==> (#[trigger] vals[j]) == ExprV::Lit(cell(row_values@[j])),
        decreases values@.len() - i,
    {
        assert(vals[i as int] == expr_view(values@[i as int]));
        match &values[i] {
            Expr::Literal(v) => {
                let col = &schema.columns[i];
                assert(cols[i as int] == (col.name@, col.data_type));
                if !fits_exec(v, col.data_type) {
                    let shown = value_debug(v);
                    let m = concat5(
                        "Type mismatch for column '",
                        col.name.as_str(),
                        "'. Expected ",
                        kind_label(col.data_type),
                        ", got ",
                    );
                    let m = m.concat(shown.as_str());
                    proof {
                        assert(vals[i as int] == ExprV::Lit(cell(*v)));
                        assert(first_bad(cols, vals, i as int) == i);
                        assert(vals.len() == cols.len());
                        assert(m@ =~= mismatch_prefix(cols[i as int]) + cell_debug(cell(*v)));
                    }
                    return Err(SqlError::ExecutionError(m));
                }
                row_values.push(v.duplicate());
            },
            _ => {
                proof {
                    assert(!(vals[i as int] is Lit));
                    assert(first_bad(cols, vals, i as int) == i);
                    assert(vals.len() == cols.len());
                }
                return Err(execution_error("Only literals supported in INSERT VALUES"));
            },
        }
        i = i + 1;
    }
    let row = Row { values: row_values };
    proof {
        assert(first_bad(cols, vals, i as int) == -1);
        assert(row_view(row) =~= vals.map_values(
            |e: ExprV|
                match e {
                    ExprV::Lit(c) => c,
                    _ => Cell::Null,
                },
        ));
    }
    Ok(row)
}

/// The value of an operand of a `WHERE` comparison in `row`.
fn evaluate_expr(expr: &Expr, row: &Row, schema: &TableSchema) -> (r: Result<Value, SqlError>)
    requires
        row.values@.len() >= schema.columns@.len(),
    ensures
        match (r, eval_operand(expr_view(*expr), row_view(*row), schema_view(*schema))) {
            (Ok(v), Ok(c)) => cell(v) == c,
            (Err(SqlError::ExecutionError(m)), Err(sm)) => m@ == sm,
            _ => false,
        },
{
    match expr {
        Expr::Literal(v) => Ok(v.duplicate()),
        Expr::Ident(name) => match find_column(&schema.columns, name) {
            Some(i) => {
                proof {
                    lemma_col_pos(schema_view(*schema), name@);
                }
                Ok(row.values[i].duplicate())
            },
            None => Err(SqlError::ExecutionError(concat3("Column '", name.as_str(), "' not found in WHERE clause"))),
        },
        Expr::BinaryOp { .. } => Err(execution_error("Nested binary operations not supported")),
    }
}

/// Whether `row` satisfies the `WHERE` condition `expr`.
fn evaluate_boolean_expr(expr: &Expr, row: &Row, schema: &TableSchema) -> (r: Result<bool, SqlError>)
    requires
        row.values@.len() >= schema.columns@.len(),
    ensures
        match (r, eval_where(expr_view(*expr), row_view(*row), schema_view(*schema))) {
            (Ok(b), Ok(sb)) => b == sb,
            (Err(SqlError::ExecutionError(m)), Err(sm)) => m@ == sm,
            _ => false,
        },
{
    match expr {
        Expr::BinaryOp { left, op, right } => {
            match op {
                Token::Equals => {},
                _ => {
                    return Err(execution_error("Only '=' operator supported in WHERE"));
                },
            }
            let left_val = evaluate_expr(left, row, schema)?;
            let right_val = evaluate_expr(right, row, schema)?;
            Ok(left_val.equals(&right_val))
        },
        _ => Err(execution_error("WHERE clause must be a boolean expression")),
    }
}

/// The column indices that `columns` names in `schema` (every column for an empty list).
fn projection_indices(schema: &TableSchema, columns: &Vec<String>) -> (r: Result<Vec<usize>, SqlError>)
    ensures
        match (r, projection(schema_view(*schema), names_view(columns@))) {
            (Ok(v), Ok(idx)) => v@.len() == idx.len() && forall|k: int| 0 <= k < idx.len() ==> v@[k] as int == #[trigger] idx[k],
            (Err(SqlError::ExecutionError(m)), Err(sm)) => m@ == sm,
            _ => false,
        },
{
    let ghost cols = schema_view(*schema);
    let ghost names = names_view(columns@);
    let mut out: Vec<usize> = Vec::new();
    if columns.len() == 0 {
        let mut j: usize = 0;
        while j < schema.columns.len()
            invariant
                j <= schema.columns@.len(),
                out@.len() == j,
                forall|k: int| 0 <= k < j ==> out@[k] as int == k,
            decreases schema.columns@.len() - j,
        {
            out.push(j);
            j = j + 1;
        }
        return Ok(out);
    }
    let mut i: usize = 0;
    while i < columns.len()
        invariant
            cols == schema_view(*schema),
            names == names_view(columns@),
            i <= columns@.len(),
            projection_list(cols, names.take(i as int)) matches Ok(idx) && out@.len() == idx.len() && forall|k: int|
                0 <= k < idx.len() ==> out@[k] as int == #[trigger] idx[k],
        decreases columns@.len() - i,
    {
        assert(names.take(i as int + 1).drop_last() =~= names.take(i as int));
        assert(names.take(i as int + 1).last() == columns@[i as int]@);
        match find_column(&schema.columns, &columns[i]) {
            Some(p) => {
                out.push(p);
            },
            None => {
                proof {
                    lemma_projection_prefix_err(cols, names, i as int + 1);
                }
                return Err(SqlError::ExecutionError(concat3("Column '", columns[i].as_str(), "' not found")));
            },
        }
        i = i + 1;
    }
    assert(names.take(i as int) =~= names);
    Ok(out)
}

/// A failure on a prefix of the names is the failure on the whole list.
proof fn lemma_projection_prefix_err(cols: Seq<(Seq<char>, DataType)>, names: Seq<Seq<char>>, k: int)
    requires
        0 <= k <= names.len(),
        projection_list(cols, names.take(k)) is Err,
    ensures
        projection_list(cols, names) == projection_list(cols, names.take(k)),
    decreases names.len() - k,
{
    if k < names.len() {
        assert(names.take(k + 1).drop_last() =~= names.take(k));
        lemma_projection_prefix_err(cols, names, k + 1);
    } else {
        assert(names.take(k) =~= names);
    }
}

/// `acc` followed by the rows of `r`, or the error of `r`.
pub open spec fn prepend_rows(acc: Seq<Seq<Cell>>, r: Result<Seq<Seq<Cell>>, Seq<char>>) -> Result<Seq<Seq<Cell>>, Seq<char>> {
    match r {
        Err(m) => Err(m),
        Ok(rest) => Ok(acc + rest),
    }
}

/// The rows that `SELECT columns FROM t [WHERE where_clause]` gives on a table with `schema`
/// and `rows`: those the condition accepts, in order, cut down to the named columns.
pub fn select_rows(schema: &TableSchema, rows: &Vec<Row>, columns: &Vec<String>, where_clause: &Option<Expr>) -> (r: Result<
    Vec<Row>,
    SqlError,
>)
    requires
        forall|k: int| 0 <= k < rows@.len() ==> (#[trigger] rows@[k]).values@.len() >= schema.columns@.len(),
    ensures
        match (r, select_spec(schema_view(*schema), rows_view(rows@), names_view(columns@), opt_expr_view(*where_clause))) {
            (Ok(out), Ok(sel)) => rows_view(out@) == sel,
            (Err(SqlError::ExecutionError(m)), Err(sm)) => m@ == sm,
            _ => false,
        },
{
    let ghost cols = schema_view(*schema);
    let ghost rv = rows_view(rows@);
    let ghost cond = opt_expr_view(*where_clause);
    let idx = projection_indices(schema, columns)?;
    let ghost sidx = projection(cols, names_view(columns@))->Ok_0;
    proof {
        lemma_col_pos(cols, seq![]);
        assert forall|k: int| 0 <= k < sidx.len() implies 0 <= #[trigger] sidx[k] < cols.len() by {
            if names_view(columns@).len() > 0 {
                lemma_projection_bounds(cols, names_view(columns@));
            }
        }
    }
    let mut out: Vec<Row> = Vec::new();
    let mut k: usize = 0;
    proof {
        assert(rv.skip(0) =~= rv);
        match filter_rows(rv, sidx, cond, cols) {
            Ok(all) => {
                assert(rows_view(out@) + all =~= all);
            },
            Err(_) => {},
        }
    }
    while k < rows.len()
        invariant
            cols == schema_view(*schema),
            cols.len() == schema.columns@.len(),
            projection(cols, names_view(columns@)) == Ok::<Seq<int>, Seq<char>>(sidx),
            rv == rows_view(rows@),
            cond == opt_expr_view(*where_clause),
            k <= rows@.len(),
            idx@.len() == sidx.len(),
            forall|t: int| 0 <= t < sidx.len() ==> idx@[t] as int == #[trigger] sidx[t],
            forall|t: int| 0 <= t < sidx.len() ==> 0 <= #[trigger] sidx[t] < cols.len(),
            forall|q: int| 0 <= q < rows@.len() ==> (#[trigger] rows@[q]).values@.len() >= schema.columns@.len(),
            filter_rows(rv, sidx, cond, cols) == prepend_rows(rows_view(out@), filter_rows(rv.skip(k as int), sidx, cond, cols)),
        decreases rows@.len() - k,
    {
        let row = &rows[k];
        assert(rv.skip(k as int)[0] == row_view(*row));
        assert(rv.skip(k as int).drop_first() =~= rv.skip(k as int + 1));
        let keep = match where_clause {
            Some(e) => match evaluate_boolean_expr(e, row, schema) {
                Ok(b) => b,
                Err(err) => {
                    proof {
                        assert(cond == Some(expr_view(*e)));
                        assert(rv.skip(k as int).len() > 0);
                        let ev = eval_where(expr_view(*e), row_view(*row), cols);
                        assert(ev is Err);
                        assert(filter_rows(rv.skip(k as int), sidx, cond, cols) == Err::<Seq<Seq<Cell>>, Seq<char>>(ev->Err_0));
                        assert(filter_rows(rv, sidx, cond, cols) == Err::<Seq<Seq<Cell>>, Seq<char>>(ev->Err_0));
                        assert(projection(cols, names_view(columns@)) == Ok::<Seq<int>, Seq<char>>(sidx));
                    }
                    return Err(err);
                },
            },
            None => true,
        };
        if keep {
            let mut vals: Vec<Value> = Vec::new();
            let mut t: usize = 0;
            while t < idx.len()
                invariant
                    t <= idx@.len(),
                    idx@.len() == sidx.len(),
                    forall|u: int| 0 <= u < sidx.len() ==> idx@[u] as int == #[trigger] sidx[u],
                    forall|u: int| 0 <= u < sidx.len() ==> 0 <= #[trigger] sidx[u] < cols.len(),
                    cols == schema_view(*schema),
                    cols.len() == schema.columns@.len(),
                    row.values@.len() >= schema.columns@.len(),
                    vals@.len() == t,
                    forall|u: int| 0 <= u < t ==> cell(#[trigger] vals@[u]) == row_view(*row)[sidx[u]],
                decreases idx@.len() - t,
            {
                assert(idx@[t as int] as int == sidx[t as int] && sidx[t as int] < cols.len());
                vals.push(row.values[idx[t]].duplicate());
                t = t + 1;
            }
            let projected = Row { values: vals };
            proof {
                assert(row_view(projected) =~= project(row_view(*row), sidx));
                assert(rows_view(out@.push(projected)) =~= rows_view(out@) + seq![project(row_view(*row), sidx)]);
                match filter_rows(rv.skip(k as int + 1), sidx, cond, cols) {
                    Ok(rest) => {
                        assert(rows_view(out@) + (seq![project(row_view(*row), sidx)] + rest) =~= rows_view(out@)
                            + seq![project(row_view(*row), sidx)] + rest);
                    },
                    Err(_) => {},
                }
            }
            out.push(projected);
        }
        k = k + 1;
    }
    proof {
        assert(rv.skip(k as int) =~= Seq::<Seq<Cell>>::empty());
        assert(rows_view(out@) + Seq::<Seq<Cell>>::empty() =~= rows_view(out@));
    }
    Ok(out)
}

/// Every index a successful projection list gives names a column.
proof fn lemma_projection_bounds(cols: Seq<(Seq<char>, DataType)>, names: Seq<Seq<char>>)
    requires
        projection_list(cols, names) is Ok,
    ensures
        forall|k: int| 0 <= k < projection_list(cols, names)->Ok_0.len() ==> 0 <= #[trigger] projection_list(cols, names)->Ok_0[k] < cols.len(),
    decreases names.len(),
{
    if names.len() > 0 {
        lemma_projection_bounds(cols, names.drop_last());
        lemma_col_pos(cols, names.last());
    }
}


/// The tables of a store: each name with its columns and its rows.
pub type Tables = Map<Seq<char>, (Seq<(Seq<char>, DataType)>, Seq<Seq<Cell>>)>;

/// Where the engine keeps its tables.
pub trait StorageEngine: Sized {
    /// What the store holds.
    spec fn tables(&self) -> Tables;

    /// The store's own invariant.
    spec fn ready(&self) -> bool;

    /// Whether the store, holding `t`, may refuse an operation on table `name`: creating it
    /// when `creating`, otherwise reading its schema or rows or appending a row to it.
    spec fn refuses(t: Tables, name: Seq<char>, creating: bool) -> bool;

    /// Adds an empty table `name` with `schema`.
    fn create_table(&mut self, name: &str, schema: TableSchema) -> (r: Result<(), SqlError>)
        requires
            old(self).ready(),
        ensures
            final(self).ready(),
            r is Ok ==> !old(self).tables().contains_key(name@) && final(self).tables() == old(self).tables().insert(
                name@,
                (schema_view(schema), seq![]),
            ),
            r is Err ==> r->Err_0 is StorageError && final(self).tables() == old(self).tables()
                && Self::refuses(old(self).tables(), name@, true),
    ;

    /// The schema of table `table_name`.
    fn get_schema(&self, table_name: &str) -> (r: Result<TableSchema, SqlError>)
        requires
            self.ready(),
        ensures
            r is Ok ==> self.tables().contains_key(table_name@) && schema_view(r->Ok_0) == self.tables()[table_name@].0,
            r is Err ==> r->Err_0 is StorageError && Self::refuses(self.tables(), table_name@, false),
    ;

    /// Appends `row` to table `table_name`.
    fn insert_row(&mut self, table_name: &str, row: Row) -> (r: Result<(), SqlError>)
        requires
            old(self).ready(),
        ensures
            final(self).ready(),
            r is Ok ==> old(self).tables().contains_key(table_name@) && final(self).tables() == old(self).tables().insert(
                table_name@,
                (old(self).tables()[table_name@].0, old(self).tables()[table_name@].1.push(row_view(row))),
            ),
            r is Err ==> r->Err_0 is StorageError && final(self).tables() == old(self).tables()
                && Self::refuses(old(self).tables(), table_name@, false),
    ;

    /// The rows of table `table_name`, in the order they were inserted.
    fn scan_table(&self, table_name: &str) -> (r: Result<Vec<Row>, SqlError>)
        requires
            self.ready(),
        ensures
            r is Ok ==> self.tables().contains_key(table_name@) && rows_view(r->Ok_0@) == self.tables()[table_name@].1,
            r is Err ==> r->Err_0 is StorageError && Self::refuses(self.tables(), table_name@, false),
    ;
}

/// Every table's rows have as many values as the table has columns.
pub open spec fn consistent(t: Tables) -> bool {
    forall|name: Seq<char>, k: int|
        t.contains_key(name) && 0 <= k < t[name].1.len() ==> (#[trigger] t[name].1[k]).len() == t[name].0.len()
}

/// A store that keeps its tables in memory.
pub struct InMemoryStorage {
    names: Vec<String>,
    schemas: Vec<TableSchema>,
    rows: Vec<Vec<Row>>,
}

/// A copy of a schema.
fn copy_schema(s: &TableSchema) -> (c: TableSchema)
    ensures
        schema_view(c) == schema_view(*s),
{
    let mut columns: Vec<ColumnDef> = Vec::new();
    let mut i: usize = 0;
    while i < s.columns.len()
        invariant
            i <= s.columns@.len(),
            columns@.len() == i,
            forall|j: int| 0 <= j < i ==> (#[trigger] columns@[j]).name@ == s.columns@[j].name@ && columns@[j].data_type
                == s.columns@[j].data_type,
        decreases s.columns@.len() - i,
    {
        let c = &s.columns[i];
        columns.push(ColumnDef { name: c.name.clone(), data_type: c.data_type });
        i = i + 1;
    }
    let c = TableSchema { columns };
    assert(schema_view(c) =~= schema_view(*s));
    c
}

/// A copy of a list of rows.
fn copy_rows(rs: &Vec<Row>) -> (c: Vec<Row>)
    ensures
        rows_view(c@) == rows_view(rs@),
{
    let mut out: Vec<Row> = Vec::new();
    let mut i: usize = 0;
    while i < rs.len()
        invariant
            i <= rs@.len(),
            out@.len() == i,
            forall|j: int| 0 <= j < i ==> row_view(#[trigger] out@[j]) == row_view(rs@[j]),
        decreases rs@.len() - i,
    {
        let r = &rs[i];
        let mut vals: Vec<Value> = Vec::new();
        let mut k: usize = 0;
        while k < r.values.len()
            invariant
                k <= r.values@.len(),
                vals@.len() == k,
                forall|j: int| 0 <= j < k ==> cell(#[trigger] vals@[j]) == cell(r.values@[j]),
            decreases r.values@.len() - k,
        {
            vals.push(r.values[k].duplicate());
            k = k + 1;
        }
        let copy = Row { values: vals };
        assert(row_view(copy) =~= row_view(*r));
        out.push(copy);
        i = i + 1;
    }
    assert(rows_view(out@) =~= rows_view(rs@));
    out
}

/// "Table '" + name + "' " + what.
fn table_error(name: &str, what: &str) -> (e: SqlError)
    ensures
        e matches SqlError::StorageError(m) && m@ == "Table '"@ + name@ + "' "@ + what@,
{
    SqlError::StorageError(concat3("Table '", name, "' ").concat(what))
}

impl InMemoryStorage {
    pub closed spec fn names_view(&self) -> Seq<Seq<char>> {
        self.names@.map_values(|s: String| s@)
    }

    pub closed spec fn wf(&self) -> bool {
        &&& self.schemas@.len() == self.names@.len()
        &&& self.rows@.len() == self.names@.len()
        &&& forall|a: int, b: int| 0 <= a < b < self.names@.len() ==> self.names@[a]@ != self.names@[b]@
    }

    pub closed spec fn model(&self) -> Tables {
        Map::new(
            |k: Seq<char>| name_pos(self.names_view(), k) >= 0,
            |k: Seq<char>|
                (
                    schema_view(self.schemas@[name_pos(self.names_view(), k)]),
                    rows_view(self.rows@[name_pos(self.names_view(), k)]@),
                ),
        )
    }

    /// An empty store.
    pub fn new() -> (s: Self)
        ensures
            s.ready(),
            s.tables() == Map::<Seq<char>, (Seq<(Seq<char>, DataType)>, Seq<Seq<Cell>>)>::empty(),
    {
        let s = InMemoryStorage { names: Vec::new(), schemas: Vec::new(), rows: Vec::new() };
        assert(s.model() =~= Map::<Seq<char>, (Seq<(Seq<char>, DataType)>, Seq<Seq<Cell>>)>::empty());
        s
    }

    fn find(&self, name: &str) -> (r: Option<usize>)
        requires
            self.wf(),
        ensures
            match r {
                Some(i) => i as int == name_pos(self.names_view(), name@) && i < self.names@.len(),
                None => name_pos(self.names_view(), name@) < 0,
            },
    {
        proof {
            lemma_name_pos(self.names_view(), name@);
        }
        let mut i: usize = self.names.len();
        while i > 0
            invariant
                i <= self.names@.len(),
                self.wf(),
                -1 <= name_pos(self.names_view(), name@) < self.names@.len(),
                name_pos(self.names_view(), name@) >= 0 ==> self.names_view()[name_pos(self.names_view(), name@)] == name@,
                name_pos(self.names_view(), name@) < i,
            decreases i,
        {
            i = i - 1;
            assert(self.names_view()[i as int] == self.names@[i as int]@);
            if str_eq(self.names[i].as_str(), name) {
                proof {
                    lemma_name_pos_distinct(self.names_view(), i as int);
                }
                return Some(i);
            }
        }
        None
    }
}

impl StorageEngine for InMemoryStorage {
    open spec fn tables(&self) -> Tables {
        self.model()
    }

    open spec fn ready(&self) -> bool {
        self.wf()
    }

    /// Creating a table that exists, or using one that does not.
    open spec fn refuses(t: Tables, name: Seq<char>, creating: bool) -> bool {
        if creating {
            t.contains_key(name)
        } else {
            !t.contains_key(name)
        }
    }

    fn create_table(&mut self, name: &str, schema: TableSchema) -> (r: Result<(), SqlError>)
        ensures
            r is Ok <==> !old(self).tables().contains_key(name@),
            r matches Err(SqlError::StorageError(m)) ==> m@ == "Table '"@ + name@ + "' already exists"@,
    {
        if self.find(name).is_some() {
            proof {
                reveal_strlit("' ");
            }
            let e = table_error(name, "already exists");
            proof {
                assert("Table '"@ + name@ + "' "@ + "already exists"@ =~= "Table '"@ + name@ + "' already exists"@) by {
                    reveal_strlit("' ");
                    reveal_strlit("already exists");
                    reveal_strlit("' already exists");
                }
            }
            return Err(e);
        }
        let ghost old_names = self.names_view();
        let ghost old_model = self.model();
        proof {
            lemma_name_pos(old_names, name@);
        }
        self.names.push(String::from_str(name));
        self.schemas.push(schema);
        self.rows.push(Vec::new());
        proof {
            assert(self.names_view() =~= old_names.push(name@));
            assert forall|a: int, b: int| 0 <= a < b < self.names@.len() implies self.names@[a]@ != self.names@[b]@ by {
                if b == old_names.len() {
                    assert(old_names[a] == self.names@[a]@);
                }
            }
            assert forall|k: Seq<char>| true implies name_pos(self.names_view(), k) == (if k == name@ {
                old_names.len() as int
            } else {
                name_pos(old_names, k)
            }) by {
                assert(self.names_view().drop_last() =~= old_names);
            }
            assert forall|k: Seq<char>| #[trigger] self.model().contains_key(k) == old_model.insert(name@, (schema_view(schema), seq![])).contains_key(k) by {}
            assert forall|k: Seq<char>| #[trigger] self.model().contains_key(k) implies self.model()[k] == old_model.insert(name@, (schema_view(schema), seq![]))[k] by {
                if k != name@ {
                    lemma_name_pos(old_names, k);
                }
            }
            assert(self.model() =~= old_model.insert(name@, (schema_view(schema), seq![])));
        }
        Ok(())
    }

    fn get_schema(&self, table_name: &str) -> (r: Result<TableSchema, SqlError>)
        ensures
            r is Ok <==> self.tables().contains_key(table_name@),
            r matches Err(SqlError::StorageError(m)) ==> m@ == "Table '"@ + table_name@ + "' not found"@,
    {
        match self.find(table_name) {
            Some(i) => Ok(copy_schema(&self.schemas[i])),
            None => {
                let e = table_error(table_name, "not found");
                proof {
                    assert("Table '"@ + table_name@ + "' "@ + "not found"@ =~= "Table '"@ + table_name@ + "' not found"@) by {
                        reveal_strlit("' ");
                        reveal_strlit("not found");
                        reveal_strlit("' not found");
                    }
                }
                Err(e)
            },
        }
    }

    fn insert_row(&mut self, table_name: &str, row: Row) -> (r: Result<(), SqlError>)
        ensures
            r is Ok <==> old(self).tables().contains_key(table_name@),
            r matches Err(SqlError::StorageError(m)) ==> m@ == "Table '"@ + table_name@ + "' not found"@,
    {
        match self.find(table_name) {
            Some(i) => {
                let ghost old_model = self.model();
                let ghost rv = row_view(row);
                let ghost old_rows = self.rows@;
                let ghost r0 = row;
                self.rows[i].push(row);
                proof {
                    assert(self.rows@.len() == old_rows.len());
                    assert(self.rows@[i as int]@ == old_rows[i as int]@.push(r0));
                    assert(forall|j: int| 0 <= j < old_rows.len() && j != i ==> self.rows@[j] == old_rows[j]);
                    assert(rows_view(self.rows@[i as int]@) =~= rows_view(old_rows[i as int]@).push(rv));
                    assert(self.names_view() == old(self).names_view());
                    assert forall|k: Seq<char>| #[trigger] self.model().contains_key(k) implies self.model()[k]
                        == old_model.insert(
                        table_name@,
                        (old_model[table_name@].0, old_model[table_name@].1.push(rv)),
                    )[k] by {
                        lemma_name_pos(self.names_view(), k);
                        lemma_name_pos(self.names_view(), table_name@);
                    }
                    assert(self.model() =~= old_model.insert(
                        table_name@,
                        (old_model[table_name@].0, old_model[table_name@].1.push(rv)),
                    ));
                }
                Ok(())
            },
            None => {
                let e = table_error(table_name, "not found");
                proof {
                    assert("Table '"@ + table_name@ + "' "@ + "not found"@ =~= "Table '"@ + table_name@ + "' not found"@) by {
                        reveal_strlit("' ");
                        reveal_strlit("not found");
                        reveal_strlit("' not found");
                    }
                }
                Err(e)
            },
        }
    }

    fn scan_table(&self, table_name: &str) -> (r: Result<Vec<Row>, SqlError>)
        ensures
            r is Ok <==> self.tables().contains_key(table_name@),
            r matches Err(SqlError::StorageError(m)) ==> m@ == "Table '"@ + table_name@ + "' not found"@,
    {
        match self.find(table_name) {
            Some(i) => Ok(copy_rows(&self.rows[i])),
            None => {
                let e = table_error(table_name, "not found");
                proof {
                    assert("Table '"@ + table_name@ + "' "@ + "not found"@ =~= "Table '"@ + table_name@ + "' not found"@) by {
                        reveal_strlit("' ");
                        reveal_strlit("not found");
                        reveal_strlit("' not found");
                    }
                }
                Err(e)
            },
        }
    }
}


/// What running statement `s` on tables `t` may give: the tables after it `t2` and its result
/// `r`. A store may refuse any of its operations (a storage error, which changes nothing); the
/// rest is fixed.
pub open spec fn stmt_outcome<S: StorageEngine>(t: Tables, s: StmtV, t2: Tables, r: Result<Vec<Row>, SqlError>) -> bool {
    match r {
        Err(SqlError::StorageError(_)) => t2 == t && S::refuses(t, stmt_table(s), s is Create),
        Err(SqlError::ExecutionError(m)) => t2 == t && match s {
            StmtV::Create(..) => false,
            StmtV::Insert(name, named, vals) => t.contains_key(name) && match insert_row_spec(t[name].0, named is Some, vals) {
                Err(f) => m@ == f,
                Ok(_) => false,
            },
            StmtV::Select(name, names, cond) => t.contains_key(name) && select_spec(t[name].0, t[name].1, names, cond)
                == Err::<Seq<Seq<Cell>>, Seq<char>>(m@),
        },
        Err(_) => false,
        Ok(out) => match s {
            StmtV::Create(name, cols) => out@.len() == 0 && !t.contains_key(name) && t2 == t.insert(name, (cols, seq![])),
            StmtV::Insert(name, named, vals) => out@.len() == 0 && t.contains_key(name) && match insert_row_spec(t[name].0, named is Some, vals) {
                Ok(cells) => t2 == t.insert(name, (t[name].0, t[name].1.push(cells))),
                Err(_) => false,
            },
            StmtV::Select(name, names, cond) => t2 == t && t.contains_key(name) && select_spec(t[name].0, t[name].1, names, cond)
                == Ok::<Seq<Seq<Cell>>, Seq<char>>(rows_view(out@)),
        },
    }
}

/// `ts` and `ls` trace running the statements `ss` one after the other on `t`: the tables
/// before and after each statement, and the result of each (nothing before the first).
pub open spec fn trace<S: StorageEngine>(t: Tables, ss: Seq<StmtV>, ts: Seq<Tables>, ls: Seq<Vec<Row>>) -> bool {
    &&& ts.len() == ss.len() + 1
    &&& ls.len() == ss.len() + 1
    &&& ts[0] == t
    &&& ls[0]@.len() == 0
    &&& forall|k: int| 0 <= k < ss.len() ==> stmt_outcome::<S>(ts[k], #[trigger] ss[k], ts[k + 1], Ok(ls[k + 1]))
}

/// Running the statements `ss` one after the other on `t` may succeed with tables `t2`, the
/// last statement giving `last` (nothing when there is no statement).
pub open spec fn runs<S: StorageEngine>(t: Tables, ss: Seq<StmtV>, t2: Tables, last: Vec<Row>) -> bool {
    exists|ts: Seq<Tables>, ls: Seq<Vec<Row>>| #[trigger] trace::<S>(t, ss, ts, ls) && ts.last() == t2 && ls.last() == last
}

/// Running the statements `ss` on `t` may stop at statement `k` with error `e` and tables `t2`.
pub open spec fn fails_at<S: StorageEngine>(t: Tables, ss: Seq<StmtV>, k: int, t2: Tables, e: SqlError) -> bool {
    0 <= k < ss.len() && exists|ts: Seq<Tables>, ls: Seq<Vec<Row>>| #[trigger] trace::<S>(t, ss.take(k), ts, ls) && stmt_outcome::<S>(
        ts.last(),
        ss[k],
        t2,
        Err(e),
    )
}

/// Running the statements `ss` on `t` may stop at some statement with error `e` and tables `t2`.
pub open spec fn fails<S: StorageEngine>(t: Tables, ss: Seq<StmtV>, t2: Tables, e: SqlError) -> bool {
    exists|k: int| #[trigger] fails_at::<S>(t, ss, k, t2, e)
}

/// What running the text `q` on tables `t` may give: a lexer error, a parser error, or the
/// outcome of running its statements in order.
pub open spec fn query_outcome<S: StorageEngine>(t: Tables, q: Seq<char>, t2: Tables, r: Result<Vec<Row>, SqlError>) -> bool {
    match lex_all(q, 0) {
        Err(m) => t2 == t && (r matches Err(SqlError::LexerError(e)) && e@ == m),
        Ok(ls) => match p_all(ls, 0) {
            None => t2 == t && (r matches Err(SqlError::ParserError(_))),
            Some(ss) => match r {
                Ok(last) => runs::<S>(t, ss, t2, last),
                Err(e) => fails::<S>(t, ss, t2, e),
            },
        },
    }
}

/// Runs SQL text against a store.
pub struct SqlEngine<S: StorageEngine> {
    storage: S,
}

impl<S: StorageEngine> SqlEngine<S> {
    /// The tables of the store.
    pub closed spec fn tables(&self) -> Tables {
        self.storage.tables()
    }

    pub closed spec fn wf(&self) -> bool {
        self.storage.ready() && consistent(self.storage.tables())
    }

    /// An engine over `storage`.
    pub fn new(storage: S) -> (e: Self)
        requires
            storage.ready(),
            consistent(storage.tables()),
        ensures
            e.wf(),
            e.tables() == storage.tables(),
    {
        SqlEngine { storage }
    }

    /// Lexes, parses and runs every statement of `query` in order, and gives the result of the
    /// last one; the first error stops the run.
    pub fn execute(&mut self, query: &str) -> (r: Result<Vec<Row>, SqlError>)
        requires
            old(self).wf(),
        ensures
            final(self).wf(),
            query_outcome::<S>(old(self).tables(), query@, final(self).tables(), r),
    {
        let lexer = Lexer::new(query);
        let tokens = match lexer.tokenize() {
            Ok(ts) => ts,
            Err(e) => {
                return Err(e);
            },
        };
        let mut parser = Parser::new(tokens);
        let stmts = match parser.parse() {
            Ok(ss) => ss,
            Err(e) => {
                return Err(e);
            },
        };
        let ghost ss = stmts@.map_values(|s: Statement| stmt_view(s));
        let ghost t0 = self.tables();
        let ghost ls = tokens@.map_values(|t: Token| lexeme(t));
        assert(lex_all(query@, 0) == Ok::<Seq<Lexeme>, Seq<char>>(ls));
        assert(p_all(ls, 0) == Some(ss));
        let mut last_result: Vec<Row> = Vec::new();
        let mut i: usize = 0;
        let ghost mut ts: Seq<Tables> = seq![t0];
        let ghost mut lss: Seq<Vec<Row>> = seq![last_result];
        proof {
            assert(ss.take(0) =~= Seq::<StmtV>::empty());
        }
        while i < stmts.len()
            invariant
                self.wf(),
                ss == stmts@.map_values(|s: Statement| stmt_view(s)),
                lex_all(query@, 0) == Ok::<Seq<Lexeme>, Seq<char>>(ls),
                p_all(ls, 0) == Some(ss),
                i <= stmts@.len(),
                t0 == old(self).tables(),
                trace::<S>(t0, ss.take(i as int), ts, lss),
                ts.last() == self.tables(),
                lss.last() == last_result,
            decreases stmts@.len() - i,
        {
            assert(ss[i as int] == stmt_view(stmts@[i as int]));
            match self.execute_statement(&stmts[i]) {
                Ok(rows) => {
                    last_result = rows;
                    proof {
                        let ts2 = ts.push(self.tables());
                        let ls2 = lss.push(last_result);
                        assert forall|k: int| 0 <= k < i + 1 implies stmt_outcome::<S>(ts2[k], #[trigger] ss.take(i as int + 1)[k], ts2[k + 1], Ok(ls2[k + 1])) by {
                            if k < i {
                                assert(ss.take(i as int + 1)[k] == ss.take(i as int)[k]);
                            }
                        }
                        ts = ts2;
                        lss = ls2;
                    }
                },
                Err(e) => {
                    assert(trace::<S>(t0, ss.take(i as int), ts, lss));
                    assert(fails_at::<S>(t0, ss, i as int, self.tables(), e));
                    assert(fails::<S>(t0, ss, self.tables(), e));
                    return Err(e);
                },
            }
            i = i + 1;
        }
        assert(ss.take(i as int) =~= ss);
        assert(trace::<S>(t0, ss, ts, lss));
        Ok(last_result)
    }

    fn execute_statement(&mut self, stmt: &Statement) -> (r: Result<Vec<Row>, SqlError>)
        requires
            old(self).wf(),
        ensures
            final(self).wf(),
            stmt_outcome::<S>(old(self).tables(), stmt_view(*stmt), final(self).tables(), r),
    {
        let ghost t = self.tables();
        match stmt {
            Statement::CreateTable { name, columns } => {
                let schema = copy_schema(&TableSchema { columns: copy_columns(columns) });
                match self.storage.create_table(name.as_str(), schema) {
                    Ok(()) => {
                        proof {
                            assert forall|n: Seq<char>, k: int|
                                self.tables().contains_key(n) && 0 <= k < self.tables()[n].1.len() implies (
                            #[trigger] self.tables()[n].1[k]).len() == self.tables()[n].0.len() by {
                                if n != name@ {
                                    assert(t[n] == self.tables()[n]);
                                }
                            }
                        }
                        Ok(Vec::new())
                    },
                    Err(e) => Err(e),
                }
            },
            Statement::Insert { table_name, columns, values } => {
                let schema = match self.storage.get_schema(table_name.as_str()) {
                    Ok(s) => s,
                    Err(e) => {
                        return Err(e);
                    },
                };
                let row = match row_for_insert(&schema, columns, values) {
                    Ok(row) => row,
                    Err(e) => {
                        return Err(e);
                    },
                };
                let ghost cells = row_view(row);
                proof {
                    lemma_insert_row_len(schema_view(schema), columns is Some, exprs_view(values@));
                }
                match self.storage.insert_row(table_name.as_str(), row) {
                    Ok(()) => {
                        proof {
                            assert forall|n: Seq<char>, k: int|
                                self.tables().contains_key(n) && 0 <= k < self.tables()[n].1.len() implies (
                            #[trigger] self.tables()[n].1[k]).len() == self.tables()[n].0.len() by {
                                if n != table_name@ {
                                    assert(t[n] == self.tables()[n]);
                                } else if k < t[n].1.len() {
                                    assert(self.tables()[n].1[k] == t[n].1[k]);
                                }
                            }
                        }
                        Ok(Vec::new())
                    },
                    Err(e) => Err(e),
                }
            },
            Statement::Select { table_name, columns, where_clause } => {
                let schema = match self.storage.get_schema(table_name.as_str()) {
                    Ok(s) => s,
                    Err(e) => {
                        return Err(e);
                    },
                };
                let rows = match self.storage.scan_table(table_name.as_str()) {
                    Ok(rs) => rs,
                    Err(e) => {
                        return Err(e);
                    },
                };
                proof {
                    assert forall|k: int| 0 <= k < rows@.len() implies (#[trigger] rows@[k]).values@.len()
                        >= schema.columns@.len() by {
                        assert(rows_view(rows@)[k] == row_view(rows@[k]));
                        assert(t[table_name@].1[k].len() == t[table_name@].0.len());
                    }
                }
                select_rows(&schema, &rows, columns, where_clause)
            },
        }
    }
}

/// A copy of a list of columns.
fn copy_columns(cs: &Vec<ColumnDef>) -> (c: Vec<ColumnDef>)
    ensures
        coldefs_view(c@) == coldefs_view(cs@),
{
    let s = TableSchema { columns: Vec::new() };
    let mut columns: Vec<ColumnDef> = Vec::new();
    let mut i: usize = 0;
    while i < cs.len()
        invariant
            i <= cs@.len(),
            columns@.len() == i,
            forall|j: int| 0 <= j < i ==> (#[trigger] columns@[j]).name@ == cs@[j].name@ && columns@[j].data_type
                == cs@[j].data_type,
        decreases cs@.len() - i,
    {
        let c = &cs[i];
        columns.push(ColumnDef { name: c.name.clone(), data_type: c.data_type });
        i = i + 1;
    }
    assert(coldefs_view(columns@) =~= coldefs_view(cs@));
    columns
}

/// A row an insert accepts has one value per column.
proof fn lemma_insert_row_len(cols: Seq<(Seq<char>, DataType)>, named: bool, vals: Seq<ExprV>)
    ensures
        insert_row_spec(cols, named, vals) is Ok ==> insert_row_spec(cols, named, vals)->Ok_0.len() == cols.len(),
{
}



proof fn lemma_filter_all(rows: Seq<Seq<Cell>>, n: nat, cols: Seq<(Seq<char>, DataType)>)
    requires
        forall|k: int| 0 <= k < rows.len() ==> (#[trigger] rows[k]).len() == n,
    ensures
        filter_rows(rows, Seq::new(n, |j: int| j), None, cols) == Ok::<Seq<Seq<Cell>>, Seq<char>>(rows),
    decreases rows.len(),
{
    if rows.len() == 0 {
        assert(rows =~= seq![]);
    } else {
        assert forall|k: int| 0 <= k < rows.drop_first().len() implies (#[trigger] rows.drop_first()[k]).len() == n by {
            assert(rows.drop_first()[k] == rows[k + 1]);
        }
        lemma_filter_all(rows.drop_first(), n, cols);
        assert(project(rows[0], Seq::new(n, |j: int| j)) =~= rows[0]);
        assert(seq![rows[0]] + rows.drop_first() =~= rows);
    }
}

/// `SELECT *` without a condition gives back every row of the table, in the order stored.
pub proof fn lemma_select_all_rows(cols: Seq<(Seq<char>, DataType)>, rows: Seq<Seq<Cell>>)
    requires
        forall|k: int| 0 <= k < rows.len() ==> (#[trigger] rows[k]).len() == cols.len(),
    ensures
        select_spec(cols, rows, seq![], None) == Ok::<Seq<Seq<Cell>>, Seq<char>>(rows),
{
    lemma_filter_all(rows, cols.len(), cols);
}

/// After an `INSERT` succeeds, `SELECT *` on the table gives back the rows it held before,
/// followed by the inserted row.
pub proof fn lemma_insert_then_select_all<S: StorageEngine>(t: Tables, name: Seq<char>, vals: Seq<ExprV>, t2: Tables, out: Vec<Row>)
    requires
        consistent(t),
        stmt_outcome::<S>(t, StmtV::Insert(name, None, vals), t2, Ok(out)),
    ensures
        t.contains_key(name),
        insert_row_spec(t[name].0, false, vals) is Ok,
        t2.contains_key(name),
        select_spec(t2[name].0, t2[name].1, seq![], None) == Ok::<Seq<Seq<Cell>>, Seq<char>>(
            t[name].1.push(insert_row_spec(t[name].0, false, vals)->Ok_0),
        ),
{
    let cells = insert_row_spec(t[name].0, false, vals)->Ok_0;
    lemma_insert_row_len(t[name].0, false, vals);
    let rows = t[name].1.push(cells);
    assert forall|k: int| 0 <= k < rows.len() implies (#[trigger] rows[k]).len() == t[name].0.len() by {
        if k < t[name].1.len() {
            assert(rows[k] == t[name].1[k]);
        }
    }
    lemma_select_all_rows(t[name].0, rows);
}
} // verus!
