//! The protocol side of a small HTTP/1.1 server: methods, status codes, requests parsed from
//! the bytes received, responses built from headers and a body and written out as bytes, and
//! the routing that picks the handler for a request. Sockets and the worker threads that
//! serve connections live with the caller.

use crate::cron::{first_index, is_ws, is_ws_exec, lemma_first_index, split_words, words};
use crate::git_core::{lemma_line_break, lemma_line_break_at, line_break};
use crate::log_structured_storage::{lossy, utf8_lossy};
use crate::text::{chars_of, decimal, decimal_chars, str_eq, string_of};
use vstd::prelude::*;
use vstd::string::StringSliceAdditionalSpecFns;
use vstd::utf8::encode_utf8;

verus! {

/// An HTTP request method.
#[derive(Debug, Clone, PartialEq, Eq, Hash)]
pub enum HttpMethod {
    Get,
    Post,
    Put,
    Delete,
    Unsupported(String),
}

/// The text of a method as it appears on the request line.
pub open spec fn method_name(m: HttpMethod) -> Seq<char> {
    match m {
        HttpMethod::Get => "GET"@,
        HttpMethod::Post => "POST"@,
        HttpMethod::Put => "PUT"@,
        HttpMethod::Delete => "DELETE"@,
        HttpMethod::Unsupported(s) => s@,
    }
}

pub open spec fn method_tag(m: HttpMethod) -> int {
    match m {
        HttpMethod::Get => 0,
        HttpMethod::Post => 1,
        HttpMethod::Put => 2,
        HttpMethod::Delete => 3,
        HttpMethod::Unsupported(_) => 4,
    }
}

/// `m` is what the text `s` on a request line denotes.
pub open spec fn parses_as(m: HttpMethod, s: Seq<char>) -> bool {
    if s == "GET"@ {
        m is Get
    } else if s == "POST"@ {
        m is Post
    } else if s == "PUT"@ {
        m is Put
    } else if s == "DELETE"@ {
        m is Delete
    } else {
        m matches HttpMethod::Unsupported(x) && x@ == s
    }
}

impl HttpMethod {
    /// The method as it appears on the request line.
    pub fn to_string(&self) -> (s: String)
        ensures
            s@ == method_name(*self),
    {
        match self {
            HttpMethod::Get => String::from_str("GET"),
            HttpMethod::Post => String::from_str("POST"),
            HttpMethod::Put => String::from_str("PUT"),
            HttpMethod::Delete => String::from_str("DELETE"),
            HttpMethod::Unsupported(s) => s.clone(),
        }
    }

    /// Whether two methods are the same method.
    pub fn same_as(&self, other: &HttpMethod) -> (b: bool)
        ensures
            b == (method_tag(*self) == method_tag(*other) && method_name(*self) == method_name(
                *other,
            )),
    {
        match (self, other) {
            (HttpMethod::Get, HttpMethod::Get) => true,
            (HttpMethod::Post, HttpMethod::Post) => true,
            (HttpMethod::Put, HttpMethod::Put) => true,
            (HttpMethod::Delete, HttpMethod::Delete) => true,
            (HttpMethod::Unsupported(a), HttpMethod::Unsupported(b)) => str_eq(a.as_str(), b.as_str()),
            _ => false,
        }
    }
}

impl From<&str> for HttpMethod {
    fn from(s: &str) -> (m: Self)
        ensures
            parses_as(m, s@),
    {
        if str_eq(s, "GET") {
            HttpMethod::Get
        } else if str_eq(s, "POST") {
            HttpMethod::Post
        } else if str_eq(s, "PUT") {
            HttpMethod::Put
        } else if str_eq(s, "DELETE") {
            HttpMethod::Delete
        } else {
            HttpMethod::Unsupported(String::from_str(s))
        }
    }
}

impl vstd::std_specs::convert::FromSpecImpl<&str> for HttpMethod {
    /// `from` is described by `parses_as` on its own result, not by this function.
    open spec fn obeys_from_spec() -> bool {
        false
    }

    open spec fn from_spec(v: &str) -> Self {
        choose|m: HttpMethod| parses_as(m, v@)
    }
}

/// The status codes this server answers with.
#[derive(Debug, PartialEq, Eq, Clone, Copy)]
#[allow(non_camel_case_types)]
pub enum HttpStatus {
    OK,
    Created,
    BadRequest,
    NotFound,
    InternalServerError,
}

pub open spec fn status_code(s: HttpStatus) -> u16 {
    match s {
        HttpStatus::OK => 200,
        HttpStatus::Created => 201,
        HttpStatus::BadRequest => 400,
        HttpStatus::NotFound => 404,
        HttpStatus::InternalServerError => 500,
    }
}

pub open spec fn reason(s: HttpStatus) -> Seq<char> {
    match s {
        HttpStatus::OK => "OK"@,
        HttpStatus::Created => "Created"@,
        HttpStatus::BadRequest => "Bad Request"@,
        HttpStatus::NotFound => "Not Found"@,
        HttpStatus::InternalServerError => "Internal Server Error"@,
    }
}

impl HttpStatus {
    /// The numeric status code.
    pub fn code(self) -> (c: u16)
        ensures
            c == status_code(self),
    {
        match self {
            HttpStatus::OK => 200,
            HttpStatus::Created => 201,
            HttpStatus::BadRequest => 400,
            HttpStatus::NotFound => 404,
            HttpStatus::InternalServerError => 500,
        }
    }

    /// The reason phrase sent after the code on the status line.
    pub fn reason_phrase(self) -> (r: &'static str)
        ensures
            r@ == reason(self),
    {
        match self {
            HttpStatus::OK => "OK",
            HttpStatus::Created => "Created",
            HttpStatus::BadRequest => "Bad Request",
            HttpStatus::NotFound => "Not Found",
            HttpStatus::InternalServerError => "Internal Server Error",
        }
    }
}

/// Header lists as text pairs.
pub open spec fn hview(hs: Seq<(String, String)>) -> Seq<(Seq<char>, Seq<char>)> {
    hs.map_values(|p: (String, String)| (p.0@, p.1@))
}

/// Index of the first header named `k`, or -1.
pub open spec fn key_index(hs: Seq<(Seq<char>, Seq<char>)>, k: Seq<char>) -> int
    decreases hs.len(),
{
    if hs.len() == 0 {
        -1
    } else if hs[0].0 == k {
        0
    } else {
        let i = key_index(hs.drop_first(), k);
        if i < 0 { -1 } else { i + 1 }
    }
}

/// The value of header `k`, if present.
pub open spec fn lookup(hs: Seq<(Seq<char>, Seq<char>)>, k: Seq<char>) -> Option<Seq<char>> {
    if key_index(hs, k) >= 0 {
        Some(hs[key_index(hs, k)].1)
    } else {
        None
    }
}

/// The headers with `k` set to `v`: an existing header is overwritten in place.
pub open spec fn put(hs: Seq<(Seq<char>, Seq<char>)>, k: Seq<char>, v: Seq<char>) -> Seq<
    (Seq<char>, Seq<char>),
> {
    if key_index(hs, k) >= 0 {
        hs.update(key_index(hs, k), (k, v))
    } else {
        hs.push((k, v))
    }
}

/// The headers with `k` set to `v` unless `k` is already present.
pub open spec fn put_default(hs: Seq<(Seq<char>, Seq<char>)>, k: Seq<char>, v: Seq<char>) -> Seq<
    (Seq<char>, Seq<char>),
> {
    if key_index(hs, k) >= 0 {
        hs
    } else {
        hs.push((k, v))
    }
}

proof fn lemma_key_index(hs: Seq<(Seq<char>, Seq<char>)>, k: Seq<char>)
    ensures
        -1 <= key_index(hs, k) < hs.len(),
        key_index(hs, k) >= 0 ==> hs[key_index(hs, k)].0 == k,
        forall|j: int| 0 <= j < hs.len() && (key_index(hs, k) < 0 || j < key_index(hs, k)) ==> #[trigger] hs[j].0 != k,
    decreases hs.len(),
{
    if hs.len() > 0 && hs[0].0 != k {
        let t = hs.drop_first();
        lemma_key_index(t, k);
        assert forall|j: int| 0 <= j < hs.len() && (key_index(hs, k) < 0 || j < key_index(hs, k)) implies #[trigger] hs[j].0 != k by {
            if j > 0 {
                assert(hs[j] == t[j - 1]);
            }
        }
    }
}

/// After setting a header, looking it up gives the value set.
pub proof fn lemma_put_lookup(hs: Seq<(Seq<char>, Seq<char>)>, k: Seq<char>, v: Seq<char>)
    ensures
        lookup(put(hs, k, v), k) == Some(v),
{
    lemma_key_index(hs, k);
    let p = put(hs, k, v);
    lemma_key_index(p, k);
    let i = key_index(hs, k);
    let ip = key_index(p, k);
    if i >= 0 {
        if ip < 0 || ip > i {
            assert(p[i].0 == k);
        } else if ip < i {
            assert(p[ip] == hs[ip]);
        }
    } else {
        if ip < 0 || ip > hs.len() {
            assert(p[hs.len() as int].0 == k);
        } else if ip < hs.len() {
            assert(p[ip] == hs[ip]);
        }
    }
}

/// Index of the header named `key` in `hs`.
fn find_header(hs: &Vec<(String, String)>, key: &str) -> (r: Option<usize>)
    ensures
        r matches Some(i) ==> i < hs@.len(),
        match r {
            Some(i) => i as int == key_index(hview(hs@), key@),
            None => key_index(hview(hs@), key@) < 0,
        },
{
    let ghost h = hview(hs@);
    let mut i: usize = 0;
    while i < hs.len()
        invariant
            i <= hs.len(),
            h == hview(hs@),
            key_index(h, key@) < 0 || key_index(h, key@) >= i,
        decreases hs.len() - i,
    {
        proof {
            lemma_key_index(h, key@);
        }
        if str_eq(hs[i].0.as_str(), key) {
            assert(h[i as int].0 == key@);
            return Some(i);
        }
        assert(h[i as int].0 != key@);
        i = i + 1;
    }
    proof {
        lemma_key_index(h, key@);
    }
    None
}

/// Sets header `key` to `value`, overwriting an existing header of that name.
fn set_header(hs: &mut Vec<(String, String)>, key: &str, value: &str)
    ensures
        hview(final(hs)@) == put(hview(old(hs)@), key@, value@),
{
    let entry = (String::from_str(key), String::from_str(value));
    proof {
        lemma_key_index(hview(hs@), key@);
    }
    match find_header(hs, key) {
        Some(i) => {
            hs.set(i, entry);
        },
        None => {
            hs.push(entry);
        },
    }
    assert(hview(hs@) =~= put(hview(old(hs)@), key@, value@));
}

/// A parsed request.
#[derive(Debug, Clone)]
pub struct HttpRequest {
    pub method: HttpMethod,
    pub path: String,
    pub version: String,
    pub headers: Vec<(String, String)>,
    pub body: Vec<u8>,
}

impl HttpRequest {
    /// The value of the header named `key`.
    pub fn header(&self, key: &str) -> (r: Option<&String>)
        ensures
            r is None <==> lookup(hview(self.headers@), key@) is None,
            r matches Some(v) ==> lookup(hview(self.headers@), key@) == Some(v@),
    {
        match find_header(&self.headers, key) {
            Some(i) => Some(&self.headers[i].1),
            None => None,
        }
    }
}

/// A response under construction.
#[derive(Debug, Clone)]
pub struct HttpResponse {
    pub version: String,
    pub status: HttpStatus,
    pub headers: Vec<(String, String)>,
    pub body: Vec<u8>,
}

/// The headers of a response after its body is set to `len` bytes.
pub open spec fn body_headers(hs: Seq<(Seq<char>, Seq<char>)>, len: nat) -> Seq<
    (Seq<char>, Seq<char>),
> {
    put_default(put(hs, "Content-Length"@, decimal(len)), "Content-Type"@, "text/plain"@)
}

impl HttpResponse {
    /// An HTTP/1.1 response with the given status, no headers and an empty body.
    pub fn new(status: HttpStatus) -> (r: Self)
        ensures
            r.version@ == "HTTP/1.1"@,
            r.status == status,
            r.headers@.len() == 0,
            r.body@.len() == 0,
    {
        HttpResponse {
            version: String::from_str("HTTP/1.1"),
            status,
            headers: Vec::new(),
            body: Vec::new(),
        }
    }

    /// Sets the body, its `Content-Length`, and a `text/plain` content type unless one is set.
    pub fn with_body(self, body: &str) -> (r: Self)
        ensures
            r.version == self.version,
            r.status == self.status,
            r.body@ == body.spec_bytes(),
            hview(r.headers@) == body_headers(hview(self.headers@), body.spec_bytes().len()),
    {
        let mut s = self;
        s.body = body.as_bytes_vec();
        let len = s.body.len();
        let digits = decimal_chars(len as u64);
        let length_text = string_of(digits.as_slice());
        set_header(&mut s.headers, "Content-Length", length_text.as_str());
        match find_header(&s.headers, "Content-Type") {
            Some(_) => {},
            None => {
                s.headers.push((String::from_str("Content-Type"), String::from_str("text/plain")));
            },
        }
        assert(hview(s.headers@) =~= body_headers(hview(self.headers@), body.spec_bytes().len()));
        s
    }

    /// Sets the header `key` to `value`.
    pub fn with_header(self, key: &str, value: &str) -> (r: Self)
        ensures
            r.version == self.version,
            r.status == self.status,
            r.body == self.body,
            hview(r.headers@) == put(hview(self.headers@), key@, value@),
    {
        let mut s = self;
        set_header(&mut s.headers, key, value);
        s
    }

    /// The value of the header named `key`.
    pub fn header(&self, key: &str) -> (r: Option<&String>)
        ensures
            r is None <==> lookup(hview(self.headers@), key@) is None,
            r matches Some(v) ==> lookup(hview(self.headers@), key@) == Some(v@),
    {
        match find_header(&self.headers, key) {
            Some(i) => Some(&self.headers[i].1),
            None => None,
        }
    }
}

/// The first position at or after `i` where `\r\n\r\n` starts, or -1.
pub open spec fn sep_index(b: Seq<u8>, i: int) -> int
    decreases b.len() - i,
{
    if i < 0 || i + 4 > b.len() {
        -1
    } else if b[i] == 13 && b[i + 1] == 10 && b[i + 2] == 13 && b[i + 3] == 10 {
        i
    } else {
        sep_index(b, i + 1)
    }
}

/// The lines of `t` from `pos` on, as `str::lines` gives them: split at each line feed, a
/// carriage return before it dropped, no empty line after a final line feed.
pub open spec fn text_lines(t: Seq<char>, pos: int) -> Seq<Seq<char>>
    decreases t.len() - pos,
{
    if pos < 0 || pos >= t.len() {
        Seq::empty()
    } else {
        let e = line_break(t, pos);
        let le = if e < t.len() && e > pos && t[e - 1] == '\r' {
            e - 1
        } else {
            e
        };
        if e < t.len() {
            proof {
                lemma_line_break(t, pos);
            }
            seq![t.subrange(pos, le)] + text_lines(t, e + 1)
        } else {
            seq![t.subrange(pos, le)]
        }
    }
}

/// `s` without leading whitespace.
pub open spec fn trim_start(s: Seq<char>) -> Seq<char>
    decreases s.len(),
{
    if s.len() > 0 && is_ws(s[0]) {
        trim_start(s.drop_first())
    } else {
        s
    }
}

/// `s` without trailing whitespace.
pub open spec fn trim_end(s: Seq<char>) -> Seq<char>
    decreases s.len(),
{
    if s.len() > 0 && is_ws(s.last()) {
        trim_end(s.drop_last())
    } else {
        s
    }
}

/// `str::trim`: `s` without leading and trailing whitespace.
pub open spec fn trim(s: Seq<char>) -> Seq<char> {
    trim_end(trim_start(s))
}

/// The text `str::to_lowercase` gives for a text.
pub uninterp spec fn lower_text(s: Seq<char>) -> Seq<char>;

/// `str::to_lowercase`: the Unicode lowercase of a text (with its final-sigma rule).
#[verifier::external_body]
fn to_lowercase_text(s: &str) -> (r: String)
    ensures
        r@ == lower_text(s@),
{
    s.to_lowercase()
}

/// The headers after a header line: a line holding `:` sets the header named by the trimmed,
/// lower-cased text before the first `:` to the trimmed text after it; other lines change
/// nothing.
pub open spec fn header_line(hs: Seq<(Seq<char>, Seq<char>)>, line: Seq<char>) -> Seq<(Seq<char>, Seq<char>)> {
    let i = first_index(line, ':');
    if i >= 0 {
        put(hs, lower_text(trim(line.subrange(0, i))), trim(line.subrange(i + 1, line.len() as int)))
    } else {
        hs
    }
}

/// The headers after the header lines `ls`, in order.
pub open spec fn header_lines(ls: Seq<Seq<char>>, hs: Seq<(Seq<char>, Seq<char>)>) -> Seq<(Seq<char>, Seq<char>)>
    decreases ls.len(),
{
    if ls.len() == 0 {
        hs
    } else {
        header_lines(ls.drop_first(), header_line(hs, ls[0]))
    }
}

/// A request read from its bytes: the method, path and version words of the request line,
/// the headers, and the body after the blank line; or the error.
pub open spec fn request_spec(b: Seq<u8>) -> Result<
    (Seq<char>, Seq<char>, Seq<char>, Seq<(Seq<char>, Seq<char>)>, Seq<u8>),
    Seq<char>,
> {
    if b.len() == 0 {
        Err("Empty request"@)
    } else if sep_index(b, 0) < 0 {
        Err("Invalid HTTP request format"@)
    } else {
        let sep = sep_index(b, 0);
        let ls = text_lines(lossy(b.subrange(0, sep)), 0);
        if ls.len() == 0 {
            Err("Missing request line"@)
        } else {
            let w = words(ls[0]);
            if w.len() < 1 {
                Err("Missing method"@)
            } else if w.len() < 2 {
                Err("Missing path"@)
            } else if w.len() < 3 {
                Err("Missing version"@)
            } else {
                Ok((w[0], w[1], w[2], header_lines(ls.drop_first(), Seq::empty()), b.subrange(sep + 4, b.len() as int)))
            }
        }
    }
}

proof fn lemma_sep_index(b: Seq<u8>, i: int)
    requires
        0 <= i,
    ensures
        sep_index(b, i) == -1 || (i <= sep_index(b, i) && sep_index(b, i) + 4 <= b.len()),
    decreases b.len() - i,
{
    if i + 4 <= b.len() && !(b[i] == 13 && b[i + 1] == 10 && b[i + 2] == 13 && b[i + 3] == 10) {
        lemma_sep_index(b, i + 1);
    }
}

fn find_separator(b: &[u8]) -> (r: Option<usize>)
    ensures
        match r {
            Some(i) => i == sep_index(b@, 0) && i + 4 <= b@.len(),
            None => sep_index(b@, 0) < 0,
        },
{
    let mut i: usize = 0;
    while i < b.len() && b.len() - i >= 4
        invariant
            sep_index(b@, i as int) == sep_index(b@, 0),
            i <= b@.len(),
        decreases b@.len() - i,
    {
        if b[i] == 13 && b[i + 1] == 10 && b[i + 2] == 13 && b[i + 3] == 10 {
            return Some(i);
        }
        i = i + 1;
    }
    None
}

fn copy_chars(cs: &Vec<char>, lo: usize, hi: usize) -> (out: Vec<char>)
    requires
        lo <= hi <= cs@.len(),
    ensures
        out@ == cs@.subrange(lo as int, hi as int),
{
    let mut out: Vec<char> = Vec::new();
    let mut i = lo;
    while i < hi
        invariant
            lo <= i <= hi <= cs@.len(),
            out@ == cs@.subrange(lo as int, i as int),
        decreases hi - i,
    {
        out.push(cs[i]);
        proof {
            assert(cs@.subrange(lo as int, i + 1) =~= cs@.subrange(lo as int, i as int).push(cs@[i as int]));
        }
        i = i + 1;
    }
    out
}

/// The trimmed text of `cs[lo..hi]`.
fn trimmed(cs: &Vec<char>, lo: usize, hi: usize) -> (out: String)
    requires
        lo <= hi <= cs@.len(),
    ensures
        out@ == trim(cs@.subrange(lo as int, hi as int)),
{
    let mut a = lo;
    while a < hi && is_ws_exec(cs[a])
        invariant
            lo <= a <= hi <= cs@.len(),
            trim_start(cs@.subrange(lo as int, hi as int)) == trim_start(cs@.subrange(a as int, hi as int)),
        decreases hi - a,
    {
        proof {
            assert(cs@.subrange(a as int, hi as int).drop_first() =~= cs@.subrange(a + 1, hi as int));
        }
        a = a + 1;
    }
    let mut b = hi;
    proof {
        assert(trim_start(cs@.subrange(a as int, hi as int)) == cs@.subrange(a as int, hi as int));
    }
    while b > a && is_ws_exec(cs[b - 1])
        invariant
            a <= b <= hi <= cs@.len(),
            trim_end(cs@.subrange(a as int, hi as int)) == trim_end(cs@.subrange(a as int, b as int)),
        decreases b,
    {
        proof {
            assert(cs@.subrange(a as int, b as int).drop_last() =~= cs@.subrange(a as int, b - 1));
        }
        b = b - 1;
    }
    let out = string_of(copy_chars(cs, a, b).as_slice());
    out
}

/// The end of the line starting at `pos` (before any carriage return ending it) and where the
/// next line starts.
fn line_at(cs: &Vec<char>, pos: usize) -> (r: (usize, usize))
    requires
        pos < cs@.len(),
    ensures
        ({
            let e = line_break(cs@, pos as int);
            &&& r.0 == (if e < cs@.len() && e > pos && cs@[e - 1] == '\r' {
                e - 1
            } else {
                e
            })
            &&& r.1 == (if e < cs@.len() {
                e + 1
            } else {
                e
            })
            &&& pos <= r.0 <= e <= cs@.len()
            &&& pos < r.1 <= cs@.len()
        }),
{
    let n = cs.len();
    let mut e = pos;
    while e < n && cs[e] != '\n'
        invariant
            pos <= e <= n,
            n == cs@.len(),
            forall|j: int| pos <= j < e ==> cs@[j] != '\n',
        decreases n - e,
    {
        e = e + 1;
    }
    proof {
        lemma_line_break_at(cs@, pos as int, e as int);
    }
    let le = if e < n && e > pos && cs[e - 1] == '\r' {
        e - 1
    } else {
        e
    };
    (le, if e < n {
        e + 1
    } else {
        n
    })
}

fn find_colon(cs: &Vec<char>) -> (r: Option<usize>)
    ensures
        match r {
            Some(i) => i as int == first_index(cs@, ':') && i < cs@.len(),
            None => first_index(cs@, ':') < 0,
        },
{
    proof {
        lemma_first_index(cs@, ':');
    }
    let mut i: usize = 0;
    while i < cs.len()
        invariant
            i <= cs@.len(),
            forall|j: int| 0 <= j < i ==> cs@[j] != ':',
            -1 <= first_index(cs@, ':') < cs@.len(),
            first_index(cs@, ':') >= 0 ==> cs@[first_index(cs@, ':')] == ':',
            forall|j: int|
                0 <= j < cs@.len() && (first_index(cs@, ':') < 0 || j < first_index(cs@, ':')) ==> cs@[j] != ':',
        decreases cs@.len() - i,
    {
        if cs[i] == ':' {
            return Some(i);
        }
        i = i + 1;
    }
    None
}

/// Parses a request from the bytes received: the request line, the headers up to the blank
/// line (read as text, invalid UTF-8 replaced), and the bytes after it as the body.
pub fn parse_request(bytes: &[u8]) -> (r: Result<HttpRequest, String>)
    ensures
        match (r, request_spec(bytes@)) {
            (Ok(q), Ok(v)) => parses_as(q.method, v.0) && q.path@ == v.1 && q.version@ == v.2 && hview(q.headers@)
                == v.3 && q.body@ == v.4,
            (Err(e), Err(m)) => e@ == m,
            _ => false,
        },
{
    if bytes.len() == 0 {
        return Err(String::from_str("Empty request"));
    }
    let sep = match find_separator(bytes) {
        Some(i) => i,
        None => {
            return Err(String::from_str("Invalid HTTP request format"));
        },
    };
    let head_bytes = &bytes[0..sep];
    let head = utf8_lossy(head_bytes);
    let cs = chars_of(head.as_str());
    let n = cs.len();
    assert(head_bytes@ == bytes@.subrange(0, sep as int));
    if n == 0 {
        return Err(String::from_str("Missing request line"));
    }
    let (le0, next0) = line_at(&cs, 0);
    let line0 = copy_chars(&cs, 0, le0);
    let ws = split_words(&line0);
    if ws.len() < 1 {
        return Err(String::from_str("Missing method"));
    }
    if ws.len() < 2 {
        return Err(String::from_str("Missing path"));
    }
    if ws.len() < 3 {
        return Err(String::from_str("Missing version"));
    }
    let method_text = string_of(copy_chars(&line0, ws[0].0, ws[0].1).as_slice());
    let method = HttpMethod::from(method_text.as_str());
    let path = string_of(copy_chars(&line0, ws[1].0, ws[1].1).as_slice());
    let version = string_of(copy_chars(&line0, ws[2].0, ws[2].1).as_slice());
    let ghost ls = text_lines(cs@, 0);
    proof {
        assert(ls =~= seq![cs@.subrange(0, le0 as int)] + text_lines(cs@, next0 as int));
        assert(ls.drop_first() =~= text_lines(cs@, next0 as int));
    }
    let mut headers: Vec<(String, String)> = Vec::new();
    let mut pos = next0;
    proof {
        assert(hview(headers@) =~= Seq::<(Seq<char>, Seq<char>)>::empty());
    }
    while pos < n
        invariant
            n == cs@.len(),
            pos <= n,
            header_lines(text_lines(cs@, pos as int), hview(headers@)) == header_lines(
                text_lines(cs@, next0 as int),
                Seq::empty(),
            ),
        decreases n - pos,
    {
        let (le, nx) = line_at(&cs, pos);
        let line = copy_chars(&cs, pos, le);
        let ghost hs0 = hview(headers@);
        proof {
            assert(text_lines(cs@, pos as int) =~= seq![line@] + text_lines(cs@, nx as int));
            assert(text_lines(cs@, pos as int).drop_first() =~= text_lines(cs@, nx as int));
        }
        match find_colon(&line) {
            Some(i) => {
                let key_trim = trimmed(&line, 0, i);
                let key = to_lowercase_text(key_trim.as_str());
                let value = trimmed(&line, i + 1, line.len());
                set_header(&mut headers, key.as_str(), value.as_str());
            },
            None => {},
        }
        assert(hview(headers@) == header_line(hs0, line@));
        pos = nx;
    }
    proof {
        assert(text_lines(cs@, pos as int).len() == 0);
        assert(hview(Seq::<(String, String)>::empty()) =~= Seq::<(Seq<char>, Seq<char>)>::empty());
    }
    let mut body: Vec<u8> = Vec::new();
    let mut k = sep + 4;
    while k < bytes.len()
        invariant
            sep + 4 <= k <= bytes@.len(),
            body@ == bytes@.subrange(sep + 4, k as int),
        decreases bytes@.len() - k,
    {
        body.push(bytes[k]);
        proof {
            assert(bytes@.subrange(sep + 4, k + 1) =~= bytes@.subrange(sep + 4, k as int).push(bytes@[k as int]));
        }
        k = k + 1;
    }
    Ok(HttpRequest { method, path, version, headers, body })
}

/// The header lines of a response: each `key: value` and a line break.
pub open spec fn header_text(hs: Seq<(Seq<char>, Seq<char>)>) -> Seq<char>
    decreases hs.len(),
{
    if hs.len() == 0 {
        Seq::empty()
    } else {
        header_text(hs.drop_last()) + hs.last().0 + ": "@ + hs.last().1 + "\r\n"@
    }
}

/// The text before a response's body: the status line, the header lines and a blank line.
pub open spec fn response_head(r: HttpResponse) -> Seq<char> {
    r.version@ + " "@ + decimal(status_code(r.status) as nat) + " "@ + reason(r.status) + "\r\n"@ + header_text(
        hview(r.headers@),
    ) + "\r\n"@
}

impl HttpResponse {
    /// The bytes sent for the response: the head as UTF-8, then the body.
    pub fn to_bytes(&self) -> (b: Vec<u8>)
        ensures
            b@ == encode_utf8(response_head(*self)) + self.body@,
    {
        let mut s = String::new();
        s.append(self.version.as_str());
        s.append(" ");
        s.append(string_of(decimal_chars(self.status.code() as u64).as_slice()).as_str());
        s.append(" ");
        s.append(self.status.reason_phrase());
        s.append("\r\n");
        let ghost start = s@;
        let mut i: usize = 0;
        while i < self.headers.len()
            invariant
                i <= self.headers@.len(),
                s@ == start + header_text(hview(self.headers@.subrange(0, i as int))),
            decreases self.headers@.len() - i,
        {
            proof {
                assert(hview(self.headers@.subrange(0, i + 1)).drop_last() =~= hview(self.headers@.subrange(0, i as int)));
            }
            s.append(self.headers[i].0.as_str());
            s.append(": ");
            s.append(self.headers[i].1.as_str());
            s.append("\r\n");
            i = i + 1;
        }
        s.append("\r\n");
        proof {
            assert(self.headers@.subrange(0, self.headers@.len() as int) =~= self.headers@);
            assert(s@ =~= response_head(*self));
        }
        let mut b: Vec<u8> = Vec::new();
        let sb = s.as_str().as_bytes();
        let mut k: usize = 0;
        while k < sb.len()
            invariant
                k <= sb@.len(),
                b@ == sb@.subrange(0, k as int),
            decreases sb@.len() - k,
        {
            b.push(sb[k]);
            proof {
                assert(sb@.subrange(0, k + 1) =~= sb@.subrange(0, k as int).push(sb@[k as int]));
            }
            k = k + 1;
        }
        let ghost hb = b@;
        let mut k: usize = 0;
        while k < self.body.len()
            invariant
                k <= self.body@.len(),
                b@ == hb + self.body@.subrange(0, k as int),
            decreases self.body@.len() - k,
        {
            b.push(self.body[k]);
            proof {
                assert(self.body@.subrange(0, k + 1) =~= self.body@.subrange(0, k as int).push(self.body@[k as int]));
            }
            k = k + 1;
        }
        proof {
            assert(sb@.subrange(0, sb@.len() as int) =~= sb@);
            assert(self.body@.subrange(0, self.body@.len() as int) =~= self.body@);
        }
        b
    }
}

/// The answer when no route matches and no other fallback was set.
pub fn default_not_found() -> (r: HttpResponse)
    ensures
        r.status == HttpStatus::NotFound,
        r.body@ == "404 Not Found".spec_bytes(),
{
    HttpResponse::new(HttpStatus::NotFound).with_body("404 Not Found")
}

/// Something that answers requests.
pub trait RequestHandler: Send + Sync {
    fn handle(&self, request: &HttpRequest) -> HttpResponse;
}

/// Calls a handler closure: where the closure's precondition holds of the request, the
/// response meets the closure's postcondition.
#[verifier::external_body]
fn call_handler<F: Fn(&HttpRequest) -> HttpResponse>(f: &F, request: &HttpRequest) -> (r: HttpResponse)
    ensures
        f.requires((request,)) ==> f.ensures((request,), r),
{
    f(request)
}

impl<F> RequestHandler for F where F: Fn(&HttpRequest) -> HttpResponse + Send + Sync {
    /// Calls the closure on the request.
    fn handle(&self, request: &HttpRequest) -> (r: HttpResponse)
        ensures
            self.requires((request,)) ==> self.ensures((request,), r),
    {
        call_handler(self, request)
    }
}

/// A route key as text: the method and the path.
pub open spec fn route_key(m: HttpMethod, path: Seq<char>) -> (int, Seq<char>, Seq<char>) {
    (method_tag(m), method_name(m), path)
}

pub open spec fn route_keys(routes: Seq<(HttpMethod, String)>) -> Seq<(int, Seq<char>, Seq<char>)> {
    routes.map_values(|r: (HttpMethod, String)| route_key(r.0, r.1@))
}

/// Index of the route for `key`, or -1.
pub open spec fn route_index(keys: Seq<(int, Seq<char>, Seq<char>)>, key: (int, Seq<char>, Seq<char>)) -> int
    decreases keys.len(),
{
    if keys.len() == 0 {
        -1
    } else if keys.last() == key {
        keys.len() - 1
    } else {
        route_index(keys.drop_last(), key)
    }
}

proof fn lemma_route_index(keys: Seq<(int, Seq<char>, Seq<char>)>, key: (int, Seq<char>, Seq<char>))
    ensures
        -1 <= route_index(keys, key) < keys.len(),
        route_index(keys, key) >= 0 ==> keys[route_index(keys, key)] == key,
        forall|j: int| route_index(keys, key) < j < keys.len() ==> #[trigger] keys[j] != key,
    decreases keys.len(),
{
    if keys.len() > 0 && keys.last() != key {
        let t = keys.drop_last();
        lemma_route_index(t, key);
        assert forall|j: int| route_index(keys, key) < j < keys.len() implies #[trigger] keys[j] != key by {
            if j < keys.len() - 1 {
                assert(keys[j] == t[j]);
            }
        }
    }
}

/// The route table with `key` bound: an existing binding is replaced in place.
pub open spec fn bind(keys: Seq<(int, Seq<char>, Seq<char>)>, key: (int, Seq<char>, Seq<char>)) -> Seq<
    (int, Seq<char>, Seq<char>),
> {
    if route_index(keys, key) >= 0 {
        keys
    } else {
        keys.push(key)
    }
}

/// Index of the route for `method` and `path`.
fn find_route(routes: &Vec<(HttpMethod, String)>, method: &HttpMethod, path: &str) -> (r: Option<usize>)
    ensures
        match r {
            Some(i) => i as int == route_index(route_keys(routes@), route_key(*method, path@)),
            None => route_index(route_keys(routes@), route_key(*method, path@)) < 0,
        },
{
    let ghost keys = route_keys(routes@);
    let ghost key = route_key(*method, path@);
    let mut i = routes.len();
    proof {
        lemma_route_index(keys, key);
    }
    while i > 0
        invariant
            i <= routes.len(),
            keys == route_keys(routes@),
            key == route_key(*method, path@),
            route_index(keys, key) < i,
            -1 <= route_index(keys, key),
            route_index(keys, key) >= 0 ==> keys[route_index(keys, key)] == key,
            forall|j: int| route_index(keys, key) < j < keys.len() ==> #[trigger] keys[j] != key,
        decreases i,
    {
        i = i - 1;
        let m_same = routes[i].0.same_as(method);
        let p_same = str_eq(routes[i].1.as_str(), path);
        let same = m_same && p_same;
        assert(keys[i as int] == route_key(routes@[i as int].0, routes@[i as int].1@));
        assert(same == (keys[i as int] == key));
        if same {
            return Some(i);
        }
    }
    None
}

/// A server: its routes, the handlers behind them, and the fallback for unmatched requests.
pub struct HttpServer {
    routes: Vec<(HttpMethod, String)>,
    handlers: Vec<Box<dyn RequestHandler>>,
    not_found_handler: Option<Box<dyn RequestHandler>>,
}

impl HttpServer {
    pub closed spec fn keys(&self) -> Seq<(int, Seq<char>, Seq<char>)> {
        route_keys(self.routes@)
    }

    pub closed spec fn has_fallback(&self) -> bool {
        self.not_found_handler is Some
    }

    /// A server with no routes that answers everything with the default 404.
    pub fn new() -> (s: Self)
        ensures
            s.keys().len() == 0,
            !s.has_fallback(),
    {
        HttpServer { routes: Vec::new(), handlers: Vec::new(), not_found_handler: None }
    }

    /// Index of the route that serves `method` on `path`.
    pub fn route_for(&self, method: &HttpMethod, path: &str) -> (r: Option<usize>)
        ensures
            match r {
                Some(i) => i as int == route_index(self.keys(), route_key(*method, path@)),
                None => route_index(self.keys(), route_key(*method, path@)) < 0,
            },
    {
        find_route(&self.routes, method, path)
    }

    /// Answers a request with the handler of its route, or with the fallback.
    pub fn respond(&self, request: &HttpRequest) -> (r: HttpResponse)
        ensures
            route_index(self.keys(), route_key(request.method, request.path@)) < 0
                && !self.has_fallback() ==> r.status == HttpStatus::NotFound && r.body@
                == "404 Not Found".spec_bytes(),
    {
        match find_route(&self.routes, &request.method, request.path.as_str()) {
            Some(i) => {
                if i < self.handlers.len() {
                    return self.handlers[i].handle(request);
                }
            },
            None => {},
        }
        match &self.not_found_handler {
            Some(h) => h.handle(request),
            None => default_not_found(),
        }
    }
}

/// Collects routes and a fallback handler into a server.
pub struct HttpServerBuilder {
    routes: Vec<(HttpMethod, String)>,
    handlers: Vec<Box<dyn RequestHandler>>,
    not_found_handler: Option<Box<dyn RequestHandler>>,
}

impl HttpServerBuilder {
    pub closed spec fn keys(&self) -> Seq<(int, Seq<char>, Seq<char>)> {
        route_keys(self.routes@)
    }

    pub closed spec fn has_fallback(&self) -> bool {
        self.not_found_handler is Some
    }

    pub fn new() -> (b: Self)
        ensures
            b.keys().len() == 0,
            !b.has_fallback(),
    {
        HttpServerBuilder { routes: Vec::new(), handlers: Vec::new(), not_found_handler: None }
    }

    /// Serves `method` on `path` with `handler`, replacing an earlier handler for that route.
    pub fn route<H: RequestHandler + 'static>(self, method: HttpMethod, path: &str, handler: H) -> (b: Self)
        ensures
            b.keys() == bind(self.keys(), route_key(method, path@)),
            b.has_fallback() == self.has_fallback(),
    {
        let mut s = self;
        let boxed: Box<dyn RequestHandler> = Box::new(handler);
        match find_route(&s.routes, &method, path) {
            Some(i) => {
                if i < s.handlers.len() {
                    s.handlers.set(i, boxed);
                }
            },
            None => {
                s.routes.push((method, String::from_str(path)));
                s.handlers.push(boxed);
                assert(route_keys(s.routes@) =~= bind(route_keys(self.routes@), route_key(method, path@)));
            },
        }
        s
    }

    /// Serves `GET` on `path` with `handler`.
    pub fn get<H: RequestHandler + 'static>(self, path: &str, handler: H) -> (b: Self)
        ensures
            b.keys() == bind(self.keys(), route_key(HttpMethod::Get, path@)),
            b.has_fallback() == self.has_fallback(),
    {
        self.route(HttpMethod::Get, path, handler)
    }

    /// Serves `POST` on `path` with `handler`.
    pub fn post<H: RequestHandler + 'static>(self, path: &str, handler: H) -> (b: Self)
        ensures
            b.keys() == bind(self.keys(), route_key(HttpMethod::Post, path@)),
            b.has_fallback() == self.has_fallback(),
    {
        self.route(HttpMethod::Post, path, handler)
    }

    /// Answers unmatched requests with `handler`.
    pub fn not_found<H: RequestHandler + 'static>(self, handler: H) -> (b: Self)
        ensures
            b.keys() == self.keys(),
            b.has_fallback(),
    {
        let mut s = self;
        let boxed: Box<dyn RequestHandler> = Box::new(handler);
        s.not_found_handler = Some(boxed);
        s
    }

    /// The server with these routes; without a fallback it answers unmatched requests with 404.
    pub fn build(self) -> (s: HttpServer)
        ensures
            s.keys() == self.keys(),
            s.has_fallback() == self.has_fallback(),
    {
        HttpServer {
            routes: self.routes,
            handlers: self.handlers,
            not_found_handler: self.not_found_handler,
        }
    }
}

} // verus!
