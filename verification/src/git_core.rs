//! A content-addressed object store in the manner of Git: blobs, trees and commits are
//! serialized with a `type length\0` header, named by a hash of those bytes, and parsed back
//! on reading.

use crate::consistent_hashing::hash_into;
use crate::text::{decimal, decimal_chars, string_of};
use std::collections::hash_map::DefaultHasher;
use std::hash::Hasher;
use vstd::prelude::*;
use vstd::string::StringSliceAdditionalSpecFns;
use vstd::utf8::{decode_utf8, encode_utf8, is_ascii_chars, valid_utf8};

verus! {

broadcast use vstd::utf8::group_utf8_lib;

/// An object id: 20 bytes derived from the hash of the serialized object.
#[derive(Debug, Clone, PartialEq, Eq, PartialOrd, Ord, Hash)]
pub struct Oid([u8; 20]);

/// The id derived from the 64-bit hash `h`: its eight little-endian bytes, then bytes 8 to 19
/// repeat them xor-ed with their index.
pub open spec fn oid_bytes_of_hash(h: u64) -> Seq<u8> {
    Seq::new(
        20,
        |i: int|
            if i < 8 {
                ((h >> ((i * 8) as u64)) & 0xff) as u8
            } else {
                (((h >> (((i % 8) * 8) as u64)) & 0xff) as u8) ^ (i as u8)
            },
    )
}

pub open spec fn hex_digit(n: int) -> char {
    if n < 10 { (n + 48) as char } else { (n + 87) as char }
}

/// Two lowercase hexadecimal digits per byte.
pub open spec fn hex_of(b: Seq<u8>) -> Seq<char>
    decreases b.len(),
{
    if b.len() == 0 {
        seq![]
    } else {
        hex_of(b.drop_last()) + seq![hex_digit(b.last() as int / 16), hex_digit(b.last() as int % 16)]
    }
}

impl Oid {
    /// The bytes of the id.
    pub closed spec fn bytes(&self) -> Seq<u8> {
        self.0@
    }

    /// The id derived from a 64-bit hash.
    pub fn from_hash(hash64: u64) -> (o: Oid)
        ensures
            o.bytes() == oid_bytes_of_hash(hash64),
    {
        let mut oid = [0u8; 20];
        let mut i: usize = 0;
        while i < 8
            invariant
                i <= 8,
                oid@.len() == 20,
                forall|k: int| 0 <= k < i ==> oid@[k] == oid_bytes_of_hash(hash64)[k],
            decreases 8 - i,
        {
            let shift: u64 = (i * 8) as u64;
            oid[i] = ((hash64 >> shift) & 0xff) as u8;
            i = i + 1;
        }
        while i < 20
            invariant
                8 <= i <= 20,
                oid@.len() == 20,
                forall|k: int| 0 <= k < i ==> oid@[k] == oid_bytes_of_hash(hash64)[k],
            decreases 20 - i,
        {
            let v = oid[i % 8] ^ (i as u8);
            oid[i] = v;
            i = i + 1;
        }
        assert(oid@ =~= oid_bytes_of_hash(hash64));
        Oid(oid)
    }

    /// The id of `data`: the bytes of its `DefaultHasher` hash.
    pub fn hash_bytes(data: &[u8]) -> (o: Oid)
        ensures
            exists|h: u64| o.bytes() == oid_bytes_of_hash(h),
    {
        let mut hasher = DefaultHasher::new();
        hash_into(data, &mut hasher);
        let h = hasher.finish();
        Oid::from_hash(h)
    }

    /// The id as 40 lowercase hexadecimal digits.
    pub fn to_hex(&self) -> (s: String)
        ensures
            s@ == hex_of(self.bytes()),
    {
        let mut cs: Vec<char> = Vec::new();
        let mut i: usize = 0;
        while i < 20
            invariant
                i <= 20,
                self.0@.len() == 20,
                cs@ == hex_of(self.0@.subrange(0, i as int)),
            decreases 20 - i,
        {
            let b = self.0[i];
            let hi = b / 16;
            let lo = b % 16;
            let c_hi = if hi < 10 { (hi + 48) as char } else { (hi + 87) as char };
            let c_lo = if lo < 10 { (lo + 48) as char } else { (lo + 87) as char };
            cs.push(c_hi);
            cs.push(c_lo);
            assert(self.0@.subrange(0, i + 1).drop_last() =~= self.0@.subrange(0, i as int));
            assert(cs@ =~= hex_of(self.0@.subrange(0, i + 1)));
            i = i + 1;
        }
        assert(self.0@.subrange(0, 20) =~= self.0@);
        string_of(cs.as_slice())
    }
}

/// The three kinds of stored object.
#[derive(Debug, Clone, Copy, PartialEq, Eq)]
pub enum ObjectType {
    Blob,
    Tree,
    Commit,
}

pub open spec fn type_chars(t: ObjectType) -> Seq<char> {
    match t {
        ObjectType::Blob => seq!['b', 'l', 'o', 'b'],
        ObjectType::Tree => seq!['t', 'r', 'e', 'e'],
        ObjectType::Commit => seq!['c', 'o', 'm', 'm', 'i', 't'],
    }
}

impl ObjectType {
    /// The name of the type as it appears in object headers.
    pub fn as_bytes(&self) -> (b: &'static [u8])
        ensures
            b@ == encode_utf8(type_chars(*self)),
    {
        match self {
            ObjectType::Blob => {
                let s = "blob";
                proof {
                    reveal_strlit("blob");
                    assert(s@ =~= type_chars(*self));
                }
                s.as_bytes()
            },
            ObjectType::Tree => {
                let s = "tree";
                proof {
                    reveal_strlit("tree");
                    assert(s@ =~= type_chars(*self));
                }
                s.as_bytes()
            },
            ObjectType::Commit => {
                let s = "commit";
                proof {
                    reveal_strlit("commit");
                    assert(s@ =~= type_chars(*self));
                }
                s.as_bytes()
            },
        }
    }
}

/// The header of an object: its type, a space and its length in decimal.
pub open spec fn header_chars(t: ObjectType, len: nat) -> Seq<char> {
    type_chars(t) + seq![' '] + decimal(len)
}

/// The stored form of an object: the header, a zero byte and the content.
pub open spec fn serialize(t: ObjectType, content: Seq<u8>) -> Seq<u8> {
    encode_utf8(header_chars(t, content.len())) + seq![0u8] + content
}

proof fn lemma_decimal_ascii(n: nat)
    ensures
        is_ascii_chars(decimal(n)),
        forall|i: int| 0 <= i < decimal(n).len() ==> '0' <= #[trigger] decimal(n)[i] <= '9',
    decreases n,
{
    if n >= 10 {
        lemma_decimal_ascii(n / 10);
    }
}

/// The bytes of ASCII characters.
pub open spec fn ascii_bytes(cs: Seq<char>) -> Seq<u8> {
    Seq::new(cs.len(), |i: int| cs[i] as u8)
}

proof fn lemma_header_bytes(t: ObjectType, n: nat)
    ensures
        is_ascii_chars(header_chars(t, n)),
        encode_utf8(header_chars(t, n)) == ascii_bytes(header_chars(t, n)),
        encode_utf8(type_chars(t)) == ascii_bytes(type_chars(t)),
        forall|i: int| 0 <= i < header_chars(t, n).len() ==> #[trigger] header_chars(t, n)[i] != '\0',
{
    let h = header_chars(t, n);
    lemma_decimal_ascii(n);
    assert forall|i: int| 0 <= i < h.len() implies '\0' <= #[trigger] h[i] <= '\u{7f}' && h[i] != '\0' by {
        if i >= type_chars(t).len() + 1 {
            assert(h[i] == decimal(n)[i - type_chars(t).len() - 1]);
        }
    }
    vstd::utf8::is_ascii_chars_encode_utf8(h);
    assert(encode_utf8(h) =~= ascii_bytes(h));
    vstd::utf8::is_ascii_chars_encode_utf8(type_chars(t));
    assert(encode_utf8(type_chars(t)) =~= ascii_bytes(type_chars(t)));
}

/// Appends the bytes of `s` to `v`.
fn append_bytes(v: &mut Vec<u8>, s: &[u8])
    ensures
        final(v)@ == old(v)@ + s@,
{
    let mut i: usize = 0;
    while i < s.len()
        invariant
            i <= s@.len(),
            v@ == old(v)@ + s@.subrange(0, i as int),
        decreases s@.len() - i,
    {
        v.push(s[i]);
        assert(s@.subrange(0, i + 1) =~= s@.subrange(0, i as int).push(s@[i as int]));
        i = i + 1;
    }
    assert(s@.subrange(0, s@.len() as int) =~= s@);
}

/// The stored form of an object of type `t` with `content`.
fn serialize_object(t: ObjectType, content: &[u8]) -> (r: Vec<u8>)
    ensures
        r@ == serialize(t, content@),
{
    let mut buffer: Vec<u8> = Vec::new();
    append_bytes(&mut buffer, t.as_bytes());
    buffer.push(32u8);
    let digits = decimal_chars(content.len() as u64);
    let ghost h = header_chars(t, content@.len());
    proof {
        lemma_header_bytes(t, content@.len());
        lemma_decimal_ascii(content@.len());
        assert(buffer@ =~= ascii_bytes(h).subrange(0, type_chars(t).len() + 1int));
    }
    let mut i: usize = 0;
    while i < digits.len()
        invariant
            i <= digits@.len(),
            digits@ == decimal(content@.len()),
            h == header_chars(t, content@.len()),
            buffer@ == ascii_bytes(h).subrange(0, type_chars(t).len() + 1 + i),
        decreases digits@.len() - i,
    {
        proof {
            lemma_decimal_ascii(content@.len());
        }
        let c = digits[i];
        buffer.push(c as u8);
        assert(buffer@ =~= ascii_bytes(h).subrange(0, type_chars(t).len() + 1 + i + 1));
        i = i + 1;
    }
    assert(ascii_bytes(h).subrange(0, h.len() as int) =~= ascii_bytes(h));
    buffer.push(0u8);
    append_bytes(&mut buffer, content);
    buffer
}

/// An entry of a tree: a file mode, a name and the id of the entry's object.
#[derive(Debug, Clone, PartialEq, Eq)]
pub struct TreeEntry {
    pub mode: String,
    pub name: String,
    pub oid: Oid,
}

/// The fields of a commit.
#[derive(Debug, Clone, PartialEq, Eq)]
pub struct CommitData {
    pub tree: Oid,
    pub parents: Vec<Oid>,
    pub author: String,
    pub committer: String,
    pub message: String,
}

/// A parsed object.
#[derive(Debug, Clone, PartialEq, Eq)]
pub enum GitObject {
    Blob(Vec<u8>),
    Tree(Vec<TreeEntry>),
    Commit(CommitData),
}

/// Why an object could not be read: it is absent, or its stored bytes do not parse.
#[derive(Debug, Clone, PartialEq, Eq)]
pub enum GitError {
    NotFound(String),
    InvalidData(String),
}

/// The content of a tree entry: mode, a space, name, a zero byte, and the 20 id bytes.
pub open spec fn entry_bytes(e: TreeEntry) -> Seq<u8> {
    encode_utf8(e.mode@) + seq![32u8] + encode_utf8(e.name@) + seq![0u8] + e.oid.bytes()
}

/// The content of a tree: its entries one after another.
pub open spec fn tree_bytes(es: Seq<TreeEntry>) -> Seq<u8>
    decreases es.len(),
{
    if es.len() == 0 { seq![] } else { tree_bytes(es.drop_last()) + entry_bytes(es.last()) }
}

/// The lines `prefix hex` for each id.
pub open spec fn parent_lines(ps: Seq<Oid>) -> Seq<char>
    decreases ps.len(),
{
    if ps.len() == 0 {
        seq![]
    } else {
        parent_lines(ps.drop_last()) + seq!['p', 'a', 'r', 'e', 'n', 't', ' '] + hex_of(ps.last().bytes())
            + seq!['\n']
    }
}

/// The text of a commit: tree, parents, author and committer lines, a blank line, the message.
pub open spec fn commit_chars(c: CommitData) -> Seq<char> {
    seq!['t', 'r', 'e', 'e', ' '] + hex_of(c.tree.bytes()) + seq!['\n'] + parent_lines(c.parents@)
        + seq!['a', 'u', 't', 'h', 'o', 'r', ' '] + c.author@ + seq!['\n']
        + seq!['c', 'o', 'm', 'm', 'i', 't', 't', 'e', 'r', ' '] + c.committer@ + seq!['\n', '\n']
        + c.message@
}

/// `std::str::from_utf8`: the text the bytes encode, or `None` when they are not UTF-8.
#[verifier::external_body]
fn str_from_utf8(v: &[u8]) -> (r: Option<&str>)
    ensures
        r is Some <==> valid_utf8(v@),
        r matches Some(s) ==> s.spec_bytes() == v@,
{
    std::str::from_utf8(v).ok()
}

/// Index of the first `b` in `s` at or after `from`, or -1.
pub open spec fn find_from(s: Seq<u8>, from: int, b: u8) -> int
    decreases s.len() - from,
{
    if from < 0 || from >= s.len() {
        -1
    } else if s[from] == b {
        from
    } else {
        find_from(s, from + 1, b)
    }
}

proof fn lemma_find_from(s: Seq<u8>, from: int, b: u8)
    requires
        0 <= from,
    ensures
        find_from(s, from, b) == -1 || (from <= find_from(s, from, b) < s.len() && s[find_from(s, from, b)] == b),
        forall|j: int| from <= j < s.len() && (find_from(s, from, b) == -1 || j < find_from(s, from, b)) ==> #[trigger] s[j] != b,
    decreases s.len() - from,
{
    if from < s.len() && s[from] != b {
        lemma_find_from(s, from + 1, b);
    }
}

/// Index of the first `b` in `s[from..]`.
fn find_byte(s: &[u8], from: usize, b: u8) -> (r: Option<usize>)
    ensures
        match r {
            Some(i) => i as int == find_from(s@, from as int, b),
            None => find_from(s@, from as int, b) == -1,
        },
{
    let mut i = from;
    while i < s.len()
        invariant
            from <= i,
            find_from(s@, from as int, b) == find_from(s@, i as int, b),
        decreases s@.len() - i,
    {
        if s[i] == b {
            return Some(i);
        }
        i = i + 1;
    }
    None
}

/// Index of the first `c` in `s`, or -1.
pub open spec fn char_index(s: Seq<char>, c: char) -> int
    decreases s.len(),
{
    if s.len() == 0 {
        -1
    } else if s[0] == c {
        0
    } else if char_index(s.drop_first(), c) < 0 {
        -1
    } else {
        char_index(s.drop_first(), c) + 1
    }
}

proof fn lemma_char_index(s: Seq<char>, c: char)
    ensures
        -1 <= char_index(s, c) < s.len(),
        char_index(s, c) >= 0 ==> s[char_index(s, c)] == c,
        forall|j: int| 0 <= j < s.len() && (char_index(s, c) < 0 || j < char_index(s, c)) ==> #[trigger] s[j] != c,
    decreases s.len(),
{
    if s.len() > 0 && s[0] != c {
        lemma_char_index(s.drop_first(), c);
        assert forall|j: int| 0 <= j < s.len() && (char_index(s, c) < 0 || j < char_index(s, c)) implies #[trigger] s[j] != c by {
            if j > 0 {
                assert(s[j] == s.drop_first()[j - 1]);
            }
        }
    }
}

/// A tree entry as text and bytes.
pub open spec fn entry_view(e: TreeEntry) -> (Seq<char>, Seq<char>, Seq<u8>) {
    (e.mode@, e.name@, e.oid.bytes())
}

pub open spec fn entries_view(es: Seq<TreeEntry>) -> Seq<(Seq<char>, Seq<char>, Seq<u8>)> {
    es.map_values(|e: TreeEntry| entry_view(e))
}

/// Parsing the content of a tree: entries up to a zero byte, split at the first space into mode
/// and name, followed by 20 id bytes.
pub open spec fn parse_tree_spec(c: Seq<u8>) -> Result<Seq<(Seq<char>, Seq<char>, Seq<u8>)>, Seq<char>>
    decreases c.len(),
{
    if c.len() == 0 {
        Ok(seq![])
    } else {
        let z = find_from(c, 0, 0u8);
        if z < 0 {
            Err("Malformed tree entry"@)
        } else if !valid_utf8(c.subrange(0, z)) {
            Err("Invalid UTF-8 in tree entry prefix"@)
        } else {
            let pc = decode_utf8(c.subrange(0, z));
            let k = char_index(pc, ' ');
            if k < 0 {
                Err("Malformed tree entry"@)
            } else if c.len() < z + 21 {
                Err("Tree entry OID truncated"@)
            } else {
                match parse_tree_spec(c.subrange(z + 21, c.len() as int)) {
                    Ok(rest) => Ok(
                        seq![(pc.subrange(0, k), pc.subrange(k + 1, pc.len() as int), c.subrange(z + 1, z + 21))]
                            + rest,
                    ),
                    Err(e) => Err(e),
                }
            }
        }
    }
}

pub open spec fn prepend<A, E>(a: Seq<A>, r: Result<Seq<A>, E>) -> Result<Seq<A>, E> {
    match r {
        Ok(x) => Ok(a + x),
        Err(e) => Err(e),
    }
}

fn invalid(m: &str) -> (e: GitError)
    ensures
        e matches GitError::InvalidData(s) && s@ == m@,
{
    GitError::InvalidData(String::from_str(m))
}

/// The entries of a tree's content.
fn parse_tree(content: &[u8]) -> (r: Result<Vec<TreeEntry>, GitError>)
    ensures
        match (r, parse_tree_spec(content@)) {
            (Ok(v), Ok(sv)) => entries_view(v@) == sv,
            (Err(GitError::InvalidData(m)), Err(sm)) => m@ == sm,
            _ => false,
        },
{
    let mut entries: Vec<TreeEntry> = Vec::new();
    let mut off: usize = 0;
    assert(content@.subrange(0, content@.len() as int) =~= content@);
    assert(entries_view(entries@) =~= Seq::<(Seq<char>, Seq<char>, Seq<u8>)>::empty());
    proof {
        lemma_prepend_empty(parse_tree_spec(content@));
    }
    while off < content.len()
        invariant
            off <= content@.len(),
            parse_tree_spec(content@) == prepend(
                entries_view(entries@),
                parse_tree_spec(content@.subrange(off as int, content@.len() as int)),
            ),
        decreases content@.len() - off,
    {
        let ghost c = content@.subrange(off as int, content@.len() as int);
        proof {
            lemma_find_from(content@, off as int, 0u8);
            lemma_find_from(c, 0, 0u8);
            lemma_find_shift(content@, off as int, 0u8);
        }
        let z = match find_byte(content, off, 0u8) {
            Some(z) => z,
            None => {
                return Err(invalid("Malformed tree entry"));
            },
        };
        let ghost zr = z - off;
        assert(content@.subrange(off as int, z as int) =~= c.subrange(0, zr));
        let prefix = match str_from_utf8(&content[off..z]) {
            Some(p) => p,
            None => {
                return Err(invalid("Invalid UTF-8 in tree entry prefix"));
            },
        };
        let pc = crate::text::chars_of(prefix);
        proof {
            lemma_char_index(pc@, ' ');
        }
        let mut k: usize = 0;
        while k < pc.len() && pc[k] != ' '
            invariant
                k <= pc@.len(),
                forall|j: int| 0 <= j < k ==> pc@[j] != ' ',
            decreases pc@.len() - k,
        {
            k = k + 1;
        }
        if k == pc.len() {
            proof {
                if char_index(pc@, ' ') >= 0 {
                    assert(pc@[char_index(pc@, ' ')] == ' ');
                }
            }
            return Err(invalid("Malformed tree entry"));
        }
        proof {
            if char_index(pc@, ' ') < k {
                assert(pc@[char_index(pc@, ' ')] == ' ');
            }
        }
        if content.len() - z < 21 {
            return Err(invalid("Tree entry OID truncated"));
        }
        let mode = string_of(&pc.as_slice()[0..k]);
        let name = string_of(&pc.as_slice()[k + 1..pc.len()]);
        let mut oid = [0u8; 20];
        let base = z + 1;
        let mut j: usize = 0;
        while j < 20
            invariant
                j <= 20,
                oid@.len() == 20,
                base + 20 <= content.len(),
                forall|q: int| 0 <= q < j ==> oid@[q] == content@[base + q],
            decreases 20 - j,
        {
            oid[j] = content[base + j];
            j = j + 1;
        }
        let entry = TreeEntry { mode, name, oid: Oid(oid) };
        proof {
            assert(oid@ =~= content@.subrange(z + 1, z + 21));
            assert(c.subrange(zr + 1, zr + 21) =~= content@.subrange(z + 1, z + 21));
            assert(c.subrange(zr + 21, c.len() as int) =~= content@.subrange(z + 21, content@.len() as int));
            assert(prefix@ == decode_utf8(c.subrange(0, zr)));
        }
        let ghost before = entries@;
        entries.push(entry);
        proof {
            assert(entries_view(entries@) =~= entries_view(before).push(entry_view(entry)));
            assert(entry_view(entry) == (pc@.subrange(0, k as int), pc@.subrange(k + 1, pc@.len() as int), content@.subrange(z + 1, z + 21)));
            let c2 = content@.subrange(z + 21, content@.len() as int);
            assert(parse_tree_spec(c) == prepend(seq![entry_view(entry)], parse_tree_spec(c2)));
            lemma_prepend_assoc(entries_view(before), seq![entry_view(entry)], parse_tree_spec(c2));
            assert(entries_view(before) + seq![entry_view(entry)] =~= entries_view(entries@));
        }
        off = z + 21;
    }
    assert(content@.subrange(off as int, content@.len() as int).len() == 0);
    Ok(entries)
}

proof fn lemma_prepend_empty<A, E>(r: Result<Seq<A>, E>)
    ensures
        prepend(Seq::<A>::empty(), r) == r,
{
    match r {
        Ok(x) => {
            assert(Seq::<A>::empty() + x =~= x);
        },
        Err(_) => {},
    }
}

proof fn lemma_prepend_assoc<A, E>(a: Seq<A>, b: Seq<A>, r: Result<Seq<A>, E>)
    ensures
        prepend(a, prepend(b, r)) == prepend(a + b, r),
{
    match r {
        Ok(x) => {
            assert(a + (b + x) =~= (a + b) + x);
        },
        Err(_) => {},
    }
}

proof fn lemma_find_shift(s: Seq<u8>, off: int, b: u8)
    requires
        0 <= off <= s.len(),
    ensures
        find_from(s.subrange(off, s.len() as int), 0, b) == if find_from(s, off, b) < 0 {
            -1
        } else {
            find_from(s, off, b) - off
        },
    decreases s.len() - off,
{
    let t = s.subrange(off, s.len() as int);
    if off < s.len() {
        assert(t[0] == s[off]);
        if s[off] != b {
            lemma_find_shift(s, off + 1, b);
            lemma_find_from(s, off + 1, b);
            lemma_find_tail(t, b);
            assert(t.subrange(1, t.len() as int) =~= s.subrange(off + 1, s.len() as int));
            assert(find_from(s, off, b) == find_from(s, off + 1, b));
        } else {
            assert(find_from(t, 0, b) == 0);
        }
    } else {
        assert(t.len() == 0);
    }
}

proof fn lemma_find_tail(t: Seq<u8>, b: u8)
    requires
        t.len() > 0,
        t[0] != b,
    ensures
        find_from(t, 0, b) == if find_from(t.subrange(1, t.len() as int), 0, b) < 0 {
            -1
        } else {
            find_from(t.subrange(1, t.len() as int), 0, b) + 1
        },
{
    lemma_find_from_shift1(t, 1, b);
}

proof fn lemma_find_from_shift1(t: Seq<u8>, i: int, b: u8)
    requires
        1 <= i <= t.len(),
    ensures
        find_from(t, i, b) == if find_from(t.subrange(1, t.len() as int), i - 1, b) < 0 {
            -1
        } else {
            find_from(t.subrange(1, t.len() as int), i - 1, b) + 1
        },
    decreases t.len() - i,
{
    if i < t.len() {
        assert(t.subrange(1, t.len() as int)[i - 1] == t[i]);
        if t[i] != b {
            lemma_find_from_shift1(t, i + 1, b);
        }
    }
}

/// Appends the characters of `s`.
fn push_chars(v: &mut Vec<char>, s: &str)
    ensures
        final(v)@ == old(v)@ + s@,
{
    let n = s.unicode_len();
    let mut i: usize = 0;
    while i < n
        invariant
            n == s@.len(),
            i <= n,
            v@ == old(v)@ + s@.subrange(0, i as int),
        decreases n - i,
    {
        v.push(s.get_char(i));
        assert(s@.subrange(0, i + 1) =~= s@.subrange(0, i as int).push(s@[i as int]));
        i = i + 1;
    }
    assert(s@.subrange(0, n as int) =~= s@);
}

/// Index of the first object with id `k`, or -1.
pub open spec fn object_index(es: Seq<(Seq<u8>, Seq<u8>)>, k: Seq<u8>) -> int
    decreases es.len(),
{
    if es.len() == 0 {
        -1
    } else if es.last().0 == k {
        es.len() - 1
    } else {
        object_index(es.drop_last(), k)
    }
}

proof fn lemma_object_index(es: Seq<(Seq<u8>, Seq<u8>)>, k: Seq<u8>)
    ensures
        -1 <= object_index(es, k) < es.len(),
        object_index(es, k) >= 0 ==> es[object_index(es, k)].0 == k,
        forall|j: int| object_index(es, k) < j < es.len() ==> #[trigger] es[j].0 != k,
    decreases es.len(),
{
    if es.len() > 0 && es.last().0 != k {
        let t = es.drop_last();
        lemma_object_index(t, k);
        assert forall|j: int| object_index(es, k) < j < es.len() implies #[trigger] es[j].0 != k by {
            if j < es.len() - 1 {
                assert(es[j] == t[j]);
            }
        }
    }
}

/// The stored bytes of the object with id `k`.
pub open spec fn stored(es: Seq<(Seq<u8>, Seq<u8>)>, k: Seq<u8>) -> Option<Seq<u8>> {
    if object_index(es, k) >= 0 { Some(es[object_index(es, k)].1) } else { None }
}

/// The store with the object `k` set to `v`.
pub open spec fn store_put(es: Seq<(Seq<u8>, Seq<u8>)>, k: Seq<u8>, v: Seq<u8>) -> Seq<(Seq<u8>, Seq<u8>)> {
    if object_index(es, k) >= 0 { es.update(object_index(es, k), (k, v)) } else { es.push((k, v)) }
}

/// After an object is written, reading its id gives the bytes written.
pub proof fn lemma_store_put_stored(es: Seq<(Seq<u8>, Seq<u8>)>, k: Seq<u8>, v: Seq<u8>)
    ensures
        stored(store_put(es, k, v), k) == Some(v),
{
    let p = store_put(es, k, v);
    lemma_object_index(es, k);
    lemma_object_index(p, k);
    let i = object_index(es, k);
    let ip = object_index(p, k);
    if i >= 0 {
        if ip != i {
            if ip < i {
                assert(p[i].0 == k);
            } else {
                assert(p[ip] == es[ip]);
            }
        }
    } else {
        assert(p[es.len() as int].0 == k);
    }
}

fn same_oid(a: &Oid, b: &Oid) -> (r: bool)
    ensures
        r == (a.bytes() == b.bytes()),
{
    let mut i: usize = 0;
    while i < 20
        invariant
            i <= 20,
            a.0@.len() == 20,
            b.0@.len() == 20,
            forall|k: int| 0 <= k < i ==> a.0@[k] == b.0@[k],
        decreases 20 - i,
    {
        if a.0[i] != b.0[i] {
            return false;
        }
        i = i + 1;
    }
    assert(a.0@ =~= b.0@);
    true
}

fn bytes_eq(a: &[u8], b: &[u8]) -> (r: bool)
    ensures
        r == (a@ == b@),
{
    if a.len() != b.len() {
        return false;
    }
    let mut i: usize = 0;
    while i < a.len()
        invariant
            i <= a@.len(),
            a@.len() == b@.len(),
            forall|k: int| 0 <= k < i ==> a@[k] == b@[k],
        decreases a@.len() - i,
    {
        if a[i] != b[i] {
            return false;
        }
        i = i + 1;
    }
    assert(a@ =~= b@);
    true
}

/// A content-addressed store of serialized objects.
pub struct ObjectStore {
    objects: Vec<(Oid, Vec<u8>)>,
}

pub open spec fn store_view(objs: Seq<(Oid, Vec<u8>)>) -> Seq<(Seq<u8>, Seq<u8>)> {
    objs.map_values(|p: (Oid, Vec<u8>)| (p.0.bytes(), p.1@))
}

impl ObjectStore {
    /// Each stored object as its id and stored bytes.
    pub closed spec fn entries(&self) -> Seq<(Seq<u8>, Seq<u8>)> {
        store_view(self.objects@)
    }

    /// Every stored object is the serialization of some typed content.
    pub open spec fn wf(&self) -> bool {
        forall|i: int| 0 <= i < self.entries().len() ==> exists|t: ObjectType, c: Seq<u8>| #[trigger] self.entries()[i].1 == serialize(t, c)
    }

    pub fn new() -> (s: Self)
        ensures
            s.wf(),
            s.entries().len() == 0,
    {
        let s = ObjectStore { objects: Vec::new() };
        assert(s.entries() =~= Seq::<(Seq<u8>, Seq<u8>)>::empty());
        s
    }

    fn find(&self, oid: &Oid) -> (r: Option<usize>)
        ensures
            match r {
                Some(i) => i as int == object_index(self.entries(), oid.bytes()) && i < self.objects@.len(),
                None => object_index(self.entries(), oid.bytes()) < 0,
            },
    {
        let ghost es = self.entries();
        proof {
            lemma_object_index(es, oid.bytes());
        }
        let mut i = self.objects.len();
        while i > 0
            invariant
                i <= self.objects@.len(),
                es == self.entries(),
                es.len() == self.objects@.len(),
                object_index(es, oid.bytes()) < i,
                -1 <= object_index(es, oid.bytes()),
                object_index(es, oid.bytes()) >= 0 ==> es[object_index(es, oid.bytes())].0 == oid.bytes(),
                forall|j: int| object_index(es, oid.bytes()) < j < es.len() ==> #[trigger] es[j].0 != oid.bytes(),
            decreases i,
        {
            i = i - 1;
            assert(es[i as int].0 == self.objects@[i as int].0.bytes());
            if same_oid(&self.objects[i].0, oid) {
                return Some(i);
            }
        }
        None
    }

    /// Serializes, names and stores an object; returns its id.
    fn write_raw_object(&mut self, obj_type: ObjectType, content: &[u8]) -> (oid: Oid)
        requires
            old(self).wf(),
        ensures
            final(self).wf(),
            exists|h: u64| oid.bytes() == oid_bytes_of_hash(h),
            final(self).entries() == store_put(old(self).entries(), oid.bytes(), serialize(obj_type, content@)),
    {
        let serialized = serialize_object(obj_type, content);
        let oid = Oid::hash_bytes(serialized.as_slice());
        let ghost es = self.entries();
        let ghost v = serialize(obj_type, content@);
        match self.find(&oid) {
            Some(i) => {
                self.objects.set(i, (Oid(oid.0), serialized));
            },
            None => {
                self.objects.push((Oid(oid.0), serialized));
            },
        }
        proof {
            assert(self.entries() =~= store_put(es, oid.bytes(), v));
            assert forall|i: int| 0 <= i < self.entries().len() implies exists|t: ObjectType, c: Seq<u8>| #[trigger] self.entries()[i].1 == serialize(t, c) by {
                if self.entries()[i].1 == v {
                    assert(self.entries()[i].1 == serialize(obj_type, content@));
                } else {
                    assert(self.entries()[i] == es[i]);
                }
            }
        }
        oid
    }

    /// Stores `content` as a blob.
    pub fn write_blob(&mut self, content: &[u8]) -> (oid: Oid)
        requires
            old(self).wf(),
        ensures
            final(self).wf(),
            exists|h: u64| oid.bytes() == oid_bytes_of_hash(h),
            final(self).entries() == store_put(old(self).entries(), oid.bytes(), serialize(ObjectType::Blob, content@)),
    {
        self.write_raw_object(ObjectType::Blob, content)
    }

    /// Stores a tree with the given entries.
    pub fn write_tree(&mut self, entries: &[TreeEntry]) -> (oid: Oid)
        requires
            old(self).wf(),
        ensures
            final(self).wf(),
            exists|h: u64| oid.bytes() == oid_bytes_of_hash(h),
            final(self).entries() == store_put(old(self).entries(), oid.bytes(), serialize(ObjectType::Tree, tree_bytes(entries@))),
    {
        let mut content: Vec<u8> = Vec::new();
        let mut i: usize = 0;
        while i < entries.len()
            invariant
                i <= entries@.len(),
                content@ == tree_bytes(entries@.subrange(0, i as int)),
            decreases entries@.len() - i,
        {
            let entry = &entries[i];
            append_bytes(&mut content, entry.mode.as_str().as_bytes());
            content.push(32u8);
            append_bytes(&mut content, entry.name.as_str().as_bytes());
            content.push(0u8);
            append_bytes(&mut content, &entry.oid.0);
            assert(entries@.subrange(0, i + 1).drop_last() =~= entries@.subrange(0, i as int));
            assert(content@ =~= tree_bytes(entries@.subrange(0, i + 1)));
            i = i + 1;
        }
        assert(entries@.subrange(0, entries@.len() as int) =~= entries@);
        self.write_raw_object(ObjectType::Tree, content.as_slice())
    }

    /// Stores a commit.
    pub fn write_commit(&mut self, commit: &CommitData) -> (oid: Oid)
        requires
            old(self).wf(),
        ensures
            final(self).wf(),
            exists|h: u64| oid.bytes() == oid_bytes_of_hash(h),
            final(self).entries() == store_put(old(self).entries(), oid.bytes(), serialize(ObjectType::Commit, encode_utf8(commit_chars(*commit)))),
    {
        let mut cs: Vec<char> = Vec::new();
        push_chars(&mut cs, "tree ");
        let tree_hex = commit.tree.to_hex();
        push_chars(&mut cs, tree_hex.as_str());
        cs.push('\n');
        let ghost head = cs@;
        let mut i: usize = 0;
        while i < commit.parents.len()
            invariant
                i <= commit.parents@.len(),
                cs@ == head + parent_lines(commit.parents@.subrange(0, i as int)),
            decreases commit.parents@.len() - i,
        {
            push_chars(&mut cs, "parent ");
            let hex = commit.parents[i].to_hex();
            push_chars(&mut cs, hex.as_str());
            cs.push('\n');
            assert(commit.parents@.subrange(0, i + 1).drop_last() =~= commit.parents@.subrange(0, i as int));
            proof {
                reveal_strlit("parent ");
            }
            assert(cs@ =~= head + parent_lines(commit.parents@.subrange(0, i + 1)));
            i = i + 1;
        }
        assert(commit.parents@.subrange(0, commit.parents@.len() as int) =~= commit.parents@);
        push_chars(&mut cs, "author ");
        push_chars(&mut cs, commit.author.as_str());
        cs.push('\n');
        push_chars(&mut cs, "committer ");
        push_chars(&mut cs, commit.committer.as_str());
        cs.push('\n');
        cs.push('\n');
        push_chars(&mut cs, commit.message.as_str());
        proof {
            reveal_strlit("tree ");
            reveal_strlit("parent ");
            reveal_strlit("author ");
            reveal_strlit("committer ");
            assert(cs@ =~= commit_chars(*commit));
        }
        let text = string_of(cs.as_slice());
        self.write_raw_object(ObjectType::Commit, text.as_str().as_bytes())
    }

    /// Reads and parses the object with id `oid`.
    #[verifier::rlimit(60)]
    #[verifier::spinoff_prover]
    pub fn read_object(&self, oid: &Oid) -> (r: Result<GitObject, GitError>)
        requires
            self.wf(),
        ensures
            stored(self.entries(), oid.bytes()) is None <==> r matches Err(GitError::NotFound(_)),
            r matches Err(GitError::NotFound(m)) ==> m@ == "Object not found in store"@,
            forall|c: Seq<u8>| stored(self.entries(), oid.bytes()) == Some(serialize(ObjectType::Blob, c))
                ==> (r matches Ok(GitObject::Blob(d)) && d@ == c),
            forall|c: Seq<u8>| stored(self.entries(), oid.bytes()) == Some(serialize(ObjectType::Tree, c))
                ==> tree_read(r, parse_tree_spec(c)),
            forall|c: Seq<u8>| stored(self.entries(), oid.bytes()) == Some(serialize(ObjectType::Commit, c))
                ==> commit_read(r, commit_spec(c)),
    {
        let i = match self.find(oid) {
            Some(i) => i,
            None => {
                return Err(GitError::NotFound(String::from_str("Object not found in store")));
            },
        };
        let ghost es = self.entries();
        assert(es[i as int].1 == self.objects@[i as int].1@);
        let bytes = self.objects[i].1.as_slice();
        assert(exists|t: ObjectType, c: Seq<u8>| es[i as int].1 == serialize(t, c));
        let ghost (t0, c0): (ObjectType, Seq<u8>) = choose|t: ObjectType, c: Seq<u8>| es[i as int].1 == #[trigger] serialize(t, c);
        proof {
            lemma_serialized_layout(t0, c0);
            lemma_serialize_injective(t0, c0);
        }
        proof {
            lemma_find_from(bytes@, 0, 0u8);
        }
        let z = match find_byte(bytes, 0, 0u8) {
            Some(z) => z,
            None => {
                return Err(invalid("Missing null terminator in object header"));
            },
        };
        let header = &bytes[0..z];
        proof {
            lemma_find_from(header@, 0, 32u8);
        }
        if str_from_utf8(header).is_none() {
            return Err(invalid("Invalid UTF-8 in object header"));
        }
        let sp = match find_byte(header, 0, 32u8) {
            Some(sp) => sp,
            None => {
                return Err(invalid("Unknown object type"));
            },
        };
        let ty = &header[0..sp];
        let n = bytes.len();
        assert(z < n);
        let content = &bytes[z + 1..n];
        proof {
            lemma_type_bytes_distinct();
            assert(header@ == bytes@.subrange(0, z as int));
            assert(ty@ == header@.subrange(0, sp as int));
        }
        if bytes_eq(ty, ObjectType::Blob.as_bytes()) {
            let mut data: Vec<u8> = Vec::new();
            append_bytes(&mut data, content);
            assert(data@ =~= content@);
            Ok(GitObject::Blob(data))
        } else if bytes_eq(ty, ObjectType::Tree.as_bytes()) {
            match parse_tree(content) {
                Ok(entries) => Ok(GitObject::Tree(entries)),
                Err(e) => Err(e),
            }
        } else if bytes_eq(ty, ObjectType::Commit.as_bytes()) {
            match parse_commit(content) {
                Ok(c) => Ok(GitObject::Commit(c)),
                Err(e) => Err(e),
            }
        } else {
            Err(invalid("Unknown object type"))
        }
    }
}


/// Reading a tree gives the parse of its content.
pub open spec fn tree_read(r: Result<GitObject, GitError>, s: Result<Seq<(Seq<char>, Seq<char>, Seq<u8>)>, Seq<char>>) -> bool {
    match (r, s) {
        (Ok(GitObject::Tree(v)), Ok(sv)) => entries_view(v@) == sv,
        (Err(GitError::InvalidData(m)), Err(sm)) => m@ == sm,
        _ => false,
    }
}

/// The errors of parsing a commit.
pub open spec fn commit_error(m: Seq<char>) -> bool {
    ||| m == "Invalid UTF-8 in commit object"@
    ||| m == "Invalid OID hex length"@
    ||| m == "Invalid hex character in OID"@
    ||| m == "Commit missing tree"@
}

/// Reading a commit gives the parse of its content: its fields, or the parse's error.
pub open spec fn commit_read(
    r: Result<GitObject, GitError>,
    s: Result<(Seq<u8>, Seq<Seq<u8>>, Seq<char>, Seq<char>, Seq<char>), Seq<char>>,
) -> bool {
    match (r, s) {
        (Ok(GitObject::Commit(cd)), Ok(v)) => cd.tree.bytes() == v.0 && oids_view(cd.parents@) == v.1
            && cd.author@ == v.2 && cd.committer@ == v.3 && cd.message@ == v.4,
        (Err(GitError::InvalidData(m)), Err(sm)) => m@ == sm,
        _ => false,
    }
}

proof fn lemma_find_at(s: Seq<u8>, from: int, i: int, b: u8)
    requires
        0 <= from <= i < s.len(),
        s[i] == b,
        forall|j: int| from <= j < i ==> #[trigger] s[j] != b,
    ensures
        find_from(s, from, b) == i,
    decreases i - from,
{
    if from < i {
        lemma_find_at(s, from + 1, i, b);
    }
}

/// Where the parts of a serialized object lie.
proof fn lemma_serialized_layout(t: ObjectType, c: Seq<u8>)
    ensures
        ({
            let s = serialize(t, c);
            let h = header_chars(t, c.len());
            &&& find_from(s, 0, 0u8) == h.len()
            &&& s.subrange(0, h.len() as int) == ascii_bytes(h)
            &&& valid_utf8(ascii_bytes(h))
            &&& find_from(ascii_bytes(h), 0, 32u8) == type_chars(t).len()
            &&& ascii_bytes(h).subrange(0, type_chars(t).len() as int) == encode_utf8(type_chars(t))
            &&& s.subrange(h.len() + 1int, s.len() as int) == c
        }),
{
    let s = serialize(t, c);
    let h = header_chars(t, c.len());
    let a = ascii_bytes(h);
    lemma_header_bytes(t, c.len());
    lemma_decimal_ascii(c.len());
    assert(s.subrange(0, h.len() as int) =~= a);
    assert(s.subrange(h.len() + 1int, s.len() as int) =~= c);
    assert forall|j: int| 0 <= j < h.len() implies #[trigger] s[j] != 0u8 by {
        assert(s[j] == a[j]);
        assert(h[j] != '\0');
        assert('\0' <= h[j] <= '\u{7f}');
    }
    lemma_find_at(s, 0, h.len() as int, 0u8);
    let tl = type_chars(t).len() as int;
    assert(h[tl] == ' ');
    assert forall|j: int| 0 <= j < tl implies #[trigger] a[j] != 32u8 by {
        assert(a[j] == h[j] as u8);
        assert(h[j] == type_chars(t)[j]);
    }
    lemma_find_at(a, 0, tl, 32u8);
    assert(a.subrange(0, tl) =~= ascii_bytes(type_chars(t)));
}

/// The stored bytes determine the type and content.
proof fn lemma_serialize_injective(t: ObjectType, c: Seq<u8>)
    ensures
        forall|t2: ObjectType, c2: Seq<u8>| #[trigger] serialize(t2, c2) == serialize(t, c) ==> t2 == t && c2 == c,
{
    assert forall|t2: ObjectType, c2: Seq<u8>| #[trigger] serialize(t2, c2) == serialize(t, c) implies t2 == t && c2 == c by {
        lemma_serialized_layout(t, c);
        lemma_serialized_layout(t2, c2);
        lemma_type_bytes_distinct();
        let h = header_chars(t, c.len());
        let h2 = header_chars(t2, c2.len());
        assert(h.len() == h2.len());
        assert(encode_utf8(type_chars(t2)) == encode_utf8(type_chars(t)));
    }
}

proof fn lemma_type_bytes_distinct()
    ensures
        encode_utf8(type_chars(ObjectType::Blob)) == seq![98u8, 108u8, 111u8, 98u8],
        encode_utf8(type_chars(ObjectType::Tree)) == seq![116u8, 114u8, 101u8, 101u8],
        encode_utf8(type_chars(ObjectType::Commit)) == seq![99u8, 111u8, 109u8, 109u8, 105u8, 116u8],
{
    lemma_header_bytes(ObjectType::Blob, 0);
    lemma_header_bytes(ObjectType::Tree, 0);
    lemma_header_bytes(ObjectType::Commit, 0);
    assert(ascii_bytes(type_chars(ObjectType::Blob)) =~= seq![98u8, 108u8, 111u8, 98u8]);
    assert(ascii_bytes(type_chars(ObjectType::Tree)) =~= seq![116u8, 114u8, 101u8, 101u8]);
    assert(ascii_bytes(type_chars(ObjectType::Commit)) =~= seq![99u8, 111u8, 109u8, 109u8, 105u8, 116u8]);
}

/// The value of a hexadecimal digit, upper or lower case.
pub open spec fn digit_value(c: char) -> Option<u8> {
    if '0' <= c && c <= '9' {
        Some((c as u32 - '0' as u32) as u8)
    } else if 'a' <= c && c <= 'f' {
        Some((c as u32 - 'a' as u32 + 10) as u8)
    } else if 'A' <= c && c <= 'F' {
        Some((c as u32 - 'A' as u32 + 10) as u8)
    } else {
        None
    }
}

/// The number of bytes UTF-8 takes for a character.
pub open spec fn char_width(c: char) -> nat {
    if (c as u32) < 0x80 {
        1
    } else if (c as u32) < 0x800 {
        2
    } else if (c as u32) < 0x10000 {
        3
    } else {
        4
    }
}

/// The number of bytes UTF-8 takes for a text.
pub open spec fn utf8_len(s: Seq<char>) -> nat
    decreases s.len(),
{
    if s.len() == 0 {
        0
    } else {
        utf8_len(s.drop_last()) + char_width(s.last())
    }
}

/// The byte a pair of characters writes in base 16; a leading `+` stands for nothing, as
/// `u8::from_str_radix` reads it.
pub open spec fn pair_byte(a: char, b: char) -> Option<u8> {
    if a == '+' {
        digit_value(b)
    } else {
        match (digit_value(a), digit_value(b)) {
            (Some(x), Some(y)) => Some((x * 16 + y) as u8),
            _ => None,
        }
    }
}

/// The bytes of the first `k` pairs of characters of `s`, if each is a byte.
pub open spec fn hex_pairs(s: Seq<char>, k: nat) -> Option<Seq<u8>>
    decreases k,
{
    if k == 0 {
        Some(Seq::empty())
    } else {
        match hex_pairs(s, (k - 1) as nat) {
            None => None,
            Some(b) => match pair_byte(s[2 * (k - 1)], s[2 * (k - 1) + 1]) {
                None => None,
                Some(v) => Some(b.push(v)),
            },
        }
    }
}

/// The twenty bytes that forty hexadecimal digits write, or the error reading them gives.
pub open spec fn oid_from_hex(s: Seq<char>) -> Result<Seq<u8>, Seq<char>> {
    if utf8_len(s) != 40 {
        Err("Invalid OID hex length"@)
    } else if s.len() != 40 {
        Err("Invalid hex character in OID"@)
    } else {
        match hex_pairs(s, 20) {
            Some(b) => Ok(b),
            None => Err("Invalid hex character in OID"@),
        }
    }
}

proof fn lemma_utf8_len_prefix(s: Seq<char>, j: int)
    requires
        0 <= j <= s.len(),
    ensures
        utf8_len(s.subrange(0, j)) <= utf8_len(s),
    decreases s.len(),
{
    if j < s.len() {
        assert(s.drop_last().subrange(0, j) =~= s.subrange(0, j));
        lemma_utf8_len_prefix(s.drop_last(), j);
    } else {
        assert(s.subrange(0, j) =~= s);
    }
}

proof fn lemma_hex_pairs_len(s: Seq<char>, k: nat)
    ensures
        hex_pairs(s, k) matches Some(b) ==> b.len() == k,
    decreases k,
{
    if k > 0 {
        lemma_hex_pairs_len(s, (k - 1) as nat);
    }
}

/// The value of a hexadecimal digit, upper or lower case.
fn hex_value(c: char) -> (r: Option<u8>)
    ensures
        r == digit_value(c),
        r matches Some(v) ==> v < 16,
{
    if '0' <= c && c <= '9' {
        Some((c as u32 - '0' as u32) as u8)
    } else if 'a' <= c && c <= 'f' {
        Some((c as u32 - 'a' as u32 + 10) as u8)
    } else if 'A' <= c && c <= 'F' {
        Some((c as u32 - 'A' as u32 + 10) as u8)
    } else {
        None
    }
}

/// UTF-8 length of a character.
fn utf8_width(c: char) -> (w: usize)
    ensures
        w == char_width(c),
        1 <= w <= 4,
{
    let v = c as u32;
    if v < 0x80 {
        1
    } else if v < 0x800 {
        2
    } else if v < 0x10000 {
        3
    } else {
        4
    }
}

/// The id written as 40 hexadecimal digits in `cs[from..to]`; each pair is read as a
/// base-16 byte (a leading `+` is allowed, as in `u8::from_str_radix`).
fn hex_to_oid(cs: &[char], from: usize, to: usize) -> (r: Result<Oid, GitError>)
    requires
        from <= to <= cs@.len(),
    ensures
        r matches Err(e) ==> (e matches GitError::InvalidData(m) && commit_error(m@)),
        match (r, oid_from_hex(cs@.subrange(from as int, to as int))) {
            (Ok(o), Ok(b)) => o.bytes() == b,
            (Err(GitError::InvalidData(m)), Err(sm)) => m@ == sm,
            _ => false,
        },
{
    let ghost s = cs@.subrange(from as int, to as int);
    let mut width: usize = 0;
    let mut i = from;
    proof {
        assert(s.subrange(0, 0).len() == 0);
    }
    while i < to
        invariant
            from <= i <= to <= cs@.len(),
            s == cs@.subrange(from as int, to as int),
            width == utf8_len(s.subrange(0, i - from)),
            width <= 40,
        decreases to - i,
    {
        proof {
            assert(s.subrange(0, i - from + 1).drop_last() =~= s.subrange(0, i - from));
            assert(s[i - from] == cs@[i as int]);
        }
        width = width + utf8_width(cs[i]);
        if width > 40 {
            proof {
                lemma_utf8_len_prefix(s, i - from + 1);
            }
            return Err(invalid("Invalid OID hex length"));
        }
        i = i + 1;
    }
    proof {
        assert(s.subrange(0, to - from) =~= s);
    }
    if width != 40 {
        return Err(invalid("Invalid OID hex length"));
    }
    if to - from != 40 {
        return Err(invalid("Invalid hex character in OID"));
    }
    let mut bytes = [0u8; 20];
    let mut k: usize = 0;
    while k < 20
        invariant
            k <= 20,
            bytes@.len() == 20,
            to - from == 40,
            from <= to <= cs@.len(),
            s == cs@.subrange(from as int, to as int),
            utf8_len(s) == 40,
            hex_pairs(s, k as nat) == Some(bytes@.subrange(0, k as int)),
        decreases 20 - k,
    {
        let a = cs[from + 2 * k];
        let b = cs[from + 2 * k + 1];
        proof {
            assert(s[2 * k as int] == a && s[2 * k + 1] == b);
        }
        let v = if a == '+' {
            match hex_value(b) {
                Some(y) => y,
                None => {
                    proof {
                        lemma_hex_pairs_none(s, (k + 1) as nat, 20);
                    }
                    return Err(invalid("Invalid hex character in OID"));
                },
            }
        } else {
            match (hex_value(a), hex_value(b)) {
                (Some(x), Some(y)) => x * 16 + y,
                _ => {
                    proof {
                        lemma_hex_pairs_none(s, (k + 1) as nat, 20);
                    }
                    return Err(invalid("Invalid hex character in OID"));
                },
            }
        };
        assert(pair_byte(a, b) == Some(v));
        let ghost before = bytes@;
        bytes[k] = v;
        proof {
            assert(bytes@.subrange(0, k + 1) =~= before.subrange(0, k as int).push(v));
        }
        k = k + 1;
    }
    proof {
        assert(bytes@.subrange(0, 20) =~= bytes@);
    }
    Ok(Oid(bytes))
}

proof fn lemma_hex_pairs_none(s: Seq<char>, k: nat, n: nat)
    requires
        k <= n,
        hex_pairs(s, k) is None,
    ensures
        hex_pairs(s, n) is None,
    decreases n - k,
{
    if k < n {
        lemma_hex_pairs_none(s, k, (n - 1) as nat);
    }
}

/// Whether `cs[pos..end]` starts with `p`.
fn starts_with(cs: &[char], pos: usize, end: usize, p: &str) -> (b: bool)
    requires
        pos <= end <= cs@.len(),
    ensures
        b == (pos + p@.len() <= end && cs@.subrange(pos as int, pos + p@.len()) == p@),
{
    let n = p.unicode_len();
    if end - pos < n {
        return false;
    }
    let mut i: usize = 0;
    while i < n
        invariant
            n == p@.len(),
            pos + n <= end <= cs@.len(),
            i <= n,
            forall|j: int| 0 <= j < i ==> cs@[pos + j] == p@[j],
        decreases n - i,
    {
        if cs[pos + i] != p.get_char(i) {
            assert(cs@.subrange(pos as int, pos + n)[i as int] != p@[i as int]);
            return false;
        }
        i = i + 1;
    }
    assert(cs@.subrange(pos as int, pos + n) =~= p@);
    true
}

/// The index of the first line break at or after `pos`, or the length.
pub open spec fn line_break(cs: Seq<char>, pos: int) -> int
    decreases cs.len() - pos,
{
    if pos < 0 || pos >= cs.len() {
        cs.len() as int
    } else if cs[pos] == '\n' {
        pos
    } else {
        line_break(cs, pos + 1)
    }
}

pub proof fn lemma_line_break(cs: Seq<char>, pos: int)
    requires
        0 <= pos <= cs.len(),
    ensures
        pos <= line_break(cs, pos) <= cs.len(),
    decreases cs.len() - pos,
{
    if pos < cs.len() && cs[pos] != '\n' {
        lemma_line_break(cs, pos + 1);
    }
}

pub proof fn lemma_line_break_at(cs: Seq<char>, pos: int, e: int)
    requires
        0 <= pos <= e <= cs.len(),
        forall|j: int| pos <= j < e ==> cs[j] != '\n',
        e == cs.len() || cs[e] == '\n',
    ensures
        line_break(cs, pos) == e,
    decreases e - pos,
{
    if pos < e {
        lemma_line_break_at(cs, pos + 1, e);
    }
}

/// Whether `line` begins with `p`.
pub open spec fn has_prefix(line: Seq<char>, p: Seq<char>) -> bool {
    p.len() <= line.len() && line.subrange(0, p.len() as int) == p
}

/// What a commit's header lines have given so far: the tree, the parents, the author and the
/// committer.
pub type CommitHeaders = (Option<Seq<u8>>, Seq<Seq<u8>>, Seq<char>, Seq<char>);

/// The headers after reading one header line: `tree `, `parent `, `author ` and `committer `
/// lines set their field (the last `tree` wins, `parent`s add up), other lines are ignored.
pub open spec fn header_step(acc: CommitHeaders, line: Seq<char>) -> Result<CommitHeaders, Seq<char>> {
    if has_prefix(line, "tree "@) {
        match oid_from_hex(line.subrange(5, line.len() as int)) {
            Ok(b) => Ok((Some(b), acc.1, acc.2, acc.3)),
            Err(m) => Err(m),
        }
    } else if has_prefix(line, "parent "@) {
        match oid_from_hex(line.subrange(7, line.len() as int)) {
            Ok(b) => Ok((acc.0, acc.1.push(b), acc.2, acc.3)),
            Err(m) => Err(m),
        }
    } else if has_prefix(line, "author "@) {
        Ok((acc.0, acc.1, line.subrange(7, line.len() as int), acc.3))
    } else if has_prefix(line, "committer "@) {
        Ok((acc.0, acc.1, acc.2, line.subrange(10, line.len() as int)))
    } else {
        Ok(acc)
    }
}

/// The headers read from the line starting at `pos` on, up to the first empty line. Lines
/// end at a line feed, or a carriage return and a line feed.
pub open spec fn commit_headers(cs: Seq<char>, pos: int, acc: CommitHeaders) -> Result<CommitHeaders, Seq<char>>
    decreases cs.len() - pos,
{
    if pos < 0 || pos >= cs.len() {
        Ok(acc)
    } else {
        let e = line_break(cs, pos);
        let le = if e < cs.len() && e > pos && cs[e - 1] == '\r' {
            e - 1
        } else {
            e
        };
        if le <= pos {
            Ok(acc)
        } else {
            match header_step(acc, cs.subrange(pos, le)) {
                Err(m) => Err(m),
                Ok(a2) => {
                    proof {
                        lemma_line_break(cs, pos);
                    }
                    commit_headers(
                        cs,
                        if e < cs.len() {
                            e + 1
                        } else {
                            cs.len() as int
                        },
                        a2,
                    )
                },
            }
        }
    }
}

/// Where a commit's message starts: after the first blank line at or after `k`, or at the end.
pub open spec fn message_start(cs: Seq<char>, k: int) -> int
    decreases cs.len() - k,
{
    if k < 0 || k + 1 >= cs.len() {
        cs.len() as int
    } else if cs[k] == '\n' && cs[k + 1] == '\n' {
        k + 2
    } else {
        message_start(cs, k + 1)
    }
}

/// A commit read from its text: the tree, the parents, the author, the committer and the
/// message; or the error message.
pub open spec fn commit_spec(content: Seq<u8>) -> Result<(Seq<u8>, Seq<Seq<u8>>, Seq<char>, Seq<char>, Seq<char>), Seq<char>> {
    if !valid_utf8(content) {
        Err("Invalid UTF-8 in commit object"@)
    } else {
        let cs = decode_utf8(content);
        match commit_headers(cs, 0, (None, Seq::empty(), Seq::empty(), Seq::empty())) {
            Err(m) => Err(m),
            Ok(h) => match h.0 {
                None => Err("Commit missing tree"@),
                Some(t) => Ok((t, h.1, h.2, h.3, cs.subrange(message_start(cs, 0), cs.len() as int))),
            },
        }
    }
}

/// The ids of a list of ids, as bytes.
pub open spec fn oids_view(s: Seq<Oid>) -> Seq<Seq<u8>> {
    s.map_values(|o: Oid| o.bytes())
}

/// The headers read so far, as held by the parser.
pub open spec fn headers_view(tree: Option<Oid>, parents: Seq<Oid>, author: Seq<char>, committer: Seq<char>) -> CommitHeaders {
    (
        match tree {
            Some(o) => Some(o.bytes()),
            None => None,
        },
        oids_view(parents),
        author,
        committer,
    )
}

/// The fields of a commit's text: header lines up to the first empty line, then the message
/// after the first blank line.
#[verifier::rlimit(60)]
#[verifier::spinoff_prover]
fn parse_commit(content: &[u8]) -> (r: Result<CommitData, GitError>)
    ensures
        r matches Err(e) ==> (e matches GitError::InvalidData(m) && commit_error(m@)),
        match (r, commit_spec(content@)) {
            (Ok(c), Ok(v)) => c.tree.bytes() == v.0 && oids_view(c.parents@) == v.1 && c.author@ == v.2
                && c.committer@ == v.3 && c.message@ == v.4,
            (Err(GitError::InvalidData(m)), Err(sm)) => m@ == sm,
            _ => false,
        },
{
    let text = match str_from_utf8(content) {
        Some(t) => t,
        None => {
            return Err(invalid("Invalid UTF-8 in commit object"));
        },
    };
    proof {
        vstd::utf8::encode_utf8_decode_utf8(text@);
    }
    let cs = crate::text::chars_of(text);
    let n = cs.len();
    let ghost init: CommitHeaders = (None, Seq::empty(), Seq::empty(), Seq::empty());
    let mut tree: Option<Oid> = None;
    let mut parents: Vec<Oid> = Vec::new();
    let mut author = String::new();
    let mut committer = String::new();
    let mut pos: usize = 0;
    proof {
        assert(headers_view(tree, parents@, author@, committer@) =~= init);
    }
    while pos < n
        invariant
            n == cs@.len(),
            cs@ == decode_utf8(content@),
            valid_utf8(content@),
            init == (None::<Seq<u8>>, Seq::<Seq<u8>>::empty(), Seq::<char>::empty(), Seq::<char>::empty()),
            pos <= n,
            commit_headers(cs@, pos as int, headers_view(tree, parents@, author@, committer@)) == commit_headers(
                cs@,
                0,
                init,
            ),
        ensures
            commit_headers(cs@, 0, init) == Ok::<CommitHeaders, Seq<char>>(
                headers_view(tree, parents@, author@, committer@),
            ),
        decreases n - pos,
    {
        let mut e = pos;
        while e < n && cs[e] != '\n'
            invariant
                pos <= e <= n,
                n == cs@.len(),
                forall|j: int| pos <= j < e ==> cs@[j] != '\n',
            decreases n - e,
        {
            e = e + 1;
        }
        proof {
            lemma_line_break_at(cs@, pos as int, e as int);
        }
        let line_end = if e < n && e > pos && cs[e - 1] == '\r' {
            e - 1
        } else {
            e
        };
        if line_end == pos {
            break ;
        }
        let ghost line = cs@.subrange(pos as int, line_end as int);
        let ghost acc = headers_view(tree, parents@, author@, committer@);
        let slice = cs.as_slice();
        if starts_with(slice, pos, line_end, "tree ") {
            proof {
                reveal_strlit("tree ");
                assert(line.subrange(0, 5) =~= cs@.subrange(pos as int, pos + 5));
                assert(line.subrange(5, line.len() as int) =~= cs@.subrange(pos + 5, line_end as int));
            }
            match hex_to_oid(slice, pos + 5, line_end) {
                Ok(o) => {
                    tree = Some(o);
                },
                Err(err) => {
                    proof {
                        assert(header_step(acc, line) is Err);
                        assert(commit_headers(cs@, pos as int, acc) == header_step(acc, line));
                    }
                    return Err(err);
                },
            }
            proof {
                assert(header_step(acc, line) == Ok::<CommitHeaders, Seq<char>>(headers_view(tree, parents@, author@, committer@)));
            }
        } else if starts_with(slice, pos, line_end, "parent ") {
            proof {
                reveal_strlit("tree ");
                reveal_strlit("parent ");
                if has_prefix(line, "tree "@) {
                    assert(line.subrange(0, 5) =~= cs@.subrange(pos as int, pos + 5));
                }
                assert(line.subrange(0, 7) =~= cs@.subrange(pos as int, pos + 7));
                assert(line.subrange(7, line.len() as int) =~= cs@.subrange(pos + 7, line_end as int));
            }
            match hex_to_oid(slice, pos + 7, line_end) {
                Ok(o) => {
                    let ghost ps = parents@;
                    parents.push(o);
                    proof {
                        assert(oids_view(parents@) =~= oids_view(ps).push(o.bytes()));
                    }
                },
                Err(err) => {
                    proof {
                        assert(header_step(acc, line) is Err);
                        assert(commit_headers(cs@, pos as int, acc) == header_step(acc, line));
                    }
                    return Err(err);
                },
            }
            proof {
                assert(header_step(acc, line) == Ok::<CommitHeaders, Seq<char>>(headers_view(tree, parents@, author@, committer@)));
            }
        } else if starts_with(slice, pos, line_end, "author ") {
            proof {
                reveal_strlit("tree ");
                reveal_strlit("parent ");
                reveal_strlit("author ");
                if has_prefix(line, "tree "@) {
                    assert(line.subrange(0, 5) =~= cs@.subrange(pos as int, pos + 5));
                }
                if has_prefix(line, "parent "@) {
                    assert(line.subrange(0, 7) =~= cs@.subrange(pos as int, pos + 7));
                }
                assert(line.subrange(0, 7) =~= cs@.subrange(pos as int, pos + 7));
                assert(line.subrange(7, line.len() as int) =~= cs@.subrange(pos + 7, line_end as int));
            }
            author = string_of(&slice[pos + 7..line_end]);
            proof {
                assert(header_step(acc, line) == Ok::<CommitHeaders, Seq<char>>(headers_view(tree, parents@, author@, committer@)));
            }
        } else if starts_with(slice, pos, line_end, "committer ") {
            proof {
                reveal_strlit("tree ");
                reveal_strlit("parent ");
                reveal_strlit("author ");
                reveal_strlit("committer ");
                if has_prefix(line, "tree "@) {
                    assert(line.subrange(0, 5) =~= cs@.subrange(pos as int, pos + 5));
                }
                if has_prefix(line, "parent "@) {
                    assert(line.subrange(0, 7) =~= cs@.subrange(pos as int, pos + 7));
                }
                if has_prefix(line, "author "@) {
                    assert(line.subrange(0, 7) =~= cs@.subrange(pos as int, pos + 7));
                }
                assert(line.subrange(0, 10) =~= cs@.subrange(pos as int, pos + 10));
                assert(line.subrange(10, line.len() as int) =~= cs@.subrange(pos + 10, line_end as int));
            }
            committer = string_of(&slice[pos + 10..line_end]);
            proof {
                assert(header_step(acc, line) == Ok::<CommitHeaders, Seq<char>>(headers_view(tree, parents@, author@, committer@)));
            }
        } else {
            proof {
                reveal_strlit("tree ");
                reveal_strlit("parent ");
                reveal_strlit("author ");
                reveal_strlit("committer ");
                if has_prefix(line, "tree "@) {
                    assert(line.subrange(0, 5) =~= cs@.subrange(pos as int, pos + 5));
                }
                if has_prefix(line, "parent "@) {
                    assert(line.subrange(0, 7) =~= cs@.subrange(pos as int, pos + 7));
                }
                if has_prefix(line, "author "@) {
                    assert(line.subrange(0, 7) =~= cs@.subrange(pos as int, pos + 7));
                }
                if has_prefix(line, "committer "@) {
                    assert(line.subrange(0, 10) =~= cs@.subrange(pos as int, pos + 10));
                }
                assert(header_step(acc, line) == Ok::<CommitHeaders, Seq<char>>(acc));
            }
        }
        pos = if e < n {
            e + 1
        } else {
            n
        };
    }
    let mut msg_start = n;
    let mut k: usize = 0;
    while n > 0 && k < n - 1
        invariant_except_break
            message_start(cs@, k as int) == message_start(cs@, 0),
            msg_start == n,
        invariant
            n == cs@.len(),
            msg_start <= n,
            k <= n,
        ensures
            msg_start == message_start(cs@, 0),
        decreases n - k,
    {
        if cs[k] == '\n' && cs[k + 1] == '\n' {
            msg_start = k + 2;
            assert(message_start(cs@, k as int) == k + 2);
            break ;
        }
        k = k + 1;
    }
    let message = string_of(&cs.as_slice()[msg_start..n]);
    match tree {
        Some(t) => Ok(CommitData { tree: t, parents, author, committer, message }),
        None => Err(invalid("Commit missing tree")),
    }
}

proof fn lemma_oid_len(o: Oid)
    ensures
        o.bytes().len() == 20,
{
}

proof fn lemma_encode_concat(a: Seq<char>, b: Seq<char>)
    ensures
        encode_utf8(a + b) == encode_utf8(a) + encode_utf8(b),
    decreases a.len(),
{
    if a.len() == 0 {
        assert(a + b =~= b);
        assert(encode_utf8(a) + encode_utf8(b) =~= encode_utf8(b));
    } else {
        assert((a + b).drop_first() =~= a.drop_first() + b);
        assert((a + b)[0] == a[0]);
        lemma_encode_concat(a.drop_first(), b);
        assert(encode_utf8(a + b) =~= encode_utf8(a) + encode_utf8(b));
    }
}

proof fn lemma_char_index_at(s: Seq<char>, c: char, k: int)
    requires
        0 <= k < s.len(),
        s[k] == c,
        forall|j: int| 0 <= j < k ==> #[trigger] s[j] != c,
    ensures
        char_index(s, c) == k,
    decreases k,
{
    if k > 0 {
        let t = s.drop_first();
        assert forall|j: int| 0 <= j < k - 1 implies #[trigger] t[j] != c by {
            assert(t[j] == s[j + 1]);
        }
        assert(s[0] != c);
        lemma_char_index_at(t, c, k - 1);
    }
}

proof fn lemma_tree_bytes_front(es: Seq<TreeEntry>)
    requires
        es.len() > 0,
    ensures
        tree_bytes(es) == entry_bytes(es[0]) + tree_bytes(es.drop_first()),
    decreases es.len(),
{
    if es.len() == 1 {
        assert(es.drop_first().len() == 0);
        assert(es.drop_last().len() == 0);
        assert(tree_bytes(es.drop_last()) == Seq::<u8>::empty());
        assert(tree_bytes(es.drop_first()) == Seq::<u8>::empty());
        assert(es.last() == es[0]);
        assert(tree_bytes(es) =~= entry_bytes(es[0]));
        assert(entry_bytes(es[0]) + tree_bytes(es.drop_first()) =~= entry_bytes(es[0]));
    } else {
        lemma_tree_bytes_front(es.drop_last());
        assert(es.drop_last()[0] == es[0]);
        assert(es.drop_last().drop_first() =~= es.drop_first().drop_last());
        assert(es.drop_first().last() == es.last());
        assert(tree_bytes(es.drop_first()) == tree_bytes(es.drop_first().drop_last()) + entry_bytes(es.drop_first().last()));
        assert(tree_bytes(es) =~= entry_bytes(es[0]) + tree_bytes(es.drop_first()));
    }
}

/// An entry that reads back unchanged: its mode has no space, and neither its mode nor its
/// name encodes a zero byte.
pub open spec fn entry_plain(e: TreeEntry) -> bool {
    &&& !e.mode@.contains(' ')
    &&& !encode_utf8(e.mode@).contains(0u8)
    &&& !encode_utf8(e.name@).contains(0u8)
}

proof fn lemma_parse_entry(e: TreeEntry, rest: Seq<u8>)
    requires
        entry_plain(e),
    ensures
        parse_tree_spec(entry_bytes(e) + rest) == prepend(seq![entry_view(e)], parse_tree_spec(rest)),
{
    let m = encode_utf8(e.mode@);
    let n = encode_utf8(e.name@);
    let o = e.oid.bytes();
    lemma_oid_len(e.oid);
    let c = entry_bytes(e) + rest;
    let z: int = m.len() + 1int + n.len();
    assert(c[z] == 0u8);
    assert forall|j: int| 0 <= j < z implies #[trigger] c[j] != 0u8 by {
        if j < m.len() {
            assert(c[j] == m[j]);
            assert(!m.contains(0u8));
            if m[j] == 0u8 {
                assert(m.contains(0u8));
            }
        } else if j > m.len() {
            assert(c[j] == n[j - m.len() - 1]);
            if n[j - m.len() - 1] == 0u8 {
                assert(n.contains(0u8));
            }
        }
    }
    lemma_find_at(c, 0, z, 0u8);
    let pchars = e.mode@ + seq![' '] + e.name@;
    lemma_encode_concat(e.mode@ + seq![' '], e.name@);
    lemma_encode_concat(e.mode@, seq![' ']);
    vstd::utf8::is_ascii_chars_encode_utf8(seq![' ']);
    assert(encode_utf8(seq![' ']) =~= seq![32u8]);
    assert(c.subrange(0, z) =~= encode_utf8(pchars));
    let pc = decode_utf8(c.subrange(0, z));
    assert(pc == pchars);
    assert forall|j: int| 0 <= j < e.mode@.len() implies #[trigger] pc[j] != ' ' by {
        assert(pc[j] == e.mode@[j]);
        if e.mode@[j] == ' ' {
            assert(e.mode@.contains(' '));
        }
    }
    lemma_char_index_at(pc, ' ', e.mode@.len() as int);
    assert(pc.subrange(0, e.mode@.len() as int) =~= e.mode@);
    assert(pc.subrange(e.mode@.len() + 1int, pc.len() as int) =~= e.name@);
    assert(c.subrange(z + 1, z + 21) =~= o);
    assert(c.subrange(z + 21, c.len() as int) =~= rest);
}

/// Reading back the content of a tree gives its entries, provided each entry is plain.
pub proof fn lemma_tree_round_trip(es: Seq<TreeEntry>)
    requires
        forall|i: int| 0 <= i < es.len() ==> entry_plain(#[trigger] es[i]),
    ensures
        parse_tree_spec(tree_bytes(es)) == Ok::<_, Seq<char>>(entries_view(es)),
    decreases es.len(),
{
    if es.len() == 0 {
        assert(entries_view(es) =~= Seq::<(Seq<char>, Seq<char>, Seq<u8>)>::empty());
    } else {
        let t = es.drop_first();
        assert forall|i: int| 0 <= i < t.len() implies entry_plain(#[trigger] t[i]) by {
            assert(t[i] == es[i + 1]);
        }
        lemma_tree_round_trip(t);
        lemma_tree_bytes_front(es);
        lemma_parse_entry(es[0], tree_bytes(t));
        assert(seq![entry_view(es[0])] + entries_view(t) =~= entries_view(es));
    }
}

proof fn lemma_hex_digit(n: int)
    requires
        0 <= n < 16,
    ensures
        digit_value(hex_digit(n)) == Some(n as u8),
        (hex_digit(n) as u32) < 0x80,
        hex_digit(n) != '\n',
        hex_digit(n) != '\r',
        hex_digit(n) != '+',
{
}

proof fn lemma_hex_pairs_prefix(s: Seq<char>, t: Seq<char>, k: nat)
    requires
        2 * (k as int) <= s.len(),
        2 * (k as int) <= t.len(),
        s.subrange(0, 2 * (k as int)) == t.subrange(0, 2 * (k as int)),
    ensures
        hex_pairs(s, k) == hex_pairs(t, k),
    decreases k,
{
    if k > 0 {
        assert(s.subrange(0, 2 * (k as int - 1)) =~= s.subrange(0, 2 * (k as int)).subrange(0, 2 * (k as int - 1)));
        assert(t.subrange(0, 2 * (k as int - 1)) =~= t.subrange(0, 2 * (k as int)).subrange(0, 2 * (k as int - 1)));
        lemma_hex_pairs_prefix(s, t, (k - 1) as nat);
        assert(s[2 * (k as int - 1)] == s.subrange(0, 2 * (k as int))[2 * (k as int - 1)]);
        assert(t[2 * (k as int - 1)] == t.subrange(0, 2 * (k as int))[2 * (k as int - 1)]);
        assert(s[2 * (k as int - 1) + 1] == s.subrange(0, 2 * (k as int))[2 * (k as int - 1) + 1]);
        assert(t[2 * (k as int - 1) + 1] == t.subrange(0, 2 * (k as int))[2 * (k as int - 1) + 1]);
    }
}

/// The hexadecimal text of bytes reads back as those bytes.
proof fn lemma_hex_of(b: Seq<u8>)
    ensures
        hex_of(b).len() == 2 * b.len(),
        utf8_len(hex_of(b)) == 2 * b.len(),
        hex_pairs(hex_of(b), b.len()) == Some(b),
        forall|i: int| 0 <= i < hex_of(b).len() ==> #[trigger] hex_of(b)[i] != '\n' && hex_of(b)[i] != '\r',
    decreases b.len(),
{
    if b.len() > 0 {
        let p = b.drop_last();
        let v = b.last();
        lemma_hex_of(p);
        lemma_hex_digit(v as int / 16);
        lemma_hex_digit(v as int % 16);
        let hp = hex_of(p);
        let x = hex_digit(v as int / 16);
        let y = hex_digit(v as int % 16);
        let h = hex_of(b);
        assert(h == hp + seq![x, y]);
        assert(h.drop_last() =~= hp.push(x));
        assert(h.drop_last().drop_last() =~= hp);
        assert(h.last() == y && h.drop_last().last() == x);
        assert(char_width(x) == 1 && char_width(y) == 1);
        assert(utf8_len(h.drop_last()) == utf8_len(hp) + 1);
        assert(utf8_len(h) == utf8_len(hp) + 2);
        assert(h.subrange(0, 2 * (p.len() as int)) =~= hp.subrange(0, 2 * (p.len() as int)));
        assert(hp.subrange(0, 2 * (p.len() as int)) =~= hp);
        lemma_hex_pairs_prefix(h, hp, p.len());
        assert(h[2 * (p.len() as int)] == x && h[2 * (p.len() as int) + 1] == y);
        assert(pair_byte(x, y) == Some(v)) by {
            assert((v as int / 16) * 16 + v as int % 16 == v as int);
        }
        assert(p.push(v) =~= b);
        assert forall|i: int| 0 <= i < h.len() implies #[trigger] h[i] != '\n' && h[i] != '\r' by {
            if i < hp.len() {
                assert(h[i] == hp[i]);
            }
        }
    }
}

/// The hexadecimal text of an id reads back as the id.
proof fn lemma_oid_hex(o: Oid)
    ensures
        oid_from_hex(hex_of(o.bytes())) == Ok::<Seq<u8>, Seq<char>>(o.bytes()),
        hex_of(o.bytes()).len() == 40,
        forall|i: int| 0 <= i < 40 ==> #[trigger] hex_of(o.bytes())[i] != '\n' && hex_of(o.bytes())[i] != '\r',
{
    lemma_oid_len(o);
    lemma_hex_of(o.bytes());
}

proof fn lemma_header_line(cs: Seq<char>, pos: int, len: int, acc: CommitHeaders)
    requires
        0 <= pos,
        0 < len,
        pos + len < cs.len(),
        cs[pos + len] == '\n',
        forall|j: int| pos <= j < pos + len ==> cs[j] != '\n',
        cs[pos + len - 1] != '\r',
    ensures
        commit_headers(cs, pos, acc) == match header_step(acc, cs.subrange(pos, pos + len)) {
            Err(m) => Err(m),
            Ok(a2) => commit_headers(cs, pos + len + 1, a2),
        },
{
    lemma_line_break_at(cs, pos, pos + len);
}

proof fn lemma_blank_line(cs: Seq<char>, pos: int, acc: CommitHeaders)
    requires
        0 <= pos < cs.len(),
        cs[pos] == '\n',
    ensures
        commit_headers(cs, pos, acc) == Ok::<CommitHeaders, Seq<char>>(acc),
{
    lemma_line_break_at(cs, pos, pos);
}

/// One parent line: `parent `, the id in hexadecimal, a line feed.
pub open spec fn parent_line(o: Oid) -> Seq<char> {
    seq!['p', 'a', 'r', 'e', 'n', 't', ' '] + hex_of(o.bytes()) + seq!['\n']
}

proof fn lemma_parent_lines(ps: Seq<Oid>, k: int)
    requires
        0 <= k <= ps.len(),
    ensures
        parent_lines(ps).len() == 48 * ps.len(),
        parent_lines(ps).subrange(0, 48 * k) == parent_lines(ps.take(k)),
        k < ps.len() ==> parent_lines(ps.take(k + 1)) == parent_lines(ps.take(k)) + parent_line(ps[k]),
    decreases ps.len(),
{
    if ps.len() > 0 {
        let d = ps.drop_last();
        lemma_oid_hex(ps.last());
        if k < ps.len() {
            lemma_parent_lines(d, k);
            assert(d.take(k) =~= ps.take(k));
            assert(parent_lines(ps) =~= parent_lines(d) + parent_line(ps.last()));
            assert(parent_lines(ps).subrange(0, 48 * k) =~= parent_lines(d).subrange(0, 48 * k));
            assert(ps.take(k + 1).drop_last() =~= ps.take(k));
            assert(ps.take(k + 1).last() == ps[k]);
            assert(parent_lines(ps.take(k + 1)) =~= parent_lines(ps.take(k)) + parent_line(ps[k]));
        } else {
            lemma_parent_lines(d, 0);
            assert(ps.take(k) =~= ps);
            assert(parent_lines(ps) =~= parent_lines(d) + parent_line(ps.last()));
            assert(parent_lines(ps).subrange(0, 48 * k) =~= parent_lines(ps));
        }
    } else {
        assert(ps.take(k) =~= ps);
    }
}

proof fn lemma_parents_chain(t: Seq<char>, base: int, ps: Seq<Oid>, k: int, tb: Seq<u8>)
    requires
        0 <= base,
        0 <= k <= ps.len(),
        base + 48 * ps.len() < t.len(),
        t.subrange(base, base + 48 * ps.len()) == parent_lines(ps),
    ensures
        commit_headers(t, base + 48 * k, (Some(tb), oids_view(ps.take(k)), Seq::empty(), Seq::empty()))
            == commit_headers(t, base + 48 * ps.len(), (Some(tb), oids_view(ps), Seq::empty(), Seq::empty())),
    decreases ps.len() - k,
{
    lemma_parent_lines(ps, k);
    if k == ps.len() {
        assert(ps.take(k) =~= ps);
    } else {
        lemma_parent_lines(ps, k + 1);
        let o = ps[k];
        lemma_oid_hex(o);
        let pl = parent_line(o);
        let at = base + 48 * k;
        assert(parent_lines(ps.take(k + 1)) == parent_lines(ps).subrange(0, 48 * (k + 1)));
        assert(pl =~= parent_lines(ps).subrange(48 * k, 48 * k + 48)) by {
            assert(parent_lines(ps.take(k + 1)).subrange(48 * k, 48 * k + 48) =~= pl);
        }
        assert(t.subrange(at, at + 48) =~= pl) by {
            assert forall|j: int| 0 <= j < 48 implies t[at + j] == pl[j] by {
                assert(t.subrange(base, base + 48 * ps.len())[48 * k + j] == t[at + j]);
            }
        }
        assert forall|j: int| at <= j < at + 47 implies t[j] != '\n' by {
            assert(t[j] == pl[j - at]);
            if j - at >= 7 {
                assert(pl[j - at] == hex_of(o.bytes())[j - at - 7]);
            }
        }
        assert(t[at + 47] == '\n') by {
            assert(t[at + 47] == pl[47]);
        }
        assert(t[at + 46] != '\r') by {
            assert(t[at + 46] == pl[46]);
            assert(pl[46] == hex_of(o.bytes())[39]);
        }
        let line = t.subrange(at, at + 47);
        lemma_header_line(t, at, 47, (Some(tb), oids_view(ps.take(k)), Seq::empty(), Seq::empty()));
        reveal_strlit("tree ");
        reveal_strlit("parent ");
        assert(line[0] == 'p');
        assert(!has_prefix(line, "tree "@)) by {
            assert(line.subrange(0, 5)[0] != "tree "@[0]);
        }
        assert(line.subrange(0, 7) =~= "parent "@);
        assert(line.subrange(7, 47) =~= hex_of(o.bytes()));
        assert(oids_view(ps.take(k + 1)) =~= oids_view(ps.take(k)).push(o.bytes()));
        lemma_parents_chain(t, base, ps, k + 1, tb);
    }
}

/// Text with no two line feeds in a row.
pub open spec fn no_blank(s: Seq<char>) -> bool {
    forall|j: int| 0 <= j < s.len() - 1 ==> !(#[trigger] s[j] == '\n' && s[j + 1] == '\n')
}

proof fn lemma_no_blank_concat(a: Seq<char>, b: Seq<char>)
    requires
        no_blank(a),
        no_blank(b),
        a.len() > 0 && b.len() > 0 ==> !(a.last() == '\n' && b[0] == '\n'),
    ensures
        no_blank(a + b),
{
    let ab = a + b;
    assert forall|j: int| 0 <= j < ab.len() - 1 implies !(#[trigger] ab[j] == '\n' && ab[j + 1] == '\n') by {
        if j < a.len() - 1 {
            assert(ab[j] == a[j] && ab[j + 1] == a[j + 1]);
        } else if j == a.len() - 1 {
            assert(ab[j] == a.last() && ab[j + 1] == b[0]);
        } else {
            assert(ab[j] == b[j - a.len()] && ab[j + 1] == b[j + 1 - a.len()]);
        }
    }
}

proof fn lemma_no_blank_parents(ps: Seq<Oid>)
    ensures
        no_blank(parent_lines(ps)),
        ps.len() > 0 ==> parent_lines(ps)[0] == 'p' && parent_lines(ps).last() == '\n',
    decreases ps.len(),
{
    if ps.len() > 0 {
        let d = ps.drop_last();
        lemma_no_blank_parents(d);
        let pl = parent_line(ps.last());
        lemma_oid_hex(ps.last());
        assert forall|j: int| 0 <= j < pl.len() - 1 implies !(#[trigger] pl[j] == '\n' && pl[j + 1] == '\n') by {
            if j >= 7 {
                assert(pl[j] == hex_of(ps.last().bytes())[j - 7]);
            }
        }
        lemma_no_blank_concat(parent_lines(d), pl);
        assert(parent_lines(ps) == parent_lines(d) + pl);
        if d.len() == 0 {
            assert(parent_lines(d).len() == 0);
            assert(parent_lines(ps) =~= pl);
        }
    }
}

proof fn lemma_message_start_skip(t: Seq<char>, k: int, kk: int)
    requires
        0 <= k <= kk,
        kk + 1 < t.len(),
        forall|j: int| k <= j < kk ==> !(#[trigger] t[j] == '\n' && t[j + 1] == '\n'),
    ensures
        message_start(t, k) == message_start(t, kk),
    decreases kk - k,
{
    if k < kk {
        lemma_message_start_skip(t, k + 1, kk);
    }
}

proof fn lemma_commit_message(c: CommitData)
    requires
        forall|i: int| 0 <= i < c.author@.len() ==> #[trigger] c.author@[i] != '\n' && c.author@[i] != '\r',
        forall|i: int| 0 <= i < c.committer@.len() ==> #[trigger] c.committer@[i] != '\n' && c.committer@[i] != '\r',
    ensures
        message_start(commit_chars(c), 0) == 46 + 48 * c.parents@.len() + 8 + c.author@.len() + 10 + c.committer@.len() + 2,
        commit_chars(c).subrange(
            46 + 48 * c.parents@.len() + 8 + c.author@.len() + 10 + c.committer@.len() + 2 as int,
            commit_chars(c).len() as int,
        ) == c.message@,
{
    let t = commit_chars(c);
    vstd::utf8::encode_utf8_valid_utf8(t);
    vstd::utf8::encode_utf8_decode_utf8(t);
    reveal_strlit("tree ");
    reveal_strlit("parent ");
    reveal_strlit("author ");
    reveal_strlit("committer ");
    let h = hex_of(c.tree.bytes());
    lemma_oid_hex(c.tree);
    let ps = c.parents@;
    let n = ps.len() as int;
    lemma_parent_lines(ps, 0);
    let p = parent_lines(ps);
    let a = c.author@;
    let cm = c.committer@;
    let s0 = seq!['t', 'r', 'e', 'e', ' '] + h + seq!['\n'];
    let s2 = seq!['a', 'u', 't', 'h', 'o', 'r', ' '] + a + seq!['\n'];
    let s3 = seq!['c', 'o', 'm', 'm', 'i', 't', 't', 'e', 'r', ' '] + cm + seq!['\n'];
    let x = s0 + p + s2 + s3;
    assert(t =~= x + seq!['\n'] + c.message@);
    let a0: int = 46 + 48 * n;
    let c0: int = a0 + 8 + a.len();
    let kk: int = c0 + 10 + cm.len();
    assert(x.len() == kk + 1);
    // The message follows the first blank line.
    lemma_no_blank_parents(ps);
    assert(no_blank(s0)) by {
        assert forall|j: int| 0 <= j < s0.len() - 1 implies !(#[trigger] s0[j] == '\n' && s0[j + 1] == '\n') by {
            if j >= 5 {
                assert(s0[j] == h[j - 5]);
            }
        }
    }
    assert(no_blank(s2)) by {
        assert forall|j: int| 0 <= j < s2.len() - 1 implies !(#[trigger] s2[j] == '\n' && s2[j + 1] == '\n') by {
            if j >= 7 {
                assert(s2[j] == a[j - 7]);
            }
        }
    }
    assert(no_blank(s3)) by {
        assert forall|j: int| 0 <= j < s3.len() - 1 implies !(#[trigger] s3[j] == '\n' && s3[j + 1] == '\n') by {
            if j >= 10 {
                assert(s3[j] == cm[j - 10]);
            }
        }
    }
    lemma_no_blank_concat(s0, p);
    if n > 0 {
        assert((s0 + p).last() == '\n');
    } else {
        assert(s0 + p =~= s0);
    }
    lemma_no_blank_concat(s0 + p, s2);
    lemma_no_blank_concat(s0 + p + s2, s3);
    assert forall|j: int| 0 <= j < kk implies !(#[trigger] t[j] == '\n' && t[j + 1] == '\n') by {
        assert(t[j] == x[j] && t[j + 1] == x[j + 1]);
    }
    lemma_message_start_skip(t, 0, kk);
    assert(t[kk] == '\n');
    assert(message_start(t, kk) == kk + 2);
    assert(t.subrange(kk + 2, t.len() as int) =~= c.message@);
}

proof fn lemma_commit_layout(c: CommitData)
    ensures
        ({
            let t = commit_chars(c);
            let a0: int = 46 + 48 * c.parents@.len() as int;
            let c0: int = a0 + 8 + c.author@.len();
            let kk: int = c0 + 10 + c.committer@.len();
            &&& t.subrange(0, 45) == seq!['t', 'r', 'e', 'e', ' '] + hex_of(c.tree.bytes())
            &&& t[45] == '\n'
            &&& t.subrange(46, a0) == parent_lines(c.parents@)
            &&& t.subrange(a0, a0 + 7 + c.author@.len() as int) == seq!['a', 'u', 't', 'h', 'o', 'r', ' '] + c.author@
            &&& t[a0 + 7 + c.author@.len() as int] == '\n'
            &&& t.subrange(c0, kk) == seq!['c', 'o', 'm', 'm', 'i', 't', 't', 'e', 'r', ' '] + c.committer@
            &&& t[kk] == '\n'
            &&& t[kk + 1] == '\n'
            &&& kk + 1 < t.len()
        }),
{
    let t = commit_chars(c);
    let h = hex_of(c.tree.bytes());
    lemma_oid_hex(c.tree);
    lemma_parent_lines(c.parents@, 0);
    let p = parent_lines(c.parents@);
    let a = c.author@;
    let cm = c.committer@;
    let s0 = seq!['t', 'r', 'e', 'e', ' '] + h + seq!['\n'];
    let s2 = seq!['a', 'u', 't', 'h', 'o', 'r', ' '] + a + seq!['\n'];
    let s3 = seq!['c', 'o', 'm', 'm', 'i', 't', 't', 'e', 'r', ' '] + cm + seq!['\n', '\n'];
    assert(t =~= s0 + p + s2 + s3 + c.message@);
    let a0: int = 46 + 48 * c.parents@.len() as int;
    let c0: int = a0 + 8 + a.len();
    let kk: int = c0 + 10 + cm.len();
    assert(t.subrange(0, 45) =~= seq!['t', 'r', 'e', 'e', ' '] + h);
    assert(t.subrange(46, a0) =~= p);
    assert(t.subrange(a0, a0 + 7 + a.len() as int) =~= seq!['a', 'u', 't', 'h', 'o', 'r', ' '] + a);
    assert(t.subrange(c0, kk) =~= seq!['c', 'o', 'm', 'm', 'i', 't', 't', 'e', 'r', ' '] + cm);
}

proof fn lemma_named_line(t: Seq<char>, at: int, name: Seq<char>, v: Seq<char>, acc: CommitHeaders)
    requires
        0 <= at,
        name.len() > 0,
        at + name.len() + v.len() < t.len(),
        t.subrange(at, at + name.len() + v.len()) == name + v,
        t[at + name.len() + v.len()] == '\n',
        forall|i: int| 0 <= i < name.len() ==> #[trigger] name[i] != '\n' && name[i] != '\r',
        forall|i: int| 0 <= i < v.len() ==> #[trigger] v[i] != '\n' && v[i] != '\r',
    ensures
        commit_headers(t, at, acc) == match header_step(acc, name + v) {
            Err(m) => Err(m),
            Ok(a2) => commit_headers(t, at + name.len() + v.len() + 1, a2),
        },
{
    let len: int = name.len() + v.len() as int;
    assert forall|j: int| at <= j < at + len implies t[j] != '\n' by {
        assert(t[j] == (name + v)[j - at]);
        if j - at >= name.len() {
            assert((name + v)[j - at] == v[j - at - name.len()]);
        }
    }
    assert(t[at + len - 1] == (name + v)[len - 1]);
    if v.len() > 0 {
        assert((name + v)[len - 1] == v[v.len() - 1]);
    }
    lemma_header_line(t, at, len, acc);
}

proof fn lemma_tree_step(c: CommitData)
    ensures
        commit_headers(commit_chars(c), 0, (None, Seq::empty(), Seq::empty(), Seq::empty())) == commit_headers(
            commit_chars(c),
            46,
            (Some(c.tree.bytes()), Seq::empty(), Seq::empty(), Seq::empty()),
        ),
{
    let t = commit_chars(c);
    lemma_commit_layout(c);
    reveal_strlit("tree ");
    let h = hex_of(c.tree.bytes());
    lemma_oid_hex(c.tree);
    let tname = seq!['t', 'r', 'e', 'e', ' '];
    let init: CommitHeaders = (None, Seq::empty(), Seq::empty(), Seq::empty());
    assert forall|i: int| 0 <= i < tname.len() implies #[trigger] tname[i] != '\n' && tname[i] != '\r' by {}
    lemma_named_line(t, 0, tname, h, init);
    assert((tname + h).subrange(0, 5) =~= "tree "@);
    assert((tname + h).subrange(5, 45) =~= h);
}

proof fn lemma_author_committer_steps(c: CommitData)
    requires
        forall|i: int| 0 <= i < c.author@.len() ==> #[trigger] c.author@[i] != '\n' && c.author@[i] != '\r',
        forall|i: int| 0 <= i < c.committer@.len() ==> #[trigger] c.committer@[i] != '\n' && c.committer@[i] != '\r',
    ensures
        commit_headers(
            commit_chars(c),
            46 + 48 * c.parents@.len() as int,
            (Some(c.tree.bytes()), oids_view(c.parents@), Seq::empty(), Seq::empty()),
        ) == Ok::<CommitHeaders, Seq<char>>((Some(c.tree.bytes()), oids_view(c.parents@), c.author@, c.committer@)),
{
    let t = commit_chars(c);
    lemma_commit_layout(c);
    reveal_strlit("tree ");
    reveal_strlit("parent ");
    reveal_strlit("author ");
    reveal_strlit("committer ");
    let ps = c.parents@;
    let a = c.author@;
    let cm = c.committer@;
    let a0: int = 46 + 48 * ps.len() as int;
    let c0: int = a0 + 8 + a.len();
    let aname = seq!['a', 'u', 't', 'h', 'o', 'r', ' '];
    let cname = seq!['c', 'o', 'm', 'm', 'i', 't', 't', 'e', 'r', ' '];
    assert forall|i: int| 0 <= i < aname.len() implies #[trigger] aname[i] != '\n' && aname[i] != '\r' by {}
    assert forall|i: int| 0 <= i < cname.len() implies #[trigger] cname[i] != '\n' && cname[i] != '\r' by {}
    let acc_p: CommitHeaders = (Some(c.tree.bytes()), oids_view(ps), Seq::empty(), Seq::empty());
    lemma_named_line(t, a0, aname, a, acc_p);
    let aline = aname + a;
    assert(!has_prefix(aline, "tree "@)) by {
        assert(aline.subrange(0, 5)[0] != "tree "@[0]);
    }
    assert(!has_prefix(aline, "parent "@)) by {
        if aline.len() >= 7 {
            assert(aline.subrange(0, 7)[0] != "parent "@[0]);
        }
    }
    assert(aline.subrange(0, 7) =~= "author "@);
    assert(aline.subrange(7, aline.len() as int) =~= a);
    let acc_a: CommitHeaders = (Some(c.tree.bytes()), oids_view(ps), a, Seq::empty());
    lemma_named_line(t, c0, cname, cm, acc_a);
    let cline = cname + cm;
    assert(!has_prefix(cline, "tree "@)) by {
        assert(cline.subrange(0, 5)[0] != "tree "@[0]);
    }
    assert(!has_prefix(cline, "parent "@)) by {
        assert(cline.subrange(0, 7)[0] != "parent "@[0]);
    }
    assert(!has_prefix(cline, "author "@)) by {
        assert(cline.subrange(0, 7)[0] != "author "@[0]);
    }
    assert(cline.subrange(0, 10) =~= "committer "@);
    assert(cline.subrange(10, cline.len() as int) =~= cm);
    lemma_blank_line(t, c0 + 10 + cm.len() as int + 1, (Some(c.tree.bytes()), oids_view(ps), a, cm));
}

proof fn lemma_commit_headers(c: CommitData)
    requires
        forall|i: int| 0 <= i < c.author@.len() ==> #[trigger] c.author@[i] != '\n' && c.author@[i] != '\r',
        forall|i: int| 0 <= i < c.committer@.len() ==> #[trigger] c.committer@[i] != '\n' && c.committer@[i] != '\r',
    ensures
        commit_headers(commit_chars(c), 0, (None, Seq::empty(), Seq::empty(), Seq::empty())) == Ok::<
            CommitHeaders,
            Seq<char>,
        >((Some(c.tree.bytes()), oids_view(c.parents@), c.author@, c.committer@)),
{
    let t = commit_chars(c);
    let ps = c.parents@;
    lemma_commit_layout(c);
    lemma_parent_lines(ps, 0);
    lemma_tree_step(c);
    lemma_parents_chain(t, 46, ps, 0, c.tree.bytes());
    assert(ps.take(0) =~= Seq::<Oid>::empty());
    assert(oids_view(ps.take(0)) =~= Seq::<Seq<u8>>::empty());
    lemma_author_committer_steps(c);
}

/// A commit written as text reads back as the same commit, provided its author and
/// committer hold no line breaks.
pub proof fn lemma_commit_round_trip(c: CommitData)
    requires
        forall|i: int| 0 <= i < c.author@.len() ==> #[trigger] c.author@[i] != '\n' && c.author@[i] != '\r',
        forall|i: int| 0 <= i < c.committer@.len() ==> #[trigger] c.committer@[i] != '\n' && c.committer@[i] != '\r',
    ensures
        commit_spec(encode_utf8(commit_chars(c))) == Ok::<
            (Seq<u8>, Seq<Seq<u8>>, Seq<char>, Seq<char>, Seq<char>),
            Seq<char>,
        >((c.tree.bytes(), oids_view(c.parents@), c.author@, c.committer@, c.message@)),
{
    let t = commit_chars(c);
    vstd::utf8::encode_utf8_valid_utf8(t);
    vstd::utf8::encode_utf8_decode_utf8(t);
    lemma_commit_headers(c);
    lemma_commit_message(c);
}

} // verus!
