//! The index side of a full-text search engine: text split into lower-cased alphanumeric
//! terms without stop words, and the inverted index from each term to the documents holding
//! it, with per-document term counts. Relevance scoring is floating point and stays with the
//! caller, which reads the postings and document sizes from here.

use vstd::prelude::*;
use crate::cron::{is_ws, is_ws_exec};
use crate::text::{chars_of, str_eq, string_of};

verus! {

/// A document's identifier.
pub type DocId = u32;

/// A term's occurrence in a document: how many times it occurs there.
#[derive(Debug, Clone, PartialEq, Eq)]
pub struct Posting {
    pub doc_id: DocId,
    pub term_frequency: usize,
}

/// What is kept of a document for scoring.
#[derive(Debug, Clone)]
pub struct DocumentMeta {
    pub id: DocId,
    pub title: String,
    pub total_terms: usize,
}

/// Whether `char::is_alphanumeric` holds of a character.
pub uninterp spec fn alphanumeric(c: char) -> bool;

/// The characters `char::to_lowercase` gives for a character.
pub uninterp spec fn lowercase(c: char) -> Seq<char>;

/// `char::is_alphanumeric`: whether the character is alphabetic or numeric in Unicode.
#[verifier::external_body]
fn is_alphanumeric(c: char) -> (b: bool)
    ensures
        b == alphanumeric(c),
{
    c.is_alphanumeric()
}

/// `char::to_lowercase`: the character's Unicode lowercase mapping, one or more characters.
#[verifier::external_body]
fn to_lowercase(c: char) -> (l: Vec<char>)
    ensures
        l@ == lowercase(c),
{
    c.to_lowercase().collect()
}

/// The stop words, which are never indexed.
pub open spec fn stop_list() -> Seq<Seq<char>> {
    seq![
        "the"@, "a"@, "an"@, "and"@, "or"@, "but"@, "in"@, "on"@, "at"@, "to"@, "for"@, "with"@,
        "is"@, "are"@, "was"@, "were"@, "it"@, "this"@, "that"@, "of"@, "by"@, "as"@, "be"@,
    ]
}

/// Adds the term built so far to the terms, unless it is empty or a stop word.
pub open spec fn emit(terms: Seq<Seq<char>>, cur: Seq<char>) -> Seq<Seq<char>> {
    if cur.len() > 0 && !stop_list().contains(cur) {
        terms.push(cur)
    } else {
        terms
    }
}

/// Reading `text` character by character: the terms completed so far, and the term of the
/// word being read (its alphanumeric characters, lower-cased). Whitespace ends a word.
pub open spec fn scan_terms(text: Seq<char>) -> (Seq<Seq<char>>, Seq<char>)
    decreases text.len(),
{
    if text.len() == 0 {
        (Seq::empty(), Seq::empty())
    } else {
        let (terms, cur) = scan_terms(text.drop_last());
        let c = text.last();
        if is_ws(c) {
            (emit(terms, cur), Seq::empty())
        } else if alphanumeric(c) {
            (terms, cur + lowercase(c))
        } else {
            (terms, cur)
        }
    }
}

/// The terms of `text`: each whitespace-separated word, kept to its alphanumeric characters
/// and lower-cased, dropped when that leaves nothing or a stop word.
pub open spec fn terms_of(text: Seq<char>) -> Seq<Seq<char>> {
    emit(scan_terms(text).0, scan_terms(text).1)
}

/// A search index: the postings of each term, the documents indexed, and the stop words.
pub struct InvertedIndex {
    index: Vec<(String, Vec<Posting>)>,
    documents: Vec<DocumentMeta>,
    stop_words: Vec<String>,
}

impl InvertedIndex {
    /// An empty index with the default stop words.
    pub fn new() -> (ix: Self)
        ensures
            ix.wf(),
            ix.postings_map() == Map::<Seq<char>, Seq<Posting>>::empty(),
            ix.documents_map() == Map::<DocId, DocumentMeta>::empty(),
            index_invariant(ix.postings_map(), ix.documents_map()),
    {
        let words = vec![
            "the", "a", "an", "and", "or", "but", "in", "on", "at", "to", "for", "with", "is",
            "are", "was", "were", "it", "this", "that", "of", "by", "as", "be",
        ];
        let mut stop_words: Vec<String> = Vec::new();
        let mut i: usize = 0;
        while i < words.len()
            invariant
                i <= words@.len(),
                words@.len() == stop_list().len(),
                forall|j: int| 0 <= j < words@.len() ==> words@[j]@ == stop_list()[j],
                stop_words@.len() == i,
                forall|j: int| 0 <= j < i ==> stop_words@[j]@ == stop_list()[j],
            decreases words@.len() - i,
        {
            stop_words.push(String::from_str(words[i]));
            i = i + 1;
        }
        let ix = InvertedIndex { index: Vec::new(), documents: Vec::new(), stop_words };
        assert(ix.postings_map() =~= Map::<Seq<char>, Seq<Posting>>::empty());
        assert(ix.documents_map() =~= Map::<DocId, DocumentMeta>::empty());
        ix
    }

    /// Whether `t` is a stop word.
    fn is_stop_word(&self, t: &str) -> (b: bool)
        requires
            self.stop_words_ok(),
        ensures
            b == stop_list().contains(t@),
    {
        let mut i: usize = 0;
        while i < self.stop_words.len()
            invariant
                self.stop_words_ok(),
                i <= self.stop_words@.len(),
                forall|j: int| 0 <= j < i ==> stop_list()[j] != t@,
            decreases self.stop_words@.len() - i,
        {
            if str_eq(self.stop_words[i].as_str(), t) {
                assert(stop_list()[i as int] == t@);
                return true;
            }
            i = i + 1;
        }
        false
    }

    /// The terms of `text` (see `terms_of`).
    pub fn tokenize(&self, text: &str) -> (terms: Vec<String>)
        requires
            self.wf(),
        ensures
            terms@.map_values(|s: String| s@) == terms_of(text@),
    {
        let cs = chars_of(text);
        let mut terms: Vec<String> = Vec::new();
        let mut cur: Vec<char> = Vec::new();
        let mut i: usize = 0;
        while i < cs.len()
            invariant
                self.wf(),
                cs@ == text@,
                i <= cs@.len(),
                terms@.map_values(|s: String| s@) == scan_terms(cs@.subrange(0, i as int)).0,
                cur@ == scan_terms(cs@.subrange(0, i as int)).1,
            decreases cs@.len() - i,
        {
            let c = cs[i];
            proof {
                assert(cs@.subrange(0, i + 1).drop_last() =~= cs@.subrange(0, i as int));
            }
            if is_ws_exec(c) {
                self.emit_term(&mut terms, &cur);
                cur = Vec::new();
            } else if is_alphanumeric(c) {
                let low = to_lowercase(c);
                let mut k: usize = 0;
                let ghost before = cur@;
                while k < low.len()
                    invariant
                        k <= low@.len(),
                        cur@ == before + low@.subrange(0, k as int),
                    decreases low@.len() - k,
                {
                    cur.push(low[k]);
                    proof {
                        assert(low@.subrange(0, k + 1) =~= low@.subrange(0, k as int).push(low@[k as int]));
                    }
                    k = k + 1;
                }
                proof {
                    assert(low@.subrange(0, low@.len() as int) =~= low@);
                }
            }
            i = i + 1;
        }
        proof {
            assert(cs@.subrange(0, cs@.len() as int) =~= cs@);
        }
        self.emit_term(&mut terms, &cur);
        terms
    }

    fn emit_term(&self, terms: &mut Vec<String>, cur: &Vec<char>)
        requires
            self.wf(),
        ensures
            final(terms)@.map_values(|s: String| s@) == emit(old(terms)@.map_values(|s: String| s@), cur@),
    {
        if cur.len() > 0 {
            let t = string_of(cur.as_slice());
            if !self.is_stop_word(t.as_str()) {
                terms.push(t);
                proof {
                    assert(terms@.map_values(|s: String| s@) =~= old(terms)@.map_values(|s: String| s@).push(cur@));
                }
            }
        }
    }
}

/// The postings map an association list of terms stands for (a later entry wins, though the
/// index keeps its terms distinct).
pub open spec fn term_map(s: Seq<(String, Vec<Posting>)>) -> Map<Seq<char>, Seq<Posting>>
    decreases s.len(),
{
    if s.len() == 0 {
        Map::empty()
    } else {
        term_map(s.drop_last()).insert(s.last().0@, s.last().1@)
    }
}

/// The documents map a list of documents stands for (a later entry wins).
pub open spec fn doc_map(s: Seq<DocumentMeta>) -> Map<DocId, DocumentMeta>
    decreases s.len(),
{
    if s.len() == 0 {
        Map::empty()
    } else {
        doc_map(s.drop_last()).insert(s.last().id, s.last())
    }
}

pub open spec fn distinct_ids(s: Seq<DocumentMeta>) -> bool {
    forall|i: int, j: int| 0 <= i < j < s.len() ==> s[i].id != s[j].id
}

proof fn lemma_doc_map_len(s: Seq<DocumentMeta>)
    requires
        distinct_ids(s),
    ensures
        doc_map(s).dom().finite(),
        doc_map(s).len() == s.len(),
        forall|id: DocId| doc_map(s).contains_key(id) <==> exists|k: int| 0 <= k < s.len() && s[k].id == id,
    decreases s.len(),
{
    if s.len() > 0 {
        let d = s.drop_last();
        assert(distinct_ids(d)) by {
            assert forall|a: int, b: int| 0 <= a < b < d.len() implies d[a].id != d[b].id by {
                assert(d[a] == s[a] && d[b] == s[b]);
            }
        }
        lemma_doc_map_len(d);
        assert forall|id: DocId| doc_map(s).contains_key(id) <==> exists|k: int| 0 <= k < s.len() && s[k].id == id by {
            if exists|k: int| 0 <= k < d.len() && d[k].id == id {
                let k = choose|k: int| 0 <= k < d.len() && d[k].id == id;
                assert(s[k] == d[k]);
            }
            if exists|k: int| 0 <= k < s.len() && s[k].id == id {
                let k = choose|k: int| 0 <= k < s.len() && s[k].id == id;
                if k < s.len() - 1 {
                    assert(d[k] == s[k]);
                }
            }
        }
        if doc_map(d).contains_key(s.last().id) {
            let k = choose|k: int| 0 <= k < d.len() && d[k].id == s.last().id;
            assert(s[k] == d[k]);
            assert(s[k].id != s[s.len() - 1].id);
        }
    }
}

pub open spec fn distinct_terms(s: Seq<(String, Vec<Posting>)>) -> bool {
    forall|i: int, j: int| 0 <= i < j < s.len() ==> s[i].0@ != s[j].0@
}

/// The postings without those of document `doc`.
pub open spec fn without_doc(ps: Seq<Posting>, doc: DocId) -> Seq<Posting>
    decreases ps.len(),
{
    if ps.len() == 0 {
        ps
    } else if ps.last().doc_id == doc {
        without_doc(ps.drop_last(), doc)
    } else {
        without_doc(ps.drop_last(), doc).push(ps.last())
    }
}

/// How many times `t` occurs in `terms`.
pub open spec fn count_of(terms: Seq<Seq<char>>, t: Seq<char>) -> nat
    decreases terms.len(),
{
    if terms.len() == 0 {
        0
    } else {
        count_of(terms.drop_last(), t) + if terms.last() == t {
            1nat
        } else {
            0nat
        }
    }
}

/// The postings of term `t` once document `doc` is (re)indexed with `terms`: its old
/// postings other than `doc`'s, then `doc`'s count of `t` if `t` is among the terms.
pub open spec fn reindexed_postings(
    idx: Map<Seq<char>, Seq<Posting>>,
    doc: DocId,
    terms: Seq<Seq<char>>,
    t: Seq<char>,
) -> Seq<Posting> {
    (if idx.contains_key(t) {
        without_doc(idx[t], doc)
    } else {
        Seq::empty()
    }) + (if terms.contains(t) {
        seq![Posting { doc_id: doc, term_frequency: count_of(terms, t) as usize }]
    } else {
        Seq::empty()
    })
}

/// The postings map once document `doc` is (re)indexed with `terms`: a term whose postings
/// end up empty is dropped.
pub open spec fn reindexed(idx: Map<Seq<char>, Seq<Posting>>, doc: DocId, terms: Seq<Seq<char>>) -> Map<
    Seq<char>,
    Seq<Posting>,
> {
    Map::new(
        |t: Seq<char>| (idx.contains_key(t) && without_doc(idx[t], doc).len() > 0) || terms.contains(t),
        |t: Seq<char>| reindexed_postings(idx, doc, terms, t),
    )
}

/// The index's promises: no term has an empty postings list, every posting's document is
/// indexed, and no document occurs twice in a term's postings.
pub open spec fn index_invariant(idx: Map<Seq<char>, Seq<Posting>>, docs: Map<DocId, DocumentMeta>) -> bool {
    forall|t: Seq<char>|
        #[trigger] idx.contains_key(t) ==> idx[t].len() > 0 && (forall|i: int|
            0 <= i < idx[t].len() ==> docs.contains_key(#[trigger] idx[t][i].doc_id)) && (forall|i: int, j: int|
            0 <= i < j < idx[t].len() ==> #[trigger] idx[t][i].doc_id != #[trigger] idx[t][j].doc_id)
}

proof fn lemma_tm_dom(s: Seq<(String, Vec<Posting>)>, t: Seq<char>)
    ensures
        term_map(s).contains_key(t) <==> exists|j: int| 0 <= j < s.len() && s[j].0@ == t,
    decreases s.len(),
{
    if s.len() > 0 {
        let d = s.drop_last();
        lemma_tm_dom(d, t);
        if exists|j: int| 0 <= j < d.len() && d[j].0@ == t {
            let j = choose|j: int| 0 <= j < d.len() && d[j].0@ == t;
            assert(s[j] == d[j]);
        }
        if exists|j: int| 0 <= j < s.len() && s[j].0@ == t {
            let j = choose|j: int| 0 <= j < s.len() && s[j].0@ == t;
            if j < s.len() - 1 {
                assert(d[j] == s[j]);
            }
        }
    }
}

proof fn lemma_tm_value(s: Seq<(String, Vec<Posting>)>, i: int)
    requires
        distinct_terms(s),
        0 <= i < s.len(),
    ensures
        term_map(s).contains_key(s[i].0@),
        term_map(s)[s[i].0@] == s[i].1@,
    decreases s.len(),
{
    if i < s.len() - 1 {
        let d = s.drop_last();
        assert(d[i] == s[i]);
        assert(distinct_terms(d)) by {
            assert forall|a: int, b: int| 0 <= a < b < d.len() implies d[a].0@ != d[b].0@ by {
                assert(d[a] == s[a] && d[b] == s[b]);
            }
        }
        lemma_tm_value(d, i);
        assert(s[i].0@ != s[s.len() - 1].0@);
    }
}

proof fn lemma_tm_prefix(s: Seq<(String, Vec<Posting>)>, i: int)
    requires
        0 <= i < s.len(),
    ensures
        term_map(s.subrange(0, i + 1)) == term_map(s.subrange(0, i)).insert(s[i].0@, s[i].1@),
{
    assert(s.subrange(0, i + 1).drop_last() =~= s.subrange(0, i));
}

proof fn lemma_without_doc(ps: Seq<Posting>, doc: DocId)
    ensures
        forall|k: int|
            #![trigger without_doc(ps, doc)[k]]
            0 <= k < without_doc(ps, doc).len() ==> without_doc(ps, doc)[k].doc_id != doc && ps.contains(
                without_doc(ps, doc)[k],
            ),
        (forall|a: int, b: int| 0 <= a < b < ps.len() ==> #[trigger] ps[a].doc_id != #[trigger] ps[b].doc_id) ==> (forall|a: int, b: int|
            0 <= a < b < without_doc(ps, doc).len() ==> #[trigger] without_doc(ps, doc)[a].doc_id
                != #[trigger] without_doc(ps, doc)[b].doc_id),
    decreases ps.len(),
{
    if ps.len() > 0 {
        let d = ps.drop_last();
        lemma_without_doc(d, doc);
        let w = without_doc(d, doc);
        assert forall|k: int| 0 <= k < w.len() implies ps.contains(#[trigger] w[k]) by {
            assert(d.contains(w[k]));
            let m = choose|m: int| 0 <= m < d.len() && d[m] == w[k];
            assert(ps[m] == d[m]);
        }
        if ps.last().doc_id != doc {
            let wl = w.push(ps.last());
            assert(wl == without_doc(ps, doc));
            assert forall|k: int| 0 <= k < wl.len() implies #[trigger] wl[k].doc_id != doc && ps.contains(wl[k]) by {
                assert(wl[k] == wl[k]);
                if k == w.len() {
                    assert(ps[ps.len() - 1] == ps.last());
                } else {
                    assert(wl[k] == w[k]);
                }
            }
            if forall|a: int, b: int| 0 <= a < b < ps.len() ==> #[trigger] ps[a].doc_id != #[trigger] ps[b].doc_id {
                assert forall|a: int, b: int| 0 <= a < b < d.len() implies #[trigger] d[a].doc_id != #[trigger] d[b].doc_id by {
                    assert(d[a] == ps[a] && d[b] == ps[b]);
                }
                assert forall|a: int, b: int| 0 <= a < b < wl.len() implies #[trigger] wl[a].doc_id != #[trigger] wl[b].doc_id by {
                    if b == wl.len() - 1 {
                        assert(d.contains(w[a]));
                        let m = choose|m: int| 0 <= m < d.len() && d[m] == w[a];
                        assert(ps[m] == d[m]);
                        assert(ps[m].doc_id != ps[ps.len() - 1].doc_id);
                        assert(wl[a] == w[a]);
                    } else {
                        assert(wl[a] == w[a] && wl[b] == w[b]);
                    }
                }
            }
        }
    }
}

proof fn lemma_count_bound(terms: Seq<Seq<char>>, t: Seq<char>)
    ensures
        count_of(terms, t) <= terms.len(),
        terms.contains(t) ==> count_of(terms, t) > 0,
        !terms.contains(t) ==> count_of(terms, t) == 0,
    decreases terms.len(),
{
    if terms.len() > 0 {
        lemma_count_bound(terms.drop_last(), t);
        if terms.drop_last().contains(t) {
            let k = choose|k: int| 0 <= k < terms.drop_last().len() && terms.drop_last()[k] == t;
            assert(terms[k] == t);
        }
        if terms.contains(t) && terms.last() != t {
            let k = choose|k: int| 0 <= k < terms.len() && terms[k] == t;
            assert(terms.drop_last()[k] == t);
        }
    }
}

fn find_term(entries: &Vec<(String, Vec<Posting>)>, t: &str) -> (r: Option<usize>)
    ensures
        match r {
            Some(i) => i < entries@.len() && entries@[i as int].0@ == t@,
            None => !term_map(entries@).contains_key(t@),
        },
{
    let mut i: usize = 0;
    while i < entries.len()
        invariant
            i <= entries@.len(),
            forall|j: int| 0 <= j < i ==> entries@[j].0@ != t@,
        decreases entries@.len() - i,
    {
        if str_eq(entries[i].0.as_str(), t) {
            return Some(i);
        }
        i = i + 1;
    }
    proof {
        lemma_tm_dom(entries@, t@);
    }
    None
}

fn find_count(counts: &Vec<(String, usize)>, t: &str) -> (r: Option<usize>)
    ensures
        match r {
            Some(i) => i < counts@.len() && counts@[i as int].0@ == t@,
            None => forall|j: int| 0 <= j < counts@.len() ==> counts@[j].0@ != t@,
        },
{
    let mut i: usize = 0;
    while i < counts.len()
        invariant
            i <= counts@.len(),
            forall|j: int| 0 <= j < i ==> counts@[j].0@ != t@,
        decreases counts@.len() - i,
    {
        if str_eq(counts[i].0.as_str(), t) {
            return Some(i);
        }
        i = i + 1;
    }
    None
}

impl InvertedIndex {
    /// Each indexed term and its postings.
    pub closed spec fn postings_map(&self) -> Map<Seq<char>, Seq<Posting>> {
        term_map(self.index@)
    }

    /// Each indexed document.
    pub closed spec fn documents_map(&self) -> Map<DocId, DocumentMeta> {
        doc_map(self.documents@)
    }

    pub closed spec fn stop_words_ok(&self) -> bool {
        &&& self.stop_words@.len() == stop_list().len()
        &&& forall|j: int| 0 <= j < self.stop_words@.len() ==> #[trigger] self.stop_words@[j]@ == stop_list()[j]
    }

    pub closed spec fn wf(&self) -> bool {
        self.stop_words_ok() && distinct_terms(self.index@) && distinct_ids(self.documents@)
    }
}

/// The text of each string.
pub open spec fn term_views(v: Seq<String>) -> Seq<Seq<char>> {
    v.map_values(|s: String| s@)
}

/// The counts of the distinct terms of `terms`.
fn count_terms(terms: &Vec<String>) -> (counts: Vec<(String, usize)>)
    ensures
        forall|a: int, b: int| 0 <= a < b < counts@.len() ==> counts@[a].0@ != counts@[b].0@,
        forall|j: int|
            0 <= j < counts@.len() ==> #[trigger] counts@[j].1 == count_of(term_views(terms@), counts@[j].0@),
        forall|t: Seq<char>|
            (exists|j: int| 0 <= j < counts@.len() && counts@[j].0@ == t) <==> term_views(terms@).contains(t),
{
    let ghost tv = term_views(terms@);
    let mut counts: Vec<(String, usize)> = Vec::new();
    let mut i: usize = 0;
    while i < terms.len()
        invariant
            tv == term_views(terms@),
            i <= terms@.len(),
            forall|a: int, b: int| 0 <= a < b < counts@.len() ==> counts@[a].0@ != counts@[b].0@,
            forall|j: int|
                0 <= j < counts@.len() ==> #[trigger] counts@[j].1 == count_of(tv.subrange(0, i as int), counts@[j].0@),
            forall|t: Seq<char>|
                (exists|j: int| 0 <= j < counts@.len() && counts@[j].0@ == t) <==> tv.subrange(0, i as int).contains(t),
        decreases terms@.len() - i,
    {
        let ghost pre = tv.subrange(0, i as int);
        let ghost post = tv.subrange(0, i + 1);
        proof {
            assert(post.drop_last() =~= pre);
            assert(post.last() == terms@[i as int]@);
            assert forall|t: Seq<char>| post.contains(t) <==> (pre.contains(t) || t == terms@[i as int]@) by {
                if post.contains(t) && t != terms@[i as int]@ {
                    let k = choose|k: int| 0 <= k < post.len() && post[k] == t;
                    assert(pre[k] == t);
                }
                if pre.contains(t) {
                    let k = choose|k: int| 0 <= k < pre.len() && pre[k] == t;
                    assert(post[k] == t);
                }
                if t == terms@[i as int]@ {
                    assert(post[i as int] == t);
                }
            }
        }
        let ghost oc = counts@;
        let ghost ti = terms@[i as int]@;
        match find_count(&counts, terms[i].as_str()) {
            Some(j) => {
                proof {
                    lemma_count_bound(pre, oc[j as int].0@);
                }
                let c = counts[j].1 + 1;
                counts[j].1 = c;
                proof {
                    assert(pre.contains(ti));
                    assert forall|k: int| 0 <= k < counts@.len() implies #[trigger] counts@[k].1 == count_of(post, counts@[k].0@) by {
                        if k != j {
                            assert(counts@[k] == oc[k]);
                            assert(oc[k].0@ != oc[j as int].0@);
                        }
                    }
                    assert forall|t: Seq<char>|
                        (exists|k: int| 0 <= k < counts@.len() && counts@[k].0@ == t) <==> post.contains(t) by {
                        if exists|k: int| 0 <= k < oc.len() && oc[k].0@ == t {
                            let k = choose|k: int| 0 <= k < oc.len() && oc[k].0@ == t;
                            assert(counts@[k].0@ == t);
                        }
                        if exists|k: int| 0 <= k < counts@.len() && counts@[k].0@ == t {
                            let k = choose|k: int| 0 <= k < counts@.len() && counts@[k].0@ == t;
                            assert(oc[k].0@ == t);
                        }
                    }
                }
            },
            None => {
                proof {
                    lemma_count_bound(pre, ti);
                }
                counts.push((terms[i].clone(), 1));
                proof {
                    assert forall|k: int| 0 <= k < counts@.len() implies #[trigger] counts@[k].1 == count_of(post, counts@[k].0@) by {
                        if k < oc.len() {
                            assert(counts@[k] == oc[k]);
                        }
                    }
                    assert forall|t: Seq<char>|
                        (exists|k: int| 0 <= k < counts@.len() && counts@[k].0@ == t) <==> post.contains(t) by {
                        if exists|k: int| 0 <= k < oc.len() && oc[k].0@ == t {
                            let k = choose|k: int| 0 <= k < oc.len() && oc[k].0@ == t;
                            assert(counts@[k].0@ == t);
                        }
                        if exists|k: int| 0 <= k < counts@.len() && counts@[k].0@ == t {
                            let k = choose|k: int| 0 <= k < counts@.len() && counts@[k].0@ == t;
                            if k < oc.len() {
                                assert(oc[k].0@ == t);
                            }
                        }
                        if t == ti {
                            assert(counts@[oc.len() as int].0@ == t);
                        }
                    }
                    assert forall|a: int, b: int| 0 <= a < b < counts@.len() implies counts@[a].0@ != counts@[b].0@ by {
                        if b == oc.len() {
                            assert(counts@[a] == oc[a]);
                        } else {
                            assert(counts@[a] == oc[a] && counts@[b] == oc[b]);
                        }
                    }
                }
            },
        }
        i = i + 1;
    }
    proof {
        assert(tv.subrange(0, terms@.len() as int) =~= tv);
    }
    counts
}

fn without_doc_exec(ps: &Vec<Posting>, doc: DocId) -> (f: Vec<Posting>)
    ensures
        f@ == without_doc(ps@, doc),
{
    let mut f: Vec<Posting> = Vec::new();
    let mut k: usize = 0;
    while k < ps.len()
        invariant
            k <= ps@.len(),
            f@ == without_doc(ps@.subrange(0, k as int), doc),
        decreases ps@.len() - k,
    {
        proof {
            assert(ps@.subrange(0, k + 1).drop_last() =~= ps@.subrange(0, k as int));
        }
        if ps[k].doc_id != doc {
            f.push(Posting { doc_id: ps[k].doc_id, term_frequency: ps[k].term_frequency });
        }
        k = k + 1;
    }
    proof {
        assert(ps@.subrange(0, ps@.len() as int) =~= ps@);
    }
    f
}

/// Once document `doc` is (re)indexed with `terms`, no promise of the index is broken.
pub proof fn lemma_reindex_keeps_invariant(
    idx: Map<Seq<char>, Seq<Posting>>,
    docs: Map<DocId, DocumentMeta>,
    doc: DocId,
    terms: Seq<Seq<char>>,
    meta: DocumentMeta,
)
    requires
        index_invariant(idx, docs),
    ensures
        index_invariant(reindexed(idx, doc, terms), docs.insert(doc, meta)),
{
    let n = reindexed(idx, doc, terms);
    let nd = docs.insert(doc, meta);
    assert forall|t: Seq<char>| #[trigger] n.contains_key(t) implies n[t].len() > 0 && (forall|i: int|
        0 <= i < n[t].len() ==> nd.contains_key(#[trigger] n[t][i].doc_id)) && (forall|i: int, j: int|
        0 <= i < j < n[t].len() ==> #[trigger] n[t][i].doc_id != #[trigger] n[t][j].doc_id) by {
        let w = if idx.contains_key(t) {
            without_doc(idx[t], doc)
        } else {
            Seq::empty()
        };
        if idx.contains_key(t) {
            lemma_without_doc(idx[t], doc);
        }
        let tail = if terms.contains(t) {
            seq![Posting { doc_id: doc, term_frequency: count_of(terms, t) as usize }]
        } else {
            Seq::<Posting>::empty()
        };
        assert(n[t] == w + tail);
        assert forall|i: int| 0 <= i < n[t].len() implies nd.contains_key(#[trigger] n[t][i].doc_id) by {
            if i < w.len() {
                assert(n[t][i] == w[i]);
                let m = choose|m: int| 0 <= m < idx[t].len() && idx[t][m] == w[i];
                assert(docs.contains_key(idx[t][m].doc_id));
            }
        }
        assert forall|i: int, j: int| 0 <= i < j < n[t].len() implies #[trigger] n[t][i].doc_id != #[trigger] n[t][j].doc_id by {
            if j < w.len() {
                assert(n[t][i] == w[i] && n[t][j] == w[j]);
            } else {
                assert(n[t][i] == w[i]);
                assert(w[i].doc_id != doc);
            }
        }
    }
}

impl InvertedIndex {
    /// The postings after (re)indexing `doc` with the counted terms.
    fn reindex(&self, doc: DocId, counts: &Vec<(String, usize)>, Ghost(tv): Ghost<Seq<Seq<char>>>) -> (r: Vec<(String, Vec<Posting>)>)
        requires
            self.wf(),
            forall|a: int, b: int| 0 <= a < b < counts@.len() ==> counts@[a].0@ != counts@[b].0@,
            forall|j: int| 0 <= j < counts@.len() ==> #[trigger] counts@[j].1 == count_of(tv, counts@[j].0@),
            forall|t: Seq<char>| (exists|j: int| 0 <= j < counts@.len() && counts@[j].0@ == t) <==> tv.contains(t),
        ensures
            distinct_terms(r@),
            term_map(r@) == reindexed(self.postings_map(), doc, tv),
    {
        let ghost om = self.postings_map();
        let ghost ix = self.index@;
        let mut ni: Vec<(String, Vec<Posting>)> = Vec::new();
        let mut i: usize = 0;
        proof {
            assert(ix.subrange(0, 0) =~= Seq::<(String, Vec<Posting>)>::empty());
        }
        while i < self.index.len()
            invariant
                self.wf(),
                ix == self.index@,
                om == term_map(ix),
                i <= ix.len(),
                forall|a: int, b: int| 0 <= a < b < counts@.len() ==> counts@[a].0@ != counts@[b].0@,
                forall|j: int| 0 <= j < counts@.len() ==> #[trigger] counts@[j].1 == count_of(tv, counts@[j].0@),
                forall|t: Seq<char>| (exists|j: int| 0 <= j < counts@.len() && counts@[j].0@ == t) <==> tv.contains(t),
                distinct_terms(ni@),
                forall|t: Seq<char>|
                    #[trigger] term_map(ni@).contains_key(t) <==> (term_map(ix.subrange(0, i as int)).contains_key(t)
                        && reindexed_postings(om, doc, tv, t).len() > 0),
                forall|t: Seq<char>|
                    #[trigger] term_map(ni@).contains_key(t) ==> term_map(ni@)[t] == reindexed_postings(om, doc, tv, t),
            decreases ix.len() - i,
        {
            let ghost t = ix[i as int].0@;
            let mut f = without_doc_exec(&self.index[i].1, doc);
            let ghost before = f@;
            match find_count(counts, self.index[i].0.as_str()) {
                Some(j) => {
                    f.push(Posting { doc_id: doc, term_frequency: counts[j].1 });
                    proof {
                        assert(tv.contains(t));
                    }
                },
                None => {
                    proof {
                        assert(!tv.contains(t));
                    }
                },
            }
            proof {
                lemma_tm_value(ix, i as int);
                assert(f@ =~= reindexed_postings(om, doc, tv, t));
                lemma_tm_prefix(ix, i as int);
                lemma_tm_dom(ix.subrange(0, i as int), t);
                if term_map(ix.subrange(0, i as int)).contains_key(t) {
                    let k = choose|k: int| 0 <= k < i && ix.subrange(0, i as int)[k].0@ == t;
                    assert(ix[k].0@ == t);
                }
                lemma_tm_dom(ni@, t);
            }
            if f.len() > 0 {
                let ghost oni = ni@;
                ni.push((self.index[i].0.clone(), f));
                proof {
                    assert(ni@.drop_last() =~= oni);
                    assert forall|a: int, b: int| 0 <= a < b < ni@.len() implies ni@[a].0@ != ni@[b].0@ by {
                        if b == oni.len() {
                            assert(ni@[a] == oni[a]);
                        } else {
                            assert(ni@[a] == oni[a] && ni@[b] == oni[b]);
                        }
                    }
                }
            }
            i = i + 1;
        }
        proof {
            assert(ix.subrange(0, ix.len() as int) =~= ix);
        }
        let mut j: usize = 0;
        while j < counts.len()
            invariant
                self.wf(),
                ix == self.index@,
                om == term_map(ix),
                j <= counts@.len(),
                forall|a: int, b: int| 0 <= a < b < counts@.len() ==> counts@[a].0@ != counts@[b].0@,
                forall|k: int| 0 <= k < counts@.len() ==> #[trigger] counts@[k].1 == count_of(tv, counts@[k].0@),
                forall|t: Seq<char>| (exists|k: int| 0 <= k < counts@.len() && counts@[k].0@ == t) <==> tv.contains(t),
                distinct_terms(ni@),
                forall|t: Seq<char>|
                    #[trigger] term_map(ni@).contains_key(t) <==> ((om.contains_key(t) && reindexed_postings(om, doc, tv, t).len()
                        > 0) || (exists|k: int| 0 <= k < j && counts@[k].0@ == t && !om.contains_key(t))),
                forall|t: Seq<char>|
                    #[trigger] term_map(ni@).contains_key(t) ==> term_map(ni@)[t] == reindexed_postings(om, doc, tv, t),
            decreases counts@.len() - j,
        {
            let ghost t = counts@[j as int].0@;
            proof {
                assert(tv.contains(t));
                lemma_tm_dom(ni@, t);
            }
            match find_term(&self.index, counts[j].0.as_str()) {
                Some(i) => {
                    proof {
                        lemma_tm_dom(ix, t);
                    }
                },
                None => {
                    let ghost oni = ni@;
                    let mut ps: Vec<Posting> = Vec::new();
                    ps.push(Posting { doc_id: doc, term_frequency: counts[j].1 });
                    ni.push((counts[j].0.clone(), ps));
                    proof {
                        assert(ni@.drop_last() =~= oni);
                        assert(ps@ =~= reindexed_postings(om, doc, tv, t));
                        assert forall|a: int, b: int| 0 <= a < b < ni@.len() implies ni@[a].0@ != ni@[b].0@ by {
                            if b == oni.len() {
                                assert(ni@[a] == oni[a]);
                            } else {
                                assert(ni@[a] == oni[a] && ni@[b] == oni[b]);
                            }
                        }
                    }
                },
            }
            proof {
                assert forall|u: Seq<char>|
                    #[trigger] term_map(ni@).contains_key(u) <==> ((om.contains_key(u) && reindexed_postings(om, doc, tv, u).len()
                        > 0) || (exists|k: int| 0 <= k < j + 1 && counts@[k].0@ == u && !om.contains_key(u))) by {
                    if exists|k: int| 0 <= k < j + 1 && counts@[k].0@ == u && !om.contains_key(u) {
                        let k = choose|k: int| 0 <= k < j + 1 && counts@[k].0@ == u && !om.contains_key(u);
                        if k < j {
                            assert(exists|k2: int| 0 <= k2 < j && counts@[k2].0@ == u && !om.contains_key(u));
                        }
                    }
                    if exists|k: int| 0 <= k < j && counts@[k].0@ == u && !om.contains_key(u) {
                        let k = choose|k: int| 0 <= k < j && counts@[k].0@ == u && !om.contains_key(u);
                        assert(0 <= k < j + 1 && counts@[k].0@ == u && !om.contains_key(u));
                    }
                }
            }
            j = j + 1;
        }
        proof {
            let target = reindexed(om, doc, tv);
            assert forall|t: Seq<char>| #[trigger] term_map(ni@).contains_key(t) <==> target.contains_key(t) by {
                if tv.contains(t) {
                    let k = choose|k: int| 0 <= k < counts@.len() && counts@[k].0@ == t;
                    if !om.contains_key(t) {
                        assert(0 <= k < counts@.len() && counts@[k].0@ == t && !om.contains_key(t));
                    }
                }
                if exists|k: int| 0 <= k < counts@.len() && counts@[k].0@ == t && !om.contains_key(t) {
                    assert(tv.contains(t));
                }
            }
            assert(term_map(ni@) =~= target);
        }
        ni
    }

    /// Indexes `content` as document `doc_id`. Content without terms leaves the index as it
    /// was; otherwise the document's earlier postings give way to its new term counts.
    pub fn add_document(&mut self, doc_id: DocId, title: String, content: &str)
        requires
            old(self).wf(),
        ensures
            final(self).wf(),
            terms_of(content@).len() == 0 ==> final(self).postings_map() == old(self).postings_map()
                && final(self).documents_map() == old(self).documents_map(),
            terms_of(content@).len() > 0 ==> final(self).postings_map() == reindexed(
                old(self).postings_map(),
                doc_id,
                terms_of(content@),
            ) && final(self).documents_map() == old(self).documents_map().insert(
                doc_id,
                DocumentMeta { id: doc_id, title, total_terms: terms_of(content@).len() as usize },
            ),
            index_invariant(old(self).postings_map(), old(self).documents_map()) ==> index_invariant(
                final(self).postings_map(),
                final(self).documents_map(),
            ),
    {
        let terms = self.tokenize(content);
        let ghost tv = term_views(terms@);
        assert(tv == terms_of(content@));
        let total = terms.len();
        if total == 0 {
            return;
        }
        let counts = count_terms(&terms);
        let ghost old_p = self.postings_map();
        let ghost old_d = self.documents_map();
        let ni = self.reindex(doc_id, &counts, Ghost(tv));
        self.index = ni;
        let ghost ds = self.documents@;
        let mut nd: Vec<DocumentMeta> = Vec::new();
        let mut i: usize = 0;
        proof {
            assert(ds.subrange(0, 0) =~= Seq::<DocumentMeta>::empty());
            assert(doc_map(nd@) =~= doc_map(ds.subrange(0, 0)).remove(doc_id));
        }
        while i < self.documents.len()
            invariant
                ds == self.documents@,
                distinct_ids(ds),
                i <= ds.len(),
                doc_map(nd@) == doc_map(ds.subrange(0, i as int)).remove(doc_id),
                distinct_ids(nd@),
                forall|a: int| 0 <= a < nd@.len() ==> nd@[a].id != doc_id,
                forall|a: int| 0 <= a < nd@.len() ==> exists|k: int| 0 <= k < i && ds[k].id == #[trigger] nd@[a].id,
            decreases ds.len() - i,
        {
            proof {
                assert(ds.subrange(0, i + 1).drop_last() =~= ds.subrange(0, i as int));
            }
            let d = &self.documents[i];
            if d.id != doc_id {
                let ghost ond = nd@;
                nd.push(DocumentMeta { id: d.id, title: d.title.clone(), total_terms: d.total_terms });
                proof {
                    assert(nd@.drop_last() =~= ond);
                    assert(doc_map(nd@) =~= doc_map(ds.subrange(0, i + 1)).remove(doc_id));
                    assert forall|a: int, b: int| 0 <= a < b < nd@.len() implies nd@[a].id != nd@[b].id by {
                        if b == ond.len() {
                            assert(nd@[a] == ond[a]);
                            let k = choose|k: int| 0 <= k < i && ds[k].id == ond[a].id;
                        } else {
                            assert(nd@[a] == ond[a] && nd@[b] == ond[b]);
                        }
                    }
                    assert forall|a: int| 0 <= a < nd@.len() implies exists|k: int| 0 <= k < i + 1 && ds[k].id == #[trigger] nd@[a].id by {
                        if a < ond.len() {
                            assert(nd@[a] == ond[a]);
                            let k = choose|k: int| 0 <= k < i && ds[k].id == ond[a].id;
                            assert(0 <= k < i + 1 && ds[k].id == nd@[a].id);
                        } else {
                            assert(ds[i as int].id == nd@[a].id);
                        }
                    }
                }
            } else {
                proof {
                    assert(doc_map(nd@) =~= doc_map(ds.subrange(0, i + 1)).remove(doc_id));
                    assert forall|a: int| 0 <= a < nd@.len() implies exists|k: int| 0 <= k < i + 1 && ds[k].id == #[trigger] nd@[a].id by {
                        let k = choose|k: int| 0 <= k < i && ds[k].id == nd@[a].id;
                        assert(0 <= k < i + 1 && ds[k].id == nd@[a].id);
                    }
                }
            }
            i = i + 1;
        }
        let ghost ond = nd@;
        let meta = DocumentMeta { id: doc_id, title, total_terms: total };
        nd.push(meta);
        proof {
            assert(ds.subrange(0, ds.len() as int) =~= ds);
            assert(nd@.drop_last() =~= ond);
            assert(doc_map(nd@) =~= old_d.insert(doc_id, meta));
            assert forall|a: int, b: int| 0 <= a < b < nd@.len() implies nd@[a].id != nd@[b].id by {
                if b == ond.len() {
                    assert(nd@[a] == ond[a]);
                } else {
                    assert(nd@[a] == ond[a] && nd@[b] == ond[b]);
                }
            }
        }
        self.documents = nd;
        proof {
            if index_invariant(old_p, old_d) {
                lemma_reindex_keeps_invariant(old_p, old_d, doc_id, tv, meta);
            }
        }
    }

    /// The postings of `term`, if it is indexed.
    pub fn postings(&self, term: &str) -> (r: Option<Vec<Posting>>)
        requires
            self.wf(),
        ensures
            match r {
                Some(ps) => self.postings_map().contains_key(term@) && ps@ == self.postings_map()[term@],
                None => !self.postings_map().contains_key(term@),
            },
    {
        match find_term(&self.index, term) {
            Some(i) => {
                proof {
                    lemma_tm_value(self.index@, i as int);
                }
                let ps = &self.index[i].1;
                let mut out: Vec<Posting> = Vec::new();
                let mut k: usize = 0;
                while k < ps.len()
                    invariant
                        k <= ps@.len(),
                        out@ == ps@.subrange(0, k as int),
                    decreases ps@.len() - k,
                {
                    out.push(Posting { doc_id: ps[k].doc_id, term_frequency: ps[k].term_frequency });
                    proof {
                        assert(ps@.subrange(0, k + 1) =~= ps@.subrange(0, k as int).push(ps@[k as int]));
                    }
                    k = k + 1;
                }
                proof {
                    assert(ps@.subrange(0, ps@.len() as int) =~= ps@);
                }
                Some(out)
            },
            None => None,
        }
    }

    /// The indexed document `id`, if any.
    pub fn document(&self, id: DocId) -> (r: Option<DocumentMeta>)
        requires
            self.wf(),
        ensures
            match r {
                Some(d) => self.documents_map().contains_key(id) && d == self.documents_map()[id],
                None => !self.documents_map().contains_key(id),
            },
    {
        let mut i: usize = self.documents.len();
        proof {
            assert(self.documents@.subrange(0, i as int) =~= self.documents@);
        }
        while i > 0
            invariant
                i <= self.documents@.len(),
                forall|k: int| i <= k < self.documents@.len() ==> self.documents@[k].id != id,
                doc_map(self.documents@.subrange(0, i as int)).contains_key(id) == self.documents_map().contains_key(id),
                doc_map(self.documents@.subrange(0, i as int)).contains_key(id) ==> doc_map(
                    self.documents@.subrange(0, i as int),
                )[id] == self.documents_map()[id],
            decreases i,
        {
            let d = &self.documents[i - 1];
            proof {
                assert(self.documents@.subrange(0, i as int).drop_last() =~= self.documents@.subrange(0, i - 1));
            }
            if d.id == id {
                return Some(DocumentMeta { id: d.id, title: d.title.clone(), total_terms: d.total_terms });
            }
            i = i - 1;
        }
        None
    }

    /// The number of indexed documents.
    pub fn document_count(&self) -> (n: usize)
        requires
            self.wf(),
        ensures
            n == self.documents_map().len(),
    {
        proof {
            lemma_doc_map_len(self.documents@);
        }
        self.documents.len()
    }
}

} // verus!
