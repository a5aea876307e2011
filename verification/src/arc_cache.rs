//! An adaptive replacement cache (ARC): recently seen keys live in T1, keys seen at least twice
//! in T2, and the ghost lists B1 and B2 remember keys recently evicted from each, steering the
//! target size `p` of T1. Every list keeps its most recently used key at the front.

use vstd::prelude::*;
use crate::lru_cache::{key_pos, lemma_key_pos};

verus! {

/// Position of key `k` in a list of keys, or -1.
pub open spec fn id_pos(s: Seq<u64>, k: u64) -> int
    decreases s.len(),
{
    if s.len() == 0 {
        -1
    } else if s[0] == k {
        0
    } else {
        let r = id_pos(s.drop_first(), k);
        if r < 0 { -1 } else { r + 1 }
    }
}

pub proof fn lemma_id_pos(s: Seq<u64>, k: u64)
    ensures
        -1 <= id_pos(s, k) < s.len(),
        id_pos(s, k) >= 0 ==> s[id_pos(s, k)] == k,
        id_pos(s, k) >= 0 ==> forall|j: int| 0 <= j < id_pos(s, k) ==> s[j] != k,
        id_pos(s, k) < 0 ==> !s.contains(k),
        s.contains(k) ==> id_pos(s, k) >= 0,
    decreases s.len(),
{
    if s.len() > 0 {
        lemma_id_pos(s.drop_first(), k);
        if s[0] != k {
            assert forall|j: int| 1 <= j < s.len() implies s[j] == s.drop_first()[j - 1] by {}
            if s.contains(k) {
                let j = choose|j: int| 0 <= j < s.len() && s[j] == k;
                assert(s.drop_first()[j - 1] == k);
            }
        }
    }
}

/// The mathematical state of an ARC cache.
#[verifier::ext_equal]
pub struct ArcView<V> {
    pub t1: Seq<(u64, V)>,
    pub t2: Seq<(u64, V)>,
    pub b1: Seq<u64>,
    pub b2: Seq<u64>,
    pub p: int,
    pub c: int,
}

pub open spec fn keys_of<V>(s: Seq<(u64, V)>) -> Seq<u64> {
    s.map_values(|e: (u64, V)| e.0)
}

pub open spec fn at_most_one(a: bool, b: bool, c: bool, d: bool) -> bool {
    (if a { 1int } else { 0 }) + (if b { 1int } else { 0 }) + (if c { 1int } else { 0 }) + (if d { 1int } else { 0 }) <= 1
}

/// Every key occurs at most once across the four lists.
pub open spec fn keys_distinct<V>(v: ArcView<V>) -> bool {
    &&& keys_of(v.t1).no_duplicates()
    &&& keys_of(v.t2).no_duplicates()
    &&& v.b1.no_duplicates()
    &&& v.b2.no_duplicates()
    &&& forall|x: u64|
        #![trigger keys_of(v.t1).contains(x)]
        #![trigger keys_of(v.t2).contains(x)]
        #![trigger v.b1.contains(x)]
        #![trigger v.b2.contains(x)]
        at_most_one(
        keys_of(v.t1).contains(x),
        keys_of(v.t2).contains(x),
        v.b1.contains(x),
        v.b2.contains(x),
    )
}

pub open spec fn arc_wf<V>(v: ArcView<V>) -> bool {
    &&& keys_distinct(v)
    &&& 0 < v.c <= usize::MAX / 4
    &&& 0 <= v.p <= v.c
    &&& v.t1.len() + v.t2.len() <= v.c
    &&& v.t1.len() + v.b1.len() <= v.c
    &&& v.t1.len() + v.t2.len() + v.b1.len() + v.b2.len() <= 2 * v.c
}


proof fn lemma_remove_contains(s: Seq<u64>, i: int)
    requires
        s.no_duplicates(),
        0 <= i < s.len(),
    ensures
        s.remove(i).no_duplicates(),
        forall|x: u64| #[trigger] s.remove(i).contains(x) <==> (s.contains(x) && x != s[i]),
{
    let r = s.remove(i);
    assert forall|a: int, b: int| 0 <= a < r.len() && 0 <= b < r.len() && a != b implies r[a] != r[b] by {
        let ia = if a < i { a } else { a + 1 };
        let ib = if b < i { b } else { b + 1 };
        assert(r[a] == s[ia] && r[b] == s[ib]);
    }
    assert forall|x: u64| #[trigger] r.contains(x) <==> (s.contains(x) && x != s[i]) by {
        if r.contains(x) {
            let a = choose|a: int| 0 <= a < r.len() && r[a] == x;
            let ia = if a < i { a } else { a + 1 };
            assert(s[ia] == x);
        }
        if s.contains(x) && x != s[i] {
            let a = choose|a: int| 0 <= a < s.len() && s[a] == x;
            let ra = if a < i { a } else { a - 1 };
            assert(r[ra] == x);
        }
    }
}

proof fn lemma_push_front_contains(s: Seq<u64>, y: u64)
    requires
        s.no_duplicates(),
        !s.contains(y),
    ensures
        (seq![y] + s).no_duplicates(),
        forall|x: u64| #[trigger] (seq![y] + s).contains(x) <==> (x == y || s.contains(x)),
{
    let r = seq![y] + s;
    assert forall|a: int, b: int| 0 <= a < r.len() && 0 <= b < r.len() && a != b implies r[a] != r[b] by {
        if a > 0 {
            assert(r[a] == s[a - 1]);
        }
        if b > 0 {
            assert(r[b] == s[b - 1]);
        }
    }
    assert forall|x: u64| #[trigger] r.contains(x) <==> (x == y || s.contains(x)) by {
        if r.contains(x) {
            let a = choose|a: int| 0 <= a < r.len() && r[a] == x;
            if a > 0 {
                assert(s[a - 1] == x);
            }
        }
        if x == y {
            assert(r[0] == x);
        }
        if s.contains(x) {
            let a = choose|a: int| 0 <= a < s.len() && s[a] == x;
            assert(r[a + 1] == x);
        }
    }
}

proof fn lemma_keys_remove<V>(s: Seq<(u64, V)>, i: int)
    requires
        0 <= i < s.len(),
    ensures
        keys_of(s.remove(i)) == keys_of(s).remove(i),
        keys_of(s)[i] == s[i].0,
{
    assert(keys_of(s.remove(i)) =~= keys_of(s).remove(i));
}

proof fn lemma_keys_push<V>(e: (u64, V), s: Seq<(u64, V)>)
    ensures
        keys_of(seq![e] + s) == seq![e.0] + keys_of(s),
{
    assert(keys_of(seq![e] + s) =~= seq![e.0] + keys_of(s));
}

proof fn lemma_keys_pos<V>(s: Seq<(u64, V)>, k: u64)
    ensures
        keys_of(s).contains(k) <==> key_pos(s, k) >= 0,
        keys_of(s).len() == s.len(),
{
    lemma_key_pos(s, k);
    if key_pos(s, k) >= 0 {
        assert(keys_of(s)[key_pos(s, k)] == k);
    }
    if keys_of(s).contains(k) {
        let j = choose|j: int| 0 <= j < keys_of(s).len() && keys_of(s)[j] == k;
        assert(s[j].0 == k);
    }
}

/// Demotes the least recently used resident entry to its ghost list: from T1 when T1 exceeds
/// its target (or meets it, after a hit in B2), otherwise from T2.
pub open spec fn arc_replace<V>(v: ArcView<V>, adjust_for_b2: bool) -> ArcView<V> {
    let n1 = v.t1.len();
    if n1 > 0 && (n1 > v.p || (adjust_for_b2 && n1 == v.p)) {
        ArcView { t1: v.t1.drop_last(), b1: seq![v.t1.last().0] + v.b1, ..v }
    } else if v.t2.len() > 0 {
        ArcView { t2: v.t2.drop_last(), b2: seq![v.t2.last().0] + v.b2, ..v }
    } else {
        v
    }
}


/// Demotion only moves one key from a resident list to the front of its ghost list.
proof fn lemma_replace_contains<V>(v: ArcView<V>, adjust_for_b2: bool)
    requires
        keys_distinct(v),
    ensures
        ({
            let r = arc_replace(v, adjust_for_b2);
            &&& forall|x: u64| #[trigger] keys_of(r.t1).contains(x) ==> keys_of(v.t1).contains(x)
            &&& forall|x: u64| #[trigger] keys_of(r.t2).contains(x) ==> keys_of(v.t2).contains(x)
            &&& forall|x: u64| #[trigger] v.b1.contains(x) ==> r.b1.contains(x)
            &&& forall|x: u64| #[trigger] v.b2.contains(x) ==> r.b2.contains(x)
            &&& forall|x: u64| #[trigger] r.b1.contains(x) ==> v.b1.contains(x) || keys_of(v.t1).contains(x)
            &&& forall|x: u64| #[trigger] r.b2.contains(x) ==> v.b2.contains(x) || keys_of(v.t2).contains(x)
            &&& r.c == v.c && r.p == v.p
        }),
{
    let r = arc_replace(v, adjust_for_b2);
    let n1 = v.t1.len();
    if n1 > 0 && (n1 > v.p || (adjust_for_b2 && n1 == v.p)) {
        lemma_keys_remove(v.t1, v.t1.len() - 1);
        lemma_remove_contains(keys_of(v.t1), v.t1.len() - 1);
        assert(v.t1.remove(v.t1.len() - 1) =~= v.t1.drop_last());
        assert(keys_of(v.t1).contains(v.t1.last().0));
        lemma_push_front_contains(v.b1, v.t1.last().0);
    } else if v.t2.len() > 0 {
        lemma_keys_remove(v.t2, v.t2.len() - 1);
        lemma_remove_contains(keys_of(v.t2), v.t2.len() - 1);
        assert(v.t2.remove(v.t2.len() - 1) =~= v.t2.drop_last());
        assert(keys_of(v.t2).contains(v.t2.last().0));
        lemma_push_front_contains(v.b2, v.t2.last().0);
    }
}


/// A key written at the front of T1 or T2 of a consistent state reads back its value.
proof fn lemma_lookup_front<V>(v: ArcView<V>, k: u64, val: V)
    requires
        keys_distinct(v),
        (v.t1.len() > 0 && v.t1[0] == (k, val)) || (v.t2.len() > 0 && v.t2[0] == (k, val)),
    ensures
        arc_lookup(v, k) == Some(val),
{
    lemma_keys_pos(v.t1, k);
    lemma_keys_pos(v.t2, k);
    lemma_key_pos(v.t1, k);
    lemma_key_pos(v.t2, k);
    if v.t1.len() > 0 && v.t1[0] == (k, val) {
        assert(keys_of(v.t1)[0] == k);
    } else {
        assert(keys_of(v.t2)[0] == k);
        assert(keys_of(v.t2).contains(k));
    }
}

pub open spec fn arc_lookup<V>(v: ArcView<V>, k: u64) -> Option<V> {
    if key_pos(v.t1, k) >= 0 {
        Some(v.t1[key_pos(v.t1, k)].1)
    } else if key_pos(v.t2, k) >= 0 {
        Some(v.t2[key_pos(v.t2, k)].1)
    } else {
        None
    }
}

/// State after a read of `k`: a resident key moves to the front of T2.
pub open spec fn arc_get<V>(v: ArcView<V>, k: u64) -> ArcView<V> {
    let i1 = key_pos(v.t1, k);
    let i2 = key_pos(v.t2, k);
    if i1 >= 0 {
        ArcView { t1: v.t1.remove(i1), t2: seq![v.t1[i1]] + v.t2, ..v }
    } else if i2 >= 0 {
        ArcView { t2: seq![v.t2[i2]] + v.t2.remove(i2), ..v }
    } else {
        v
    }
}

/// State after writing `val` under `k`.
pub open spec fn arc_put<V>(v: ArcView<V>, k: u64, val: V) -> ArcView<V> {
    let i1 = key_pos(v.t1, k);
    let i2 = key_pos(v.t2, k);
    let j1 = id_pos(v.b1, k);
    let j2 = id_pos(v.b2, k);
    if i1 >= 0 {
        ArcView { t1: v.t1.remove(i1), t2: seq![(k, val)] + v.t2, ..v }
    } else if i2 >= 0 {
        ArcView { t2: seq![(k, val)] + v.t2.remove(i2), ..v }
    } else if j1 >= 0 {
        arc_put_hit_b1(v, k, val)
    } else if j2 >= 0 {
        arc_put_hit_b2(v, k, val)
    } else {
        arc_put_new(v, k, val)
    }
}

/// A write hitting ghost list B1 grows T1's target and brings the key back into T2.
pub open spec fn arc_put_hit_b1<V>(v: ArcView<V>, k: u64, val: V) -> ArcView<V> {
    let delta = if v.b1.len() >= v.b2.len() { 1 } else { v.b2.len() / v.b1.len() };
    let p = if v.p + delta < v.c { v.p + delta } else { v.c };
    let r = arc_replace(ArcView { p, ..v }, false);
    ArcView { b1: r.b1.remove(id_pos(r.b1, k)), t2: seq![(k, val)] + r.t2, ..r }
}

/// A write hitting ghost list B2 shrinks T1's target and brings the key back into T2.
pub open spec fn arc_put_hit_b2<V>(v: ArcView<V>, k: u64, val: V) -> ArcView<V> {
    let delta = if v.b2.len() >= v.b1.len() { 1 } else { v.b1.len() / v.b2.len() };
    let p = if delta > v.p { 0 } else { v.p - delta };
    let r = arc_replace(ArcView { p, ..v }, true);
    ArcView { b2: r.b2.remove(id_pos(r.b2, k)), t2: seq![(k, val)] + r.t2, ..r }
}

/// A write of a key the cache has never seen (or has forgotten) makes room and enters T1.
pub open spec fn arc_put_new<V>(v: ArcView<V>, k: u64, val: V) -> ArcView<V> {
    let l1 = v.t1.len() + v.b1.len();
    let total = l1 + v.t2.len() + v.b2.len();
    let made_room = if l1 == v.c {
        if v.t1.len() < v.c {
            arc_replace(ArcView { b1: v.b1.drop_last(), ..v }, false)
        } else {
            ArcView { t1: v.t1.drop_last(), ..v }
        }
    } else if total >= v.c {
        if total == 2 * v.c {
            arc_replace(ArcView { b2: v.b2.drop_last(), ..v }, false)
        } else {
            arc_replace(v, false)
        }
    } else {
        v
    };
    ArcView { t1: seq![(k, val)] + made_room.t1, ..made_room }
}

pub trait Cache<K, V>: Sized {
    spec fn cache_wf(&self) -> bool;

    fn get(&mut self, key: &K) -> (r: Option<&V>)
        requires
            old(self).cache_wf(),
        ensures
            final(self).cache_wf(),
    ;

    fn put(&mut self, key: K, val: V)
        requires
            old(self).cache_wf(),
        ensures
            final(self).cache_wf(),
    ;
}

pub struct ARCCache<V> {
    capacity: usize,
    p: usize,
    t1: Vec<(u64, V)>,
    t2: Vec<(u64, V)>,
    b1: Vec<u64>,
    b2: Vec<u64>,
}

impl<V> View for ARCCache<V> {
    type V = ArcView<V>;

    closed spec fn view(&self) -> ArcView<V> {
        ArcView {
            t1: self.t1@,
            t2: self.t2@,
            b1: self.b1@,
            b2: self.b2@,
            p: self.p as int,
            c: self.capacity as int,
        }
    }
}

fn find_entry<V>(list: &Vec<(u64, V)>, key: u64) -> (r: Option<usize>)
    ensures
        match r {
            Some(i) => i == key_pos(list@, key) && i < list@.len() && list@[i as int].0 == key,
            None => key_pos(list@, key) < 0,
        },
{
    proof {
        lemma_key_pos(list@, key);
    }
    let mut i: usize = 0;
    while i < list.len()
        invariant
            i <= list@.len(),
            forall|j: int| 0 <= j < i ==> list@[j].0 != key,
            -1 <= key_pos(list@, key) < list@.len(),
            key_pos(list@, key) >= 0 ==> list@[key_pos(list@, key)].0 == key,
            key_pos(list@, key) >= 0 ==> forall|j: int| 0 <= j < key_pos(list@, key) ==> list@[j].0 != key,
            key_pos(list@, key) < 0 ==> forall|j: int| 0 <= j < list@.len() ==> list@[j].0 != key,
        decreases list@.len() - i,
    {
        if list[i].0 == key {
            return Some(i);
        }
        i = i + 1;
    }
    None
}

fn find_id(list: &Vec<u64>, key: u64) -> (r: Option<usize>)
    ensures
        match r {
            Some(i) => i == id_pos(list@, key) && i < list@.len() && list@[i as int] == key,
            None => id_pos(list@, key) < 0,
        },
{
    proof {
        lemma_id_pos(list@, key);
    }
    let mut i: usize = 0;
    while i < list.len()
        invariant
            i <= list@.len(),
            forall|j: int| 0 <= j < i ==> list@[j] != key,
            -1 <= id_pos(list@, key) < list@.len(),
            id_pos(list@, key) >= 0 ==> list@[id_pos(list@, key)] == key,
            id_pos(list@, key) >= 0 ==> forall|j: int| 0 <= j < id_pos(list@, key) ==> list@[j] != key,
            id_pos(list@, key) < 0 ==> !list@.contains(key),
        decreases list@.len() - i,
    {
        if list[i] == key {
            proof {
                assert(list@.contains(key));
            }
            return Some(i);
        }
        i = i + 1;
    }
    None
}

impl<V> ARCCache<V> {
    pub open spec fn wf(&self) -> bool {
        arc_wf(self@)
    }

    /// Creates an empty cache holding at most `capacity` values.
    pub fn new(capacity: usize) -> (r: Self)
        requires
            0 < capacity <= usize::MAX / 4,
        ensures
            r.wf(),
            r@ == (ArcView::<V> { t1: Seq::empty(), t2: Seq::empty(), b1: Seq::empty(), b2: Seq::empty(), p: 0, c: capacity as int }),
    {
        let r = Self { capacity, p: 0, t1: Vec::new(), t2: Vec::new(), b1: Vec::new(), b2: Vec::new() };
        proof {
            assert(keys_of(r.t1@) =~= Seq::<u64>::empty());
            assert(keys_of(r.t2@) =~= Seq::<u64>::empty());
        }
        r
    }


    /// Returns the value cached for `key`; a resident key moves to the front of T2.
    pub fn get(&mut self, key: &u64) -> (r: Option<&V>)
        requires
            old(self).wf(),
        ensures
            final(self).wf(),
            final(self)@ == arc_get(old(self)@, *key),
            match r {
                Some(x) => arc_lookup(old(self)@, *key) == Some(*x),
                None => arc_lookup(old(self)@, *key) is None,
            },
    {
        let k = *key;
        let ghost v = self@;
        proof {
            lemma_keys_pos(v.t1, k);
            lemma_keys_pos(v.t2, k);
        }
        if let Some(i) = find_entry(&self.t1, k) {
            let e = self.t1.remove(i);
            proof {
                lemma_keys_remove(v.t1, i as int);
                lemma_remove_contains(keys_of(v.t1), i as int);
                lemma_push_front_contains(keys_of(v.t2), k);
                lemma_keys_push(e, v.t2);
            }
            self.t2.insert(0, e);
            proof {
                assert(self.t2@ =~= seq![e] + v.t2);
            }
            return Some(&self.t2[0].1);
        }
        if let Some(i) = find_entry(&self.t2, k) {
            let e = self.t2.remove(i);
            proof {
                lemma_keys_remove(v.t2, i as int);
                lemma_remove_contains(keys_of(v.t2), i as int);
                lemma_push_front_contains(keys_of(v.t2.remove(i as int)), k);
                lemma_keys_push(e, v.t2.remove(i as int));
            }
            self.t2.insert(0, e);
            proof {
                assert(self.t2@ =~= seq![e] + v.t2.remove(i as int));
            }
            return Some(&self.t2[0].1);
        }
        None
    }

    /// Stores `val` under `key`, adapting the target size of T1 on a ghost hit and evicting
    /// as the ARC policy prescribes when a new key arrives.
    pub fn put(&mut self, key: u64, val: V)
        requires
            old(self).wf(),
        ensures
            final(self).wf(),
            final(self)@ == arc_put(old(self)@, key, val),
            arc_lookup(final(self)@, key) == Some(val),
    {
        let ghost v = self@;
        proof {
            lemma_keys_pos(v.t1, key);
            lemma_keys_pos(v.t2, key);
            lemma_id_pos(v.b1, key);
            lemma_id_pos(v.b2, key);
        }
        if let Some(i) = find_entry(&self.t1, key) {
            let _ = self.t1.remove(i);
            proof {
                lemma_keys_remove(v.t1, i as int);
                lemma_remove_contains(keys_of(v.t1), i as int);
                lemma_push_front_contains(keys_of(v.t2), key);
                lemma_keys_push((key, val), v.t2);
            }
            self.t2.insert(0, (key, val));
            proof {
                assert(self.t2@ =~= seq![(key, val)] + v.t2);
            }
        } else if let Some(i) = find_entry(&self.t2, key) {
            let _ = self.t2.remove(i);
            proof {
                lemma_keys_remove(v.t2, i as int);
                lemma_remove_contains(keys_of(v.t2), i as int);
                lemma_push_front_contains(keys_of(v.t2.remove(i as int)), key);
                lemma_keys_push((key, val), v.t2.remove(i as int));
            }
            self.t2.insert(0, (key, val));
            proof {
                assert(self.t2@ =~= seq![(key, val)] + v.t2.remove(i as int));
            }
        } else if let Some(_) = find_id(&self.b1, key) {
            self.put_hit_b1(key, val);
        } else if let Some(_) = find_id(&self.b2, key) {
            self.put_hit_b2(key, val);
        } else {
            self.put_new(key, val);
        }
        proof {
            lemma_lookup_front(self@, key, val);
        }
    }

    fn put_hit_b1(&mut self, key: u64, val: V)
        requires
            old(self).wf(),
            key_pos(old(self)@.t1, key) < 0,
            key_pos(old(self)@.t2, key) < 0,
            id_pos(old(self)@.b1, key) >= 0,
        ensures
            final(self).wf(),
            final(self)@ == arc_put_hit_b1(old(self)@, key, val),
    {
        let ghost v = self@;
        proof {
            lemma_keys_pos(v.t1, key);
            lemma_keys_pos(v.t2, key);
            lemma_id_pos(v.b1, key);
            lemma_id_pos(v.b2, key);
        }
        let delta = if self.b1.len() >= self.b2.len() { 1 } else { self.b2.len() / self.b1.len() };
        self.p = if self.p + delta < self.capacity { self.p + delta } else { self.capacity };
        proof {
            lemma_replace_contains(self@, false);
        }
        self.replace(false);
        let ghost r = self@;
        proof {
            lemma_keys_pos(r.t2, key);
            lemma_id_pos(r.b1, key);
            assert(r.b1.contains(key));
        }
        match find_id(&self.b1, key) {
            Some(j) => {
                let _ = self.b1.remove(j);
                proof {
                    lemma_remove_contains(r.b1, j as int);
                    lemma_push_front_contains(keys_of(r.t2), key);
                    lemma_keys_push((key, val), r.t2);
                }
                self.t2.insert(0, (key, val));
                proof {
                    assert(self.t2@ =~= seq![(key, val)] + r.t2);
                }
            },
            None => {},
        }
    }

    fn put_hit_b2(&mut self, key: u64, val: V)
        requires
            old(self).wf(),
            key_pos(old(self)@.t1, key) < 0,
            key_pos(old(self)@.t2, key) < 0,
            id_pos(old(self)@.b1, key) < 0,
            id_pos(old(self)@.b2, key) >= 0,
        ensures
            final(self).wf(),
            final(self)@ == arc_put_hit_b2(old(self)@, key, val),
    {
        let ghost v = self@;
        proof {
            lemma_keys_pos(v.t1, key);
            lemma_keys_pos(v.t2, key);
            lemma_id_pos(v.b1, key);
            lemma_id_pos(v.b2, key);
        }
            let delta = if self.b2.len() >= self.b1.len() { 1 } else { self.b1.len() / self.b2.len() };
        self.p = if delta > self.p { 0 } else { self.p - delta };
        proof {
            lemma_replace_contains(self@, true);
        }
        self.replace(true);
        let ghost r = self@;
        proof {
            lemma_keys_pos(r.t2, key);
            lemma_id_pos(r.b2, key);
            assert(r.b2.contains(key));
        }
        match find_id(&self.b2, key) {
            Some(j) => {
                let _ = self.b2.remove(j);
                proof {
                    lemma_remove_contains(r.b2, j as int);
                    lemma_push_front_contains(keys_of(r.t2), key);
                    lemma_keys_push((key, val), r.t2);
                }
                self.t2.insert(0, (key, val));
                proof {
                    assert(self.t2@ =~= seq![(key, val)] + r.t2);
                }
            },
            None => {},
        }
    }

    fn put_new(&mut self, key: u64, val: V)
        requires
            old(self).wf(),
            key_pos(old(self)@.t1, key) < 0,
            key_pos(old(self)@.t2, key) < 0,
            id_pos(old(self)@.b1, key) < 0,
            id_pos(old(self)@.b2, key) < 0,
        ensures
            final(self).wf(),
            final(self)@ == arc_put_new(old(self)@, key, val),
    {
        let ghost v = self@;
        proof {
            lemma_keys_pos(v.t1, key);
            lemma_keys_pos(v.t2, key);
            lemma_id_pos(v.b1, key);
            lemma_id_pos(v.b2, key);
        }
        let l1 = self.t1.len() + self.b1.len();
        let total = l1 + self.t2.len() + self.b2.len();
        if l1 == self.capacity {
            if self.t1.len() < self.capacity {
                let _ = self.b1.pop();
                proof {
                    assert(v.b1.remove(v.b1.len() - 1) =~= v.b1.drop_last());
                    lemma_remove_contains(v.b1, v.b1.len() - 1);
                    lemma_replace_contains(self@, false);
                }
                self.replace(false);
            } else {
                let _ = self.t1.pop();
                proof {
                    assert(v.t1.remove(v.t1.len() - 1) =~= v.t1.drop_last());
                    lemma_keys_remove(v.t1, v.t1.len() - 1);
                    lemma_remove_contains(keys_of(v.t1), v.t1.len() - 1);
                }
            }
        } else if total >= self.capacity {
            if total == 2 * self.capacity {
                let _ = self.b2.pop();
                proof {
                    assert(v.b2.remove(v.b2.len() - 1) =~= v.b2.drop_last());
                    lemma_remove_contains(v.b2, v.b2.len() - 1);
                }
            }
            proof {
                lemma_replace_contains(self@, false);
            }
            self.replace(false);
        }
        let ghost m = self@;
        proof {
            lemma_keys_pos(m.t1, key);
            lemma_push_front_contains(keys_of(m.t1), key);
            lemma_keys_push((key, val), m.t1);
        }
        self.t1.insert(0, (key, val));
        proof {
            assert(self.t1@ =~= seq![(key, val)] + m.t1);
        }
    }

    fn replace(&mut self, adjust_for_b2: bool)
        requires
            keys_distinct(old(self)@),
        ensures
            final(self)@ == arc_replace(old(self)@, adjust_for_b2),
            keys_distinct(final(self)@),
    {
        let ghost v = self@;
        let n1 = self.t1.len();
        if n1 > 0 && (n1 > self.p || (adjust_for_b2 && n1 == self.p)) {
            let e = self.t1.pop();
            match e {
                Some(e) => {
                    proof {
                        lemma_keys_remove(v.t1, v.t1.len() - 1);
                        lemma_remove_contains(keys_of(v.t1), v.t1.len() - 1);
                        assert(v.t1.remove(v.t1.len() - 1) =~= v.t1.drop_last());
                        assert(keys_of(v.t1).contains(e.0));
                        lemma_push_front_contains(v.b1, e.0);
                    }
                    self.b1.insert(0, e.0);
                    proof {
                        assert(self.b1@ =~= seq![e.0] + v.b1);
                    }
                },
                None => {},
            }
        } else if self.t2.len() > 0 {
            let e = self.t2.pop();
            match e {
                Some(e) => {
                    proof {
                        lemma_keys_remove(v.t2, v.t2.len() - 1);
                        lemma_remove_contains(keys_of(v.t2), v.t2.len() - 1);
                        assert(v.t2.remove(v.t2.len() - 1) =~= v.t2.drop_last());
                        assert(keys_of(v.t2).contains(e.0));
                        lemma_push_front_contains(v.b2, e.0);
                    }
                    self.b2.insert(0, e.0);
                    proof {
                        assert(self.b2@ =~= seq![e.0] + v.b2);
                    }
                },
                None => {},
            }
        }
    }
}

impl<V> Cache<u64, V> for ARCCache<V> {
    open spec fn cache_wf(&self) -> bool {
        self.wf()
    }

    fn get(&mut self, key: &u64) -> (r: Option<&V>)
        ensures
            final(self)@ == arc_get(old(self)@, *key),
            match r {
                Some(x) => arc_lookup(old(self)@, *key) == Some(*x),
                None => arc_lookup(old(self)@, *key) is None,
            },
    {
        ARCCache::get(self, key)
    }

    fn put(&mut self, key: u64, val: V)
        ensures
            final(self)@ == arc_put(old(self)@, key, val),
    {
        ARCCache::put(self, key, val)
    }
}

} // verus!
