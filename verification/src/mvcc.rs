//! Multi-version concurrency control: every committed write adds a version tagged with the
//! writing transaction, and each transaction reads from the snapshot it began with, so that
//! it never sees uncommitted data or data committed after it began; of two transactions that
//! write the same key, the one that commits second is aborted.

use crate::text::{name_pos, str_eq};
use vstd::prelude::*;

verus! {

/// One committed value of a key, with the transaction that wrote it.
#[derive(Debug, Clone)]
pub struct Version<V> {
    pub tx_id: u64,
    pub value: V,
}

/// The keys of an association list.
pub open spec fn keys_of<X>(es: Seq<(String, X)>) -> Seq<Seq<char>> {
    es.map_values(|e: (String, X)| e.0@)
}

/// No key occurs twice.
pub open spec fn distinct_keys<X>(es: Seq<(String, X)>) -> bool {
    forall|a: int, b: int| 0 <= a < b < es.len() ==> es[a].0@ != es[b].0@
}

pub open spec fn versions_view<V>(vs: Seq<Version<V>>) -> Seq<(u64, V)> {
    vs.map_values(|v: Version<V>| (v.tx_id, v.value))
}

/// The value a transaction with snapshot `snapshot`, which saw the transactions `active` still
/// running when it began, reads from the versions `vs` of a key: the newest version written
/// by a transaction that had committed by then.
pub open spec fn visible<V>(vs: Seq<(u64, V)>, snapshot: u64, active: Set<u64>) -> Option<V>
    decreases vs.len(),
{
    if vs.len() == 0 {
        None
    } else if vs.last().0 <= snapshot && !active.contains(vs.last().0) {
        Some(vs.last().1)
    } else {
        visible(vs.drop_last(), snapshot, active)
    }
}

/// The versions of `k`, none if it was never written.
pub open spec fn versions_of<V>(m: Map<Seq<char>, Seq<(u64, V)>>, k: Seq<char>) -> Seq<(u64, V)> {
    if m.contains_key(k) {
        m[k]
    } else {
        seq![]
    }
}

/// The versions after transaction `id` commits the writes `w`.
pub open spec fn committed<V>(m: Map<Seq<char>, Seq<(u64, V)>>, id: u64, w: Map<Seq<char>, V>) -> Map<
    Seq<char>,
    Seq<(u64, V)>,
> {
    Map::new(
        |k: Seq<char>| m.contains_key(k) || w.contains_key(k),
        |k: Seq<char>|
            if w.contains_key(k) {
                versions_of(m, k).push((id, w[k]))
            } else {
                m[k]
            },
    )
}

/// Some key written by the transaction was last written by a transaction it cannot see: one
/// that began after it, or one that was running when it began.
pub open spec fn conflicts<V>(
    m: Map<Seq<char>, Seq<(u64, V)>>,
    w: Map<Seq<char>, V>,
    snapshot: u64,
    active: Set<u64>,
) -> bool {
    exists|k: Seq<char>| #[trigger] w.contains_key(k) && stale_for(m, k, snapshot, active)
}

/// The position of `key` in an association list, searching from the end.
fn find_key<X>(es: &Vec<(String, X)>, key: &str) -> (r: Option<usize>)
    ensures
        match r {
            Some(i) => i < es@.len() && i as int == name_pos(keys_of(es@), key@),
            None => name_pos(keys_of(es@), key@) < 0,
        },
{
    let ghost ks = keys_of(es@);
    let mut i: usize = es.len();
    proof {
        assert(ks.take(i as int) =~= ks);
    }
    while i > 0
        invariant
            i <= es@.len(),
            ks == keys_of(es@),
            name_pos(ks, key@) == name_pos(ks.take(i as int), key@),
        decreases i,
    {
        assert(ks.take(i as int).last() == es@[i - 1].0@);
        if str_eq(es[i - 1].0.as_str(), key) {
            return Some(i - 1);
        }
        assert(ks.take(i as int).drop_last() =~= ks.take(i as int - 1));
        i = i - 1;
    }
    None
}

/// Whether `x` occurs in `v`.
fn contains_id(v: &Vec<u64>, x: u64) -> (b: bool)
    ensures
        b == v@.contains(x),
{
    let mut i: usize = 0;
    while i < v.len()
        invariant
            i <= v@.len(),
            forall|j: int| 0 <= j < i ==> v@[j] != x,
        decreases v@.len() - i,
    {
        if v[i] == x {
            return true;
        }
        i = i + 1;
    }
    false
}

/// Removes `x` from `v`, whose elements are distinct.
fn remove_id(v: &mut Vec<u64>, x: u64)
    requires
        old(v)@.no_duplicates(),
    ensures
        final(v)@.no_duplicates(),
        final(v)@.to_set() == old(v)@.to_set().remove(x),
{
    let mut i: usize = 0;
    while i < v.len()
        invariant
            v@ == old(v)@,
            old(v)@.no_duplicates(),
            i <= v@.len(),
            forall|j: int| 0 <= j < i ==> v@[j] != x,
        decreases v@.len() - i,
    {
        if v[i] == x {
            let ghost before = v@;
            v.remove(i);
            proof {
                assert(before[i as int] == x);
                assert forall|a: int| 0 <= a < v@.len() implies #[trigger] v@[a] == before[if a < i { a } else { a + 1 }] by {}
                assert forall|y: u64| v@.to_set().contains(y) == before.to_set().remove(x).contains(y) by {
                    if v@.contains(y) {
                        let j = choose|j: int| 0 <= j < v@.len() && v@[j] == y;
                        let w = if j < i { j } else { j + 1 };
                        assert(before[w] == y);
                        assert(w != i);
                        assert(before.contains(y));
                    }
                    if before.contains(y) && y != x {
                        let j = choose|j: int| 0 <= j < before.len() && before[j] == y;
                        assert(j != i);
                        let w = if j < i { j } else { j - 1 };
                        assert(v@[w] == y);
                        assert(v@.contains(y));
                    }
                }
                assert(v@.to_set() =~= before.to_set().remove(x));
                assert forall|a: int, b: int| 0 <= a < v@.len() && 0 <= b < v@.len() && a != b implies v@[a] != v@[b] by {
                    let wa = if a < i { a } else { a + 1 };
                    let wb = if b < i { b } else { b + 1 };
                    assert(v@[a] == before[wa]);
                    assert(v@[b] == before[wb]);
                }
            }
            return;
        }
        i = i + 1;
    }
    proof {
        assert(v@.to_set() =~= old(v)@.to_set().remove(x));
    }
}

proof fn lemma_push_to_set(s: Seq<u64>, x: u64)
    requires
        s.no_duplicates(),
        !s.contains(x),
    ensures
        s.push(x).to_set() == s.to_set().insert(x),
        s.push(x).no_duplicates(),
{
    assert forall|y: u64| s.push(x).to_set().contains(y) == s.to_set().insert(x).contains(y) by {
        if s.push(x).contains(y) {
            let j = choose|j: int| 0 <= j < s.push(x).len() && s.push(x)[j] == y;
            if j < s.len() {
                assert(s[j] == y);
                assert(s.contains(y));
            }
        }
        if s.contains(y) {
            let j = choose|j: int| 0 <= j < s.len() && s[j] == y;
            assert(s.push(x)[j] == y);
            assert(s.push(x).contains(y));
        }
        if y == x {
            assert(s.push(x)[s.len() as int] == x);
            assert(s.push(x).contains(y));
        }
    }
    assert(s.push(x).to_set() =~= s.to_set().insert(x));
    assert forall|a: int, b: int| 0 <= a < s.push(x).len() && 0 <= b < s.push(x).len() && a != b implies s.push(x)[a]
        != s.push(x)[b] by {
        if a == s.len() {
            assert(s.push(x)[b] == s[b]);
        } else if b == s.len() {
            assert(s.push(x)[a] == s[a]);
        }
    }
}

/// A store of versioned values.
pub struct MvccStore<V> {
    next_tx_id: u64,
    active_txs: Vec<u64>,
    data: Vec<(String, Vec<Version<V>>)>,
}

/// A transaction: what it began with, and the writes it will commit.
pub struct Transaction<V> {
    tx_id: u64,
    snapshot_id: u64,
    start_active_txs: Vec<u64>,
    write_buffer: Vec<(String, V)>,
    committed: bool,
}

impl<V> MvccStore<V> {
    /// The versions of every key written, oldest first.
    pub closed spec fn versions(&self) -> Map<Seq<char>, Seq<(u64, V)>> {
        data_map(self.data@)
    }

    /// The transactions begun and not yet finished.
    pub closed spec fn active(&self) -> Set<u64> {
        self.active_txs@.to_set()
    }

    /// The id the next transaction gets.
    pub closed spec fn next_id(&self) -> u64 {
        self.next_tx_id
    }

    pub closed spec fn wf(&self) -> bool {
        &&& self.active_txs@.no_duplicates()
        &&& forall|a: u64| self.active().contains(a) ==> a < self.next_tx_id
        &&& self.next_tx_id >= 1
    }

    /// An empty store; the first transaction gets id 1.
    pub fn new() -> (s: Self)
        ensures
            s.wf(),
            s.versions() == Map::<Seq<char>, Seq<(u64, V)>>::empty(),
            s.active() == Set::<u64>::empty(),
            s.next_id() == 1,
    {
        let s = MvccStore { next_tx_id: 1, active_txs: Vec::new(), data: Vec::new() };
        assert(s.versions() =~= Map::<Seq<char>, Seq<(u64, V)>>::empty());
        assert(s.active() =~= Set::<u64>::empty());
        s
    }

    /// Whether transaction `id` has begun and not yet finished.
    pub fn is_active(&self, id: u64) -> (b: bool)
        ensures
            b == self.active().contains(id),
    {
        contains_id(&self.active_txs, id)
    }

    /// Marks transaction `id` as finished.
    fn end(&mut self, id: u64)
        requires
            old(self).wf(),
        ensures
            final(self).wf(),
            final(self).versions() == old(self).versions(),
            final(self).next_id() == old(self).next_id(),
            final(self).active() == old(self).active().remove(id),
    {
        remove_id(&mut self.active_txs, id);
        proof {
            assert forall|a: u64| self.active().contains(a) implies a < self.next_tx_id by {
                assert(old(self).active().contains(a));
            }
        }
    }

    /// Begins a transaction: it gets the next id, and its snapshot is the store as it is now,
    /// without the transactions still running.
    pub fn begin(&mut self) -> (tx: Transaction<V>)
        requires
            old(self).wf(),
            old(self).next_id() < u64::MAX,
        ensures
            final(self).wf(),
            tx.wf(),
            tx.id() == old(self).next_id(),
            tx.snapshot() == tx.id(),
            tx.start_active() == old(self).active(),
            tx.writes() == Map::<Seq<char>, V>::empty(),
            final(self).next_id() == old(self).next_id() + 1,
            final(self).active() == old(self).active().insert(tx.id()),
            final(self).versions() == old(self).versions(),
    {
        let tx_id = self.next_tx_id;
        self.next_tx_id = self.next_tx_id + 1;
        let mut snapshot: Vec<u64> = Vec::new();
        let mut i: usize = 0;
        while i < self.active_txs.len()
            invariant
                i <= self.active_txs@.len(),
                snapshot@ == self.active_txs@.take(i as int),
            decreases self.active_txs@.len() - i,
        {
            snapshot.push(self.active_txs[i]);
            proof {
                assert(self.active_txs@.take(i as int + 1) =~= self.active_txs@.take(i as int).push(self.active_txs@[i as int]));
            }
            i = i + 1;
        }
        proof {
            assert(self.active_txs@.take(i as int) =~= self.active_txs@);
            if self.active_txs@.contains(tx_id) {
                assert(old(self).active().contains(tx_id));
            }
        }
        let ghost before = self.active_txs@;
        self.active_txs.push(tx_id);
        proof {
            lemma_push_to_set(before, tx_id);
            assert forall|a: u64| self.active().contains(a) implies a < self.next_tx_id by {
                if a != tx_id {
                    assert(before.to_set().contains(a));
                    assert(old(self).active().contains(a));
                }
            }
        }
        let tx = Transaction {
            tx_id,
            snapshot_id: tx_id,
            start_active_txs: snapshot,
            write_buffer: Vec::new(),
            committed: false,
        };
        proof {
            assert(tx.writes() =~= Map::<Seq<char>, V>::empty());
        }
        tx
    }
}

impl<V> Transaction<V> {
    pub closed spec fn id(&self) -> u64 {
        self.tx_id
    }

    pub closed spec fn snapshot(&self) -> u64 {
        self.snapshot_id
    }

    /// The transactions that were running when this one began.
    pub closed spec fn start_active(&self) -> Set<u64> {
        self.start_active_txs@.to_set()
    }

    /// The values this transaction has written and not yet committed.
    pub closed spec fn writes(&self) -> Map<Seq<char>, V> {
        entries_map(self.write_buffer@)
    }

    pub closed spec fn wf(&self) -> bool {
        distinct_keys(self.write_buffer@)
    }

    /// The transaction's id.
    pub fn tx_id(&self) -> (r: u64)
        ensures
            r == self.id(),
    {
        self.tx_id
    }

    /// Buffers a write; it becomes visible to others when the transaction commits.
    pub fn set(&mut self, key: String, val: V)
        requires
            old(self).wf(),
        ensures
            final(self).wf(),
            final(self).writes() == old(self).writes().insert(key@, val),
            final(self).id() == old(self).id(),
            final(self).snapshot() == old(self).snapshot(),
            final(self).start_active() == old(self).start_active(),
    {
        let ghost ks = keys_of(self.write_buffer@);
        proof {
            crate::text::lemma_name_pos(ks, key@);
        }
        match find_key(&self.write_buffer, key.as_str()) {
            Some(i) => {
                let ghost old_wb = self.write_buffer@;
                self.write_buffer.set(i, (key, val));
                proof {
                    assert(keys_of(self.write_buffer@) =~= ks);
                    assert forall|k: Seq<char>| #[trigger] self.writes().contains_key(k) implies self.writes()[k]
                        == old(self).writes().insert(key@, val)[k] by {
                        crate::text::lemma_name_pos(ks, k);
                    }
                    assert(self.writes() =~= old(self).writes().insert(key@, val));
                }
            },
            None => {
                let ghost old_wb = self.write_buffer@;
                let ghost kv = key@;
                self.write_buffer.push((key, val));
                proof {
                    assert(keys_of(self.write_buffer@) =~= ks.push(kv));
                    assert(keys_of(self.write_buffer@).drop_last() =~= ks);
                    assert forall|a: int, b: int| 0 <= a < b < self.write_buffer@.len() implies self.write_buffer@[a].0@
                        != self.write_buffer@[b].0@ by {
                        if b == old_wb.len() {
                            assert(ks[a] == old_wb[a].0@);
                        }
                    }
                    assert forall|k: Seq<char>| #[trigger] self.writes().contains_key(k) implies self.writes()[k]
                        == old(self).writes().insert(kv, val)[k] by {
                        if k != kv {
                            assert(self.write_buffer@[name_pos(ks, k)] == old_wb[name_pos(ks, k)]) by {
                                crate::text::lemma_name_pos(ks, k);
                            }
                        }
                    }
                    assert(self.writes() =~= old(self).writes().insert(kv, val));
                }
            },
        }
    }
}


/// What a transaction reads for `k`: its own write if it made one, else the newest version
/// it can see.
pub open spec fn read<V>(
    m: Map<Seq<char>, Seq<(u64, V)>>,
    w: Map<Seq<char>, V>,
    snapshot: u64,
    active: Set<u64>,
    k: Seq<char>,
) -> Option<V> {
    if w.contains_key(k) {
        Some(w[k])
    } else {
        visible(versions_of(m, k), snapshot, active)
    }
}

/// The last version of `k` was written by a transaction that a transaction with this snapshot
/// and set of running transactions cannot see.
pub open spec fn stale_for<V>(m: Map<Seq<char>, Seq<(u64, V)>>, k: Seq<char>, snapshot: u64, active: Set<u64>) -> bool {
    m.contains_key(k) && m[k].len() > 0 && (m[k].last().0 > snapshot || active.contains(m[k].last().0))
}

/// The writes as a map, from an association list.
pub open spec fn entries_map<V>(es: Seq<(String, V)>) -> Map<Seq<char>, V> {
    Map::new(|k: Seq<char>| name_pos(keys_of(es), k) >= 0, |k: Seq<char>| es[name_pos(keys_of(es), k)].1)
}

impl<V> Transaction<V> {
    /// Reads `key`: the transaction's own write, else the newest version committed by a
    /// transaction that had finished when this one began.
    pub fn get(&self, store: &MvccStore<V>, key: &str) -> (r: Option<V>) where V: Clone
        ensures
            match (r, read(store.versions(), self.writes(), self.snapshot(), self.start_active(), key@)) {
                (Some(v), Some(w)) => cloned(w, v),
                (None, None) => true,
                _ => false,
            },
    {
        match find_key(&self.write_buffer, key) {
            Some(i) => {
                return Some(self.write_buffer[i].1.clone());
            },
            None => {},
        }
        let p = match find_key(&store.data, key) {
            Some(p) => p,
            None => {
                return None;
            },
        };
        let versions = &store.data[p].1;
        let ghost vv = versions_view(versions@);
        let ghost act = self.start_active();
        proof {
            assert(vv.take(vv.len() as int) =~= vv);
            assert(versions_of(store.versions(), key@) == vv);
        }
        let mut j: usize = versions.len();
        proof {
            crate::text::lemma_name_pos(keys_of(self.write_buffer@), key@);
        }
        while j > 0
            invariant
                read(store.versions(), self.writes(), self.snapshot(), self.start_active(), key@) == visible(
                    vv,
                    self.snapshot_id,
                    act,
                ),
                j <= versions@.len(),
                vv == versions_view(versions@),
                act == self.start_active(),
                visible(vv, self.snapshot_id, act) == visible(vv.take(j as int), self.snapshot_id, act),
            decreases j,
        {
            let v = &versions[j - 1];
            assert(vv.take(j as int).last() == (v.tx_id, v.value));
            if v.tx_id <= self.snapshot_id && !contains_id(&self.start_active_txs, v.tx_id) {
                return Some(v.value.clone());
            }
            assert(vv.take(j as int).drop_last() =~= vv.take(j as int - 1));
            j = j - 1;
        }
        None
    }

    /// Commits the writes: refused if a key written here was last written by a transaction
    /// this one cannot see (it began later, or was running when this one began). Either way
    /// the transaction is over.
    pub fn commit(self, store: &mut MvccStore<V>) -> (r: Result<(), &'static str>)
        requires
            old(store).wf(),
            self.wf(),
        ensures
            final(store).wf(),
            final(store).next_id() == old(store).next_id(),
            final(store).active() == old(store).active().remove(self.id()),
            r is Err <==> conflicts(old(store).versions(), self.writes(), self.snapshot(), self.start_active()),
            r is Err ==> r->Err_0@ == "Write-Write Conflict detected. Transaction aborted."@ && final(store).versions()
                == old(store).versions(),
            r is Ok ==> final(store).versions() == committed(old(store).versions(), self.id(), self.writes()),
    {
        let ghost m0 = store.versions();
        let ghost w = self.writes();
        let ghost wb0 = self.write_buffer@;
        let ghost snap = self.snapshot_id;
        let ghost act = self.start_active();
        let mut i: usize = 0;
        while i < self.write_buffer.len()
            invariant
                i <= self.write_buffer@.len(),
                store.wf(),
                store.active() == old(store).active(),
                store.next_id() == old(store).next_id(),
                m0 == store.versions(),
                m0 == old(store).versions(),
                w == self.writes(),
                wb0 == self.write_buffer@,
                snap == self.snapshot_id,
                act == self.start_active(),
                forall|q: int| 0 <= q < i ==> !stale_for(m0, (#[trigger] self.write_buffer@[q]).0@, self.snapshot_id, act),
            decreases self.write_buffer@.len() - i,
        {
            let key = self.write_buffer[i].0.as_str();
            match find_key(&store.data, key) {
                Some(p) => {
                    let versions = &store.data[p].1;
                    if versions.len() > 0 {
                        let latest = &versions[versions.len() - 1];
                        proof {
                            assert(m0[key@] == versions_view(versions@));
                            assert(m0[key@].last().0 == latest.tx_id);
                        }
                        if latest.tx_id > self.snapshot_id || contains_id(&self.start_active_txs, latest.tx_id) {
                            proof {
                                lemma_writes_at(self.write_buffer@, i as int);
                                crate::text::lemma_name_pos(keys_of(store.data@), key@);
                                assert(m0.contains_key(key@));
                                assert(stale_for(m0, key@, snap, act));
                                assert(w.contains_key(key@));
                                assert(conflicts(m0, w, snap, act));
                            }
                            store.end(self.tx_id);
                            return Err("Write-Write Conflict detected. Transaction aborted.");
                        }
                    }
                },
                None => {},
            }
            i = i + 1;
        }
        proof {
            assert forall|k: Seq<char>| #[trigger] w.contains_key(k) implies !stale_for(m0, k, snap, act) by {
                crate::text::lemma_name_pos(keys_of(wb0), k);
                let q = name_pos(keys_of(wb0), k);
                assert(wb0[q].0@ == k);
            }
        }
        let tx_id = self.tx_id;
        let mut wb = self.write_buffer;
        let n_total = wb.len();
        let mut j: usize = 0;
        proof {
            assert(wb0.subrange(0, 0) =~= Seq::<(String, V)>::empty());
            assert(entries_map(wb0.subrange(0, 0)) =~= Map::<Seq<char>, V>::empty());
            assert(committed(m0, tx_id, Map::<Seq<char>, V>::empty()) =~= m0);
        }
        while wb.len() > 0
            invariant
                j <= wb0.len(),
                wb0.len() == n_total,
                wb@ == wb0.subrange(j as int, wb0.len() as int),
                distinct_keys(wb0),
                store.versions() == committed(m0, tx_id, entries_map(wb0.subrange(0, j as int))),
                store.wf(),
                store.active() == old(store).active(),
                store.next_id() == old(store).next_id(),
            decreases wb@.len(),
        {
            assert(j < wb0.len());
            let (key, value) = wb.remove(0);
            let ghost k = key@;
            proof {
                assert(wb0[j as int] == (key, value));
                lemma_entries_push(wb0, j as int);
            }
            let ghost before = store.versions();
            let ghost ver = Version { tx_id, value };
            match find_key(&store.data, key.as_str()) {
                Some(p) => {
                    let ghost old_data = store.data@;
                    proof {
                        crate::text::lemma_name_pos(keys_of(old_data), k);
                        assert(keys_of(old_data)[p as int] == old_data[p as int].0@);
                    }
                    store.data[p].1.push(Version { tx_id, value });
                    proof {
                        lemma_versions_update(old_data, store.data@, p as int, ver);
                    }
                },
                None => {
                    let mut vs: Vec<Version<V>> = Vec::new();
                    vs.push(Version { tx_id, value });
                    let ghost old_data = store.data@;
                    store.data.push((key, vs));
                    proof {
                        lemma_versions_push(old_data, store.data@, k, ver);
                    }
                },
            }
            proof {
                lemma_committed_step(m0, tx_id, entries_map(wb0.subrange(0, j as int)), k, ver.value);
                assert(store.versions() =~= committed(m0, tx_id, entries_map(wb0.subrange(0, j as int + 1))));
            }
            j = j + 1;
        }
        proof {
            assert(wb0.subrange(0, j as int) =~= wb0);
        }
        store.end(tx_id);
        Ok(())
    }

    /// Ends the transaction without committing (what dropping it does): its writes are
    /// discarded.
    pub fn rollback(self, store: &mut MvccStore<V>)
        requires
            old(store).wf(),
        ensures
            final(store).wf(),
            final(store).versions() == old(store).versions(),
            final(store).next_id() == old(store).next_id(),
            final(store).active() == old(store).active().remove(self.id()),
    {
        store.end(self.tx_id);
    }
}

/// The versions held by a list of keyed version lists.
pub open spec fn data_map<V>(d: Seq<(String, Vec<Version<V>>)>) -> Map<Seq<char>, Seq<(u64, V)>> {
    Map::new(
        |k: Seq<char>| name_pos(keys_of(d), k) >= 0,
        |k: Seq<char>| versions_view(d[name_pos(keys_of(d), k)].1@),
    )
}

proof fn lemma_writes_at<V>(wb: Seq<(String, V)>, i: int)
    requires
        0 <= i < wb.len(),
    ensures
        entries_map(wb).contains_key(wb[i].0@),
{
    let ks = keys_of(wb);
    crate::text::lemma_name_pos(ks, wb[i].0@);
    assert(ks[i] == wb[i].0@);
}

proof fn lemma_entries_push<V>(wb: Seq<(String, V)>, j: int)
    requires
        distinct_keys(wb),
        0 <= j < wb.len(),
    ensures
        !entries_map(wb.subrange(0, j)).contains_key(wb[j].0@),
        entries_map(wb.subrange(0, j + 1)) == entries_map(wb.subrange(0, j)).insert(wb[j].0@, wb[j].1),
{
    let a = wb.subrange(0, j);
    let b = wb.subrange(0, j + 1);
    let k = wb[j].0@;
    assert(keys_of(b) =~= keys_of(a).push(k));
    assert(keys_of(b).drop_last() =~= keys_of(a));
    crate::text::lemma_name_pos(keys_of(a), k);
    if name_pos(keys_of(a), k) >= 0 {
        let q = name_pos(keys_of(a), k);
        assert(wb[q].0@ == keys_of(a)[q]);
    }
    assert forall|x: Seq<char>| #[trigger] entries_map(b).contains_key(x) implies entries_map(b)[x] == entries_map(
        a,
    ).insert(k, wb[j].1)[x] by {
        if x != k {
            crate::text::lemma_name_pos(keys_of(a), x);
            assert(b[name_pos(keys_of(a), x)] == a[name_pos(keys_of(a), x)]);
        }
    }
    assert(entries_map(b) =~= entries_map(a).insert(k, wb[j].1));
}

proof fn lemma_versions_update<V>(
    old_data: Seq<(String, Vec<Version<V>>)>,
    new_data: Seq<(String, Vec<Version<V>>)>,
    p: int,
    ver: Version<V>,
)
    requires
        0 <= p < old_data.len(),
        new_data.len() == old_data.len(),
        forall|i: int| 0 <= i < old_data.len() && i != p ==> new_data[i] == old_data[i],
        new_data[p].0 == old_data[p].0,
        new_data[p].1@ == old_data[p].1@.push(ver),
        p == name_pos(keys_of(old_data), old_data[p].0@),
    ensures
        data_map(new_data) == data_map(old_data).insert(
            old_data[p].0@,
            data_map(old_data)[old_data[p].0@].push((ver.tx_id, ver.value)),
        ),
{
    let k = old_data[p].0@;
    assert(keys_of(new_data) =~= keys_of(old_data));
    assert(versions_view(new_data[p].1@) =~= versions_view(old_data[p].1@).push((ver.tx_id, ver.value)));
    assert forall|x: Seq<char>| #[trigger] data_map(new_data).contains_key(x) implies data_map(new_data)[x]
        == data_map(old_data).insert(k, data_map(old_data)[k].push((ver.tx_id, ver.value)))[x] by {
        if x != k {
            crate::text::lemma_name_pos(keys_of(old_data), x);
            let q = name_pos(keys_of(old_data), x);
            assert(keys_of(old_data)[q] == old_data[q].0@);
            assert(q != p);
        }
    }
    assert(data_map(new_data) =~= data_map(old_data).insert(k, data_map(old_data)[k].push((ver.tx_id, ver.value))));
}

proof fn lemma_versions_push<V>(
    old_data: Seq<(String, Vec<Version<V>>)>,
    new_data: Seq<(String, Vec<Version<V>>)>,
    k: Seq<char>,
    ver: Version<V>,
)
    requires
        new_data.len() == old_data.len() + 1,
        forall|i: int| 0 <= i < old_data.len() ==> new_data[i] == old_data[i],
        new_data.last().0@ == k,
        new_data.last().1@ == seq![ver],
    ensures
        data_map(new_data) == data_map(old_data).insert(k, seq![(ver.tx_id, ver.value)]),
{
    assert(keys_of(new_data) =~= keys_of(old_data).push(k));
    assert(keys_of(new_data).drop_last() =~= keys_of(old_data));
    assert(versions_view(new_data.last().1@) =~= seq![(ver.tx_id, ver.value)]);
    assert forall|x: Seq<char>| #[trigger] data_map(new_data).contains_key(x) implies data_map(new_data)[x]
        == data_map(old_data).insert(k, seq![(ver.tx_id, ver.value)])[x] by {
        if x != k {
            crate::text::lemma_name_pos(keys_of(old_data), x);
        }
    }
    assert(data_map(new_data) =~= data_map(old_data).insert(k, seq![(ver.tx_id, ver.value)]));
}

proof fn lemma_committed_step<V>(m: Map<Seq<char>, Seq<(u64, V)>>, id: u64, w: Map<Seq<char>, V>, k: Seq<char>, v: V)
    requires
        !w.contains_key(k),
    ensures
        committed(m, id, w.insert(k, v)) == committed(m, id, w).insert(k, versions_of(committed(m, id, w), k).push((id, v))),
{
    assert(versions_of(committed(m, id, w), k) == versions_of(m, k));
    assert(committed(m, id, w.insert(k, v)) =~= committed(m, id, w).insert(k, versions_of(committed(m, id, w), k).push((id, v))));
}

/// A commit by a transaction that a reader cannot see leaves everything it reads unchanged.
pub proof fn lemma_snapshot_stable<V>(
    m: Map<Seq<char>, Seq<(u64, V)>>,
    c: u64,
    w: Map<Seq<char>, V>,
    snapshot: u64,
    active: Set<u64>,
    k: Seq<char>,
)
    requires
        c > snapshot || active.contains(c),
    ensures
        visible(versions_of(committed(m, c, w), k), snapshot, active) == visible(versions_of(m, k), snapshot, active),
{
    if w.contains_key(k) {
        let vs = versions_of(m, k).push((c, w[k]));
        assert(vs.drop_last() =~= versions_of(m, k));
    }
}

/// A transaction reads back what it wrote itself.
pub proof fn lemma_read_own_write<V>(
    m: Map<Seq<char>, Seq<(u64, V)>>,
    w: Map<Seq<char>, V>,
    snapshot: u64,
    active: Set<u64>,
    k: Seq<char>,
    v: V,
)
    ensures
        read(m, w.insert(k, v), snapshot, active, k) == Some(v),
{
}

/// Every transaction running in the store, other than `tx` itself, is invisible to `tx`,
/// as long as each running transaction older than `tx` was running when `tx` began.
pub open spec fn began_with(running: Set<u64>, tx_id: u64, start_active: Set<u64>) -> bool {
    forall|a: u64| running.contains(a) && a < tx_id ==> start_active.contains(a)
}

/// A transaction still running, other than the reader, is one the reader cannot see; so by
/// `lemma_snapshot_stable` its commit changes nothing the reader reads.
pub proof fn lemma_running_invisible(running: Set<u64>, tx_id: u64, start_active: Set<u64>, c: u64)
    requires
        began_with(running, tx_id, start_active),
        running.contains(c),
        c != tx_id,
    ensures
        c > tx_id || start_active.contains(c),
{
}

/// Beginning a newer transaction, or ending one, keeps the relation of a reader's snapshot to
/// the running transactions.
pub proof fn lemma_began_with_kept(running: Set<u64>, tx_id: u64, start_active: Set<u64>, newer: u64, ended: u64)
    requires
        began_with(running, tx_id, start_active),
        newer > tx_id,
    ensures
        began_with(running.insert(newer), tx_id, start_active),
        began_with(running.remove(ended), tx_id, start_active),
{
}

/// Of two transactions that write the same key, if the second cannot see the first (it
/// began before the first committed), its commit after the first is refused.
pub proof fn lemma_second_writer_conflicts<V>(
    m: Map<Seq<char>, Seq<(u64, V)>>,
    c1: u64,
    w1: Map<Seq<char>, V>,
    w2: Map<Seq<char>, V>,
    snapshot: u64,
    active: Set<u64>,
    k: Seq<char>,
)
    requires
        w1.contains_key(k),
        w2.contains_key(k),
        c1 > snapshot || active.contains(c1),
    ensures
        conflicts(committed(m, c1, w1), w2, snapshot, active),
{
    let m2 = committed(m, c1, w1);
    assert(m2.contains_key(k));
    assert(m2[k].last() == (c1, w1[k]));
    assert(stale_for(m2, k, snapshot, active));
}

} // verus!
