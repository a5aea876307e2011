//! A single Raft consensus node as a deterministic state machine: time advances by
//! `tick`, messages are handled by `step`, and outgoing messages are queued in `messages`.

use std::collections::{HashMap, HashSet};
use vstd::prelude::*;

verus! {

broadcast use vstd::std_specs::hash::group_hash_axioms;

#[derive(Debug, Clone, PartialEq)]
pub struct LogEntry<T> {
    pub term: u64,
    pub data: Option<T>,
}

#[derive(Debug, Clone, PartialEq)]
pub enum Message<T> {
    RequestVote { term: u64, candidate_id: u64, last_log_index: usize, last_log_term: u64 },
    RequestVoteResponse { term: u64, vote_granted: bool },
    AppendEntries {
        term: u64,
        leader_id: u64,
        prev_log_index: usize,
        prev_log_term: u64,
        entries: Vec<LogEntry<T>>,
        leader_commit: usize,
    },
    AppendEntriesResponse { term: u64, success: bool, match_index: usize },
}

#[derive(Debug, Clone, PartialEq)]
pub struct Envelope<T> {
    pub to: u64,
    pub from: u64,
    pub msg: Message<T>,
}

#[derive(Debug, Clone, Copy, PartialEq, Eq, Structural)]
pub enum Role {
    Follower,
    Candidate,
    Leader,
}

pub struct RaftNode<T> {
    pub id: u64,
    pub peers: Vec<u64>,
    pub current_term: u64,
    pub voted_for: Option<u64>,
    /// `log[0]` is a dummy entry so that real entries are indexed from 1.
    pub log: Vec<LogEntry<T>>,
    pub commit_index: usize,
    pub last_applied: usize,
    pub next_index: HashMap<u64, usize>,
    pub match_index: HashMap<u64, usize>,
    pub votes_received: HashSet<u64>,
    pub role: Role,
    pub messages: Vec<Envelope<T>>,
    pub election_elapsed: usize,
    pub heartbeat_elapsed: usize,
    pub election_timeout: usize,
    pub heartbeat_timeout: usize,
}

/// The mathematical state of a node.
#[verifier::ext_equal]
pub struct RaftView<T> {
    pub id: u64,
    pub peers: Seq<u64>,
    pub current_term: u64,
    pub voted_for: Option<u64>,
    pub log: Seq<LogEntry<T>>,
    pub commit_index: usize,
    pub last_applied: usize,
    pub next_index: Map<u64, usize>,
    pub match_index: Map<u64, usize>,
    pub votes_received: Set<u64>,
    pub role: Role,
    pub messages: Seq<Envelope<T>>,
    pub election_elapsed: usize,
    pub heartbeat_elapsed: usize,
    pub election_timeout: usize,
    pub heartbeat_timeout: usize,
}

impl<T> View for RaftNode<T> {
    type V = RaftView<T>;

    open spec fn view(&self) -> RaftView<T> {
        RaftView {
            id: self.id,
            peers: self.peers@,
            current_term: self.current_term,
            voted_for: self.voted_for,
            log: self.log@,
            commit_index: self.commit_index,
            last_applied: self.last_applied,
            next_index: self.next_index@,
            match_index: self.match_index@,
            votes_received: self.votes_received@,
            role: self.role,
            messages: self.messages@,
            election_elapsed: self.election_elapsed,
            heartbeat_elapsed: self.heartbeat_elapsed,
            election_timeout: self.election_timeout,
            heartbeat_timeout: self.heartbeat_timeout,
        }
    }
}

// ---------------------------------------------------------------------------------------------
// Specification of the node's behaviour
// ---------------------------------------------------------------------------------------------

/// Structural well-formedness that every handler relies on and preserves.
pub open spec fn raft_wf<T>(v: RaftView<T>) -> bool {
    &&& v.log.len() >= 1
    &&& v.log.len() <= usize::MAX
    &&& v.peers.len() < usize::MAX
    &&& forall|p: u64| #[trigger] v.next_index.contains_key(p) ==> v.peers.contains(p)
    &&& v.role == Role::Leader ==> forall|p: u64| #[trigger] v.next_index.contains_key(p) ==> 1 <= v.next_index[p]
}

/// Every peer's next index lies inside the log, so that the leader can send each peer the
/// entry before it.
pub open spec fn sendable<T>(v: RaftView<T>) -> bool {
    forall|p: u64| #[trigger] v.next_index.contains_key(p) ==> v.next_index[p] <= v.log.len()
}

pub open spec fn majority<T>(v: RaftView<T>) -> int {
    ((v.peers.len() + 1) / 2 + 1) as int
}

pub open spec fn last_index<T>(v: RaftView<T>) -> int {
    v.log.len() - 1
}

pub open spec fn last_term<T>(v: RaftView<T>) -> u64 {
    v.log[v.log.len() - 1].term
}

/// The index of the next entry to send to `p` (1 when unknown).
pub open spec fn next_of<T>(v: RaftView<T>, p: u64) -> int {
    if v.next_index.contains_key(p) { v.next_index[p] as int } else { 1 }
}

pub open spec fn entry_cloned<T: Clone>(a: LogEntry<T>, b: LogEntry<T>) -> bool {
    &&& a.term == b.term
    &&& match (a.data, b.data) {
        (None, None) => true,
        (Some(x), Some(y)) => cloned(x, y),
        _ => false,
    }
}

pub open spec fn entries_cloned<T: Clone>(a: Seq<LogEntry<T>>, b: Seq<LogEntry<T>>) -> bool {
    &&& a.len() == b.len()
    &&& forall|i: int| 0 <= i < a.len() ==> entry_cloned(#[trigger] a[i], b[i])
}

/// `e` is the AppendEntries message that state `v` sends to peer `p`.
pub open spec fn append_entries_for<T: Clone>(v: RaftView<T>, p: u64, e: Envelope<T>) -> bool {
    let next = next_of(v, p);
    &&& e.to == p
    &&& e.from == v.id
    &&& match e.msg {
        Message::AppendEntries { term, leader_id, prev_log_index, prev_log_term, entries, leader_commit } => {
            &&& term == v.current_term
            &&& leader_id == v.id
            &&& prev_log_index == next - 1
            &&& prev_log_term == v.log[next - 1].term
            &&& entries_cloned(
                if next < v.log.len() { v.log.subrange(next, v.log.len() as int) } else { Seq::empty() },
                entries@,
            )
            &&& leader_commit == v.commit_index
        },
        _ => false,
    }
}

/// `after` extends `before` by one AppendEntries message from `v` to each of `targets`, in order.
pub open spec fn appended_append_entries<T: Clone>(
    v: RaftView<T>,
    before: Seq<Envelope<T>>,
    after: Seq<Envelope<T>>,
    targets: Seq<u64>,
) -> bool {
    &&& after.len() == before.len() + targets.len()
    &&& after.subrange(0, before.len() as int) == before
    &&& forall|i: int| 0 <= i < targets.len() ==> append_entries_for(v, #[trigger] targets[i], after[before.len() + i])
}

pub open spec fn become_follower_spec<T>(v: RaftView<T>) -> RaftView<T> {
    RaftView { role: Role::Follower, votes_received: Set::empty(), election_elapsed: 0, ..v }
}

pub open spec fn peer_map(peers: Seq<u64>, val: usize) -> Map<u64, usize> {
    Map::new(|k: u64| peers.contains(k), |k: u64| val)
}

/// `n` is `v` after becoming leader: indices reset for every peer, then heartbeats to all peers.
pub open spec fn become_leader_post<T: Clone>(v: RaftView<T>, n: RaftView<T>) -> bool {
    let s = RaftView {
        role: Role::Leader,
        next_index: v.next_index.union_prefer_right(peer_map(v.peers, v.log.len() as usize)),
        match_index: v.match_index.union_prefer_right(peer_map(v.peers, 0)),
        ..v
    };
    &&& n == RaftView { messages: n.messages, ..s }
    &&& appended_append_entries(s, v.messages, n.messages, v.peers)
}

pub open spec fn request_vote_msgs<T>(c: RaftView<T>) -> Seq<Envelope<T>> {
    c.peers.map_values(|p: u64| Envelope {
        to: p,
        from: c.id,
        msg: Message::RequestVote {
            term: c.current_term,
            candidate_id: c.id,
            last_log_index: (c.log.len() - 1) as usize,
            last_log_term: last_term(c),
        },
    })
}

/// `n` is `v` after starting an election.
pub open spec fn become_candidate_post<T: Clone>(v: RaftView<T>, n: RaftView<T>) -> bool {
    let c = RaftView {
        role: Role::Candidate,
        current_term: (v.current_term + 1) as u64,
        voted_for: Some(v.id),
        votes_received: set![v.id],
        election_elapsed: 0,
        ..v
    };
    if 1 >= majority(c) {
        become_leader_post(c, n)
    } else {
        n == RaftView { messages: v.messages + request_vote_msgs(c), ..c }
    }
}

pub open spec fn vote_granted_spec<T>(v: RaftView<T>, from: u64, term: u64, last_log_index: usize, last_log_term: u64) -> bool {
    &&& term >= v.current_term
    &&& (v.voted_for is None || v.voted_for == Some(from))
    &&& (last_log_term > last_term(v) || (last_log_term == last_term(v) && last_log_index >= last_index(v)))
}

pub open spec fn handle_request_vote_post<T>(
    v: RaftView<T>,
    n: RaftView<T>,
    from: u64,
    term: u64,
    last_log_index: usize,
    last_log_term: u64,
) -> bool {
    let granted = vote_granted_spec(v, from, term, last_log_index, last_log_term);
    n == RaftView {
        voted_for: if granted { Some(from) } else { v.voted_for },
        election_elapsed: if granted { 0 } else { v.election_elapsed },
        messages: v.messages.push(Envelope {
            to: from,
            from: v.id,
            msg: Message::RequestVoteResponse { term: v.current_term, vote_granted: granted },
        }),
        ..v
    }
}

pub open spec fn handle_request_vote_response_post<T: Clone>(v: RaftView<T>, n: RaftView<T>, from: u64, vote_granted: bool) -> bool {
    if !vote_granted {
        n == v
    } else {
        let w = RaftView { votes_received: v.votes_received.insert(from), ..v };
        if w.votes_received.len() >= majority(w) {
            become_leader_post(w, n)
        } else {
            n == w
        }
    }
}

/// The log after reconciling `entries` that follow index `prev`: the first conflicting
/// entry and everything after it is replaced, missing entries are appended.
pub open spec fn merge_from<T>(log: Seq<LogEntry<T>>, prev: int, entries: Seq<LogEntry<T>>, i: int) -> Seq<LogEntry<T>>
    decreases entries.len() - i,
{
    if i >= entries.len() {
        log
    } else if prev + 1 + i < log.len() {
        if log[prev + 1 + i].term != entries[i].term {
            log.take(prev + 1 + i) + entries.skip(i)
        } else {
            merge_from(log, prev, entries, i + 1)
        }
    } else {
        log + entries.skip(i)
    }
}

pub open spec fn response_to<T>(v: RaftView<T>, to: u64, success: bool, match_index: usize) -> Envelope<T> {
    Envelope { to, from: v.id, msg: Message::AppendEntriesResponse { term: v.current_term, success, match_index } }
}

pub open spec fn handle_append_entries_post<T>(
    v: RaftView<T>,
    n: RaftView<T>,
    from: u64,
    term: u64,
    prev_log_index: usize,
    prev_log_term: u64,
    entries: Seq<LogEntry<T>>,
    leader_commit: usize,
) -> bool {
    let v1 = if term == v.current_term && v.role == Role::Candidate { become_follower_spec(v) } else { v };
    if term < v1.current_term {
        n == RaftView { messages: v1.messages.push(response_to(v1, from, false, 0)), ..v1 }
    } else {
        let v2 = RaftView { election_elapsed: 0, ..v1 };
        if prev_log_index >= v2.log.len() || v2.log[prev_log_index as int].term != prev_log_term {
            n == RaftView { messages: v2.messages.push(response_to(v2, from, false, 0)), ..v2 }
        } else {
            let mi = (prev_log_index + entries.len()) as usize;
            n == RaftView {
                log: merge_from(v2.log, prev_log_index as int, entries, 0),
                commit_index: if leader_commit > v2.commit_index {
                    if leader_commit < mi { leader_commit } else { mi }
                } else {
                    v2.commit_index
                },
                messages: v2.messages.push(response_to(v2, from, true, mi)),
                ..v2
            }
        }
    }
}

/// Number of nodes (this one included) whose match index reaches `idx`, counting `peers` in order.
pub open spec fn replicated_count(peers: Seq<u64>, match_index: Map<u64, usize>, idx: int) -> int
    decreases peers.len(),
{
    if peers.len() == 0 {
        1
    } else {
        let p = peers.last();
        let m = if match_index.contains_key(p) { match_index[p] as int } else { 0 };
        replicated_count(peers.drop_last(), match_index, idx) + if m >= idx { 1int } else { 0int }
    }
}

/// The highest index in `(commit_index, hi]` of the current term that a majority has replicated.
pub open spec fn commit_candidate<T>(v: RaftView<T>, hi: int) -> Option<int>
    decreases hi - v.commit_index,
{
    if hi <= v.commit_index {
        None
    } else if v.log[hi].term == v.current_term && replicated_count(v.peers, v.match_index, hi) >= majority(v) {
        Some(hi)
    } else {
        commit_candidate(v, hi - 1)
    }
}

/// The leader after `from` acknowledged its log up to `match_index`.
pub open spec fn after_ack<T>(v: RaftView<T>, from: u64, match_index: usize) -> RaftView<T> {
    RaftView {
        match_index: if v.match_index.contains_key(from) {
            v.match_index.insert(from, if v.match_index[from] >= match_index { v.match_index[from] } else { match_index })
        } else {
            v.match_index
        },
        next_index: if v.next_index.contains_key(from) {
            v.next_index.insert(from, (match_index + 1) as usize)
        } else {
            v.next_index
        },
        ..v
    }
}

/// The leader after `from` refused its entries: the next index of `from` moves back one.
pub open spec fn after_nack<T>(v: RaftView<T>, from: u64) -> RaftView<T> {
    RaftView {
        next_index: v.next_index.insert(from, if v.next_index[from] > 1 { (v.next_index[from] - 1) as usize } else { v.next_index[from] }),
        ..v
    }
}

/// What a leader's handling of a response from `from` needs: the next index after an
/// acknowledgement fits in a `usize`, and whenever the handling sends entries (to every peer
/// after it commits, or back to `from` after a refusal), their next indices lie inside the log.
pub open spec fn response_ok<T>(v: RaftView<T>, from: u64, success: bool, match_index: usize) -> bool {
    if success {
        &&& v.next_index.contains_key(from) ==> match_index < usize::MAX
        &&& commit_candidate(after_ack(v, from, match_index), v.log.len() - 1) is Some ==> sendable(
            after_ack(v, from, match_index),
        )
    } else {
        v.next_index.contains_key(from) ==> after_nack(v, from).next_index[from] <= v.log.len()
    }
}

pub open spec fn handle_append_entries_response_post<T: Clone>(
    v: RaftView<T>,
    n: RaftView<T>,
    from: u64,
    success: bool,
    match_index: usize,
) -> bool {
    if success {
        let v1 = after_ack(v, from, match_index);
        match commit_candidate(v1, v1.log.len() - 1) {
            Some(k) => {
                let v2 = RaftView { commit_index: k as usize, ..v1 };
                &&& n == RaftView { messages: n.messages, ..v2 }
                &&& appended_append_entries(v2, v1.messages, n.messages, v1.peers)
            },
            None => n == v1,
        }
    } else if v.next_index.contains_key(from) {
        let v1 = after_nack(v, from);
        &&& n == RaftView { messages: n.messages, ..v1 }
        &&& appended_append_entries(v1, v1.messages, n.messages, seq![from])
    } else {
        n == v
    }
}

pub open spec fn message_term<T>(m: Message<T>) -> u64 {
    match m {
        Message::RequestVote { term, .. } => term,
        Message::RequestVoteResponse { term, .. } => term,
        Message::AppendEntries { term, .. } => term,
        Message::AppendEntriesResponse { term, .. } => term,
    }
}

/// What a message must satisfy for the node to handle it: the log stays addressable by
/// `usize`, and a response the leader handles leaves it able to send what it sends.
pub open spec fn step_ok<T>(v: RaftView<T>, env: Envelope<T>) -> bool {
    &&& raft_wf(v)
    &&& match env.msg {
        Message::AppendEntries { entries, .. } => v.log.len() + entries@.len() <= usize::MAX,
        Message::AppendEntriesResponse { term, success, match_index } => term == v.current_term && v.role
            == Role::Leader ==> response_ok(v, env.from, success, match_index),
        _ => true,
    }
}

/// What a tick needs: its counters and the term can grow, and a heartbeat it sends reaches
/// peers whose next indices lie inside the log.
pub open spec fn tick_ok<T>(v: RaftView<T>) -> bool {
    &&& raft_wf(v)
    &&& v.election_elapsed < usize::MAX
    &&& v.heartbeat_elapsed < usize::MAX
    &&& v.current_term < u64::MAX
    &&& v.role == Role::Leader && v.heartbeat_elapsed + 1 >= v.heartbeat_timeout ==> sendable(v)
}

pub open spec fn step_post<T: Clone>(v: RaftView<T>, n: RaftView<T>, env: Envelope<T>) -> bool {
    let t = message_term(env.msg);
    let v1 = if t > v.current_term {
        become_follower_spec(RaftView { current_term: t, voted_for: None, ..v })
    } else {
        v
    };
    match env.msg {
        Message::RequestVote { term, candidate_id, last_log_index, last_log_term } =>
            handle_request_vote_post(v1, n, env.from, term, last_log_index, last_log_term),
        Message::RequestVoteResponse { term, vote_granted } =>
            if term == v1.current_term && v1.role == Role::Candidate {
                handle_request_vote_response_post(v1, n, env.from, vote_granted)
            } else {
                n == v1
            },
        Message::AppendEntries { term, leader_id, prev_log_index, prev_log_term, entries, leader_commit } =>
            handle_append_entries_post(v1, n, env.from, term, prev_log_index, prev_log_term, entries@, leader_commit),
        Message::AppendEntriesResponse { term, success, match_index } =>
            if term == v1.current_term && v1.role == Role::Leader {
                handle_append_entries_response_post(v1, n, env.from, success, match_index)
            } else {
                n == v1
            },
    }
}

pub open spec fn tick_post<T: Clone>(v: RaftView<T>, n: RaftView<T>) -> bool {
    if v.role == Role::Leader {
        let h = v.heartbeat_elapsed + 1;
        if h >= v.heartbeat_timeout {
            let s = RaftView { heartbeat_elapsed: 0, ..v };
            &&& n == RaftView { messages: n.messages, ..s }
            &&& appended_append_entries(s, v.messages, n.messages, v.peers)
        } else {
            n == RaftView { heartbeat_elapsed: h as usize, ..v }
        }
    } else {
        let e = v.election_elapsed + 1;
        if e >= v.election_timeout {
            become_candidate_post(RaftView { election_elapsed: 0, ..v }, n)
        } else {
            n == RaftView { election_elapsed: e as usize, ..v }
        }
    }
}

pub trait Consensus<T>: Sized {
    spec fn can_step(&self, env: Envelope<T>) -> bool;

    spec fn can_tick(&self) -> bool;

    /// Processes an incoming message.
    fn step(&mut self, env: Envelope<T>)
        requires
            old(self).can_step(env),
    ;

    /// Advances the logical clock by one tick.
    fn tick(&mut self)
        requires
            old(self).can_tick(),
    ;
}

/// Copies one log entry, cloning its payload.
fn copy_entry<T: Clone>(e: &LogEntry<T>) -> (r: LogEntry<T>)
    ensures
        entry_cloned(*e, r),
{
    let data = match &e.data {
        Some(d) => Some(d.clone()),
        None => None,
    };
    LogEntry { term: e.term, data }
}

impl<T: Clone> RaftNode<T> {
    pub fn new(id: u64, peers: Vec<u64>, election_timeout: usize, heartbeat_timeout: usize) -> (r: Self)
        ensures
            r@ == (RaftView {
                id,
                peers: peers@,
                current_term: 0,
                voted_for: None,
                log: seq![LogEntry::<T> { term: 0, data: None }],
                commit_index: 0,
                last_applied: 0,
                next_index: Map::empty(),
                match_index: Map::empty(),
                votes_received: Set::empty(),
                role: Role::Follower,
                messages: Seq::empty(),
                election_elapsed: 0,
                heartbeat_elapsed: 0,
                election_timeout,
                heartbeat_timeout,
            }),
    {
        let mut log: Vec<LogEntry<T>> = Vec::new();
        log.push(LogEntry { term: 0, data: None });
        let r = Self {
            id,
            peers,
            current_term: 0,
            voted_for: None,
            log,
            commit_index: 0,
            last_applied: 0,
            next_index: HashMap::new(),
            match_index: HashMap::new(),
            votes_received: HashSet::new(),
            role: Role::Follower,
            messages: Vec::new(),
            election_elapsed: 0,
            heartbeat_elapsed: 0,
            election_timeout,
            heartbeat_timeout,
        };
        assert(r@.log =~= seq![LogEntry::<T> { term: 0, data: None }]);
        r
    }

    fn send(&mut self, to: u64, msg: Message<T>)
        ensures
            final(self)@ == (RaftView {
                messages: old(self)@.messages.push(Envelope { to, from: old(self).id, msg }),
                ..old(self)@
            }),
    {
        self.messages.push(Envelope { to, from: self.id, msg });
    }

    pub fn become_follower(&mut self)
        ensures
            final(self)@ == become_follower_spec(old(self)@),
    {
        self.role = Role::Follower;
        self.votes_received.clear();
        self.election_elapsed = 0;
    }

    fn send_append_entries(&mut self, peer: u64)
        requires
            1 <= next_of(old(self)@, peer) <= old(self)@.log.len(),
        ensures
            final(self)@ == (RaftView { messages: final(self)@.messages, ..old(self)@ }),
            appended_append_entries(old(self)@, old(self)@.messages, final(self)@.messages, seq![peer]),
    {
        let next_idx: usize = match self.next_index.get(&peer) {
            Some(n) => *n,
            None => 1,
        };
        let prev_log_index = next_idx - 1;
        let prev_log_term = self.log[prev_log_index].term;
        let mut entries: Vec<LogEntry<T>> = Vec::new();
        if next_idx < self.log.len() {
            let mut j = next_idx;
            while j < self.log.len()
                invariant
                    next_idx <= j <= self.log@.len(),
                    entries@.len() == j - next_idx,
                    forall|k: int| 0 <= k < entries@.len() ==> entry_cloned(#[trigger] self.log@[next_idx + k], entries@[k]),
                decreases self.log@.len() - j,
            {
                let e = copy_entry(&self.log[j]);
                entries.push(e);
                j = j + 1;
            }
        }
        let ghost v = self@;
        let ghost ents = entries@;
        self.send(peer, Message::AppendEntries {
            term: self.current_term,
            leader_id: self.id,
            prev_log_index,
            prev_log_term,
            entries,
            leader_commit: self.commit_index,
        });
        proof {
            let suffix = if next_idx < v.log.len() { v.log.subrange(next_idx as int, v.log.len() as int) } else { Seq::empty() };
            assert(suffix.len() == ents.len());
            assert forall|i: int| 0 <= i < suffix.len() implies entry_cloned(#[trigger] suffix[i], ents[i]) by {
                assert(suffix[i] == v.log[next_idx + i]);
            }
            assert(entries_cloned(suffix, ents));
            assert(self@.messages.subrange(0, v.messages.len() as int) =~= v.messages);
            assert(append_entries_for(v, seq![peer][0], self@.messages[v.messages.len() as int]));
        }
    }


    fn become_leader(&mut self)
        requires
            raft_wf(old(self)@),
        ensures
            become_leader_post(old(self)@, final(self)@),
            raft_wf(final(self)@),
    {
        let ghost v = self@;
        self.role = Role::Leader;
        let last_log_index = self.log.len() - 1;
        let mut i: usize = 0;
        while i < self.peers.len()
            invariant
                raft_wf(v),
                i <= self.peers@.len(),
                last_log_index + 1 == v.log.len(),
                self@ == (RaftView {
                    role: Role::Leader,
                    next_index: v.next_index.union_prefer_right(peer_map(v.peers.take(i as int), v.log.len() as usize)),
                    match_index: v.match_index.union_prefer_right(peer_map(v.peers.take(i as int), 0)),
                    ..v
                }),
            decreases self.peers@.len() - i,
        {
            let peer = self.peers[i];
            self.next_index.insert(peer, last_log_index + 1);
            self.match_index.insert(peer, 0);
            proof {
                let t = v.peers.take(i + 1);
                assert(t =~= v.peers.take(i as int).push(peer));
                assert forall|k: u64| t.contains(k) <==> (v.peers.take(i as int).contains(k) || k == peer) by {
                    if t.contains(k) {
                        let j = choose|j: int| 0 <= j < t.len() && t[j] == k;
                        if j < i {
                            assert(v.peers.take(i as int)[j] == k);
                        }
                    }
                    if v.peers.take(i as int).contains(k) {
                        let j = choose|j: int| 0 <= j < i && v.peers.take(i as int)[j] == k;
                        assert(t[j] == k);
                    }
                    if k == peer {
                        assert(t[i as int] == k);
                    }
                }
                assert(self@.next_index =~= v.next_index.union_prefer_right(peer_map(t, v.log.len() as usize)));
                assert(self@.match_index =~= v.match_index.union_prefer_right(peer_map(t, 0)));
            }
            i = i + 1;
        }
        proof {
            assert(v.peers.take(v.peers.len() as int) =~= v.peers);
            assert forall|p: u64| #[trigger] self@.next_index.contains_key(p) implies self@.peers.contains(p)
                && 1 <= self@.next_index[p] <= self@.log.len() by {
                if !v.peers.contains(p) {
                    assert(v.next_index.contains_key(p));
                }
            }
        }
        self.bcast_append_entries();
    }

    pub fn become_candidate(&mut self)
        requires
            raft_wf(old(self)@),
            old(self).current_term < u64::MAX,
        ensures
            become_candidate_post(old(self)@, final(self)@),
            raft_wf(final(self)@),
    {
        let ghost v = self@;
        self.role = Role::Candidate;
        self.current_term = self.current_term + 1;
        self.voted_for = Some(self.id);
        self.votes_received.clear();
        self.votes_received.insert(self.id);
        self.election_elapsed = 0;
        let ghost c = self@;
        assert(c.next_index == v.next_index);
        assert(raft_wf(c));
        assert(c.votes_received =~= set![v.id]);
        assert(c.votes_received.len() == 1) by {
            assert(set![v.id] =~= Set::<u64>::empty().insert(v.id));
        }
        if self.votes_received.len() >= (self.peers.len() + 1) / 2 + 1 {
            self.become_leader();
            return;
        }
        let last_log_index = self.log.len() - 1;
        let last_log_term = self.log[last_log_index].term;
        let mut i: usize = 0;
        while i < self.peers.len()
            invariant
                raft_wf(c),
                c.role == Role::Candidate,
                i <= self.peers@.len(),
                last_log_index == c.log.len() - 1,
                last_log_term == last_term(c),
                self@ == (RaftView { messages: c.messages + request_vote_msgs(c).take(i as int), ..c }),
            decreases self.peers@.len() - i,
        {
            let peer = self.peers[i];
            self.send(peer, Message::RequestVote {
                term: self.current_term,
                candidate_id: self.id,
                last_log_index,
                last_log_term,
            });
            proof {
                assert(request_vote_msgs(c).take(i + 1) =~= request_vote_msgs(c).take(i as int).push(request_vote_msgs(c)[i as int]));
                assert(self@.messages =~= c.messages + request_vote_msgs(c).take(i + 1));
            }
            i = i + 1;
        }
        proof {
            assert(request_vote_msgs(c).take(self.peers@.len() as int) =~= request_vote_msgs(c));
        }
    }

    fn handle_request_vote(&mut self, from: u64, term: u64, _candidate_id: u64, last_log_index: usize, last_log_term: u64)
        requires
            raft_wf(old(self)@),
        ensures
            handle_request_vote_post(old(self)@, final(self)@, from, term, last_log_index, last_log_term),
            raft_wf(final(self)@),
    {
        let mut vote_granted = false;
        if term >= self.current_term {
            let my_last_log_index = self.log.len() - 1;
            let my_last_log_term = self.log[my_last_log_index].term;
            let is_up_to_date = last_log_term > my_last_log_term
                || (last_log_term == my_last_log_term && last_log_index >= my_last_log_index);
            let can_vote = match self.voted_for {
                None => true,
                Some(id) => id == from,
            };
            if can_vote && is_up_to_date {
                vote_granted = true;
                self.voted_for = Some(from);
                self.election_elapsed = 0;
            }
        }
        let t = self.current_term;
        self.send(from, Message::RequestVoteResponse { term: t, vote_granted });
    }

    fn handle_request_vote_response(&mut self, from: u64, vote_granted: bool)
        requires
            raft_wf(old(self)@),
        ensures
            handle_request_vote_response_post(old(self)@, final(self)@, from, vote_granted),
            raft_wf(final(self)@),
    {
        if vote_granted {
            self.votes_received.insert(from);
            assert(self@.next_index == old(self)@.next_index);
            assert(raft_wf(self@));
            let majority = (self.peers.len() + 1) / 2 + 1;
            if self.votes_received.len() >= majority {
                self.become_leader();
            }
        }
    }


    fn handle_append_entries(
        &mut self,
        from: u64,
        term: u64,
        _leader_id: u64,
        prev_log_index: usize,
        prev_log_term: u64,
        entries: Vec<LogEntry<T>>,
        leader_commit: usize,
    )
        requires
            raft_wf(old(self)@),
            old(self)@.log.len() + entries@.len() <= usize::MAX,
        ensures
            handle_append_entries_post(old(self)@, final(self)@, from, term, prev_log_index, prev_log_term, entries@, leader_commit),
            raft_wf(final(self)@),
    {
        let ghost ents = entries@;
        let mut entries = entries;
        if term == self.current_term && self.role == Role::Candidate {
            self.become_follower();
        }
        if term < self.current_term {
            let t = self.current_term;
            self.send(from, Message::AppendEntriesResponse { term: t, success: false, match_index: 0 });
            return;
        }
        self.election_elapsed = 0;
        if prev_log_index >= self.log.len() || self.log[prev_log_index].term != prev_log_term {
            let t = self.current_term;
            self.send(from, Message::AppendEntriesResponse { term: t, success: false, match_index: 0 });
            return;
        }
        let ghost v2 = self@;
        let ghost log0 = self.log@;
        let n_entries = entries.len();
        let mut i: usize = 0;
        while i < entries.len()
            invariant_except_break
                self.log@ == log0,
                merge_from(log0, prev_log_index as int, ents, 0) == merge_from(log0, prev_log_index as int, ents, i as int),
            invariant
                entries@ == ents,
                i <= ents.len(),
                prev_log_index < log0.len(),
                log0.len() + ents.len() <= usize::MAX,
                self@ == (RaftView { log: self.log@, ..v2 }),
            ensures
                self.log@ + ents.skip(i as int) == merge_from(log0, prev_log_index as int, ents, 0),
                prev_log_index + 1 <= self.log@.len() <= log0.len(),
            decreases ents.len() - i,
        {
            let idx = prev_log_index + 1 + i;
            if idx < self.log.len() {
                if self.log[idx].term != entries[i].term {
                    self.log.truncate(idx);
                    break;
                }
            } else {
                break;
            }
            i = i + 1;
        }
        proof {
            if i as int == ents.len() {
                assert(ents.skip(i as int) =~= Seq::<LogEntry<T>>::empty());
                assert(self.log@ + ents.skip(i as int) =~= self.log@);
            }
        }
        if i < entries.len() {
            let mut tail = entries.split_off(i);
            self.log.append(&mut tail);
        } else {
            proof {
                assert(self.log@ + ents.skip(i as int) =~= self.log@);
            }
        }
        let match_index = prev_log_index + n_entries;
        if leader_commit > self.commit_index {
            self.commit_index = if leader_commit < match_index { leader_commit } else { match_index };
        }
        let t = self.current_term;
        self.send(from, Message::AppendEntriesResponse { term: t, success: true, match_index });
    }

    fn handle_append_entries_response(&mut self, from: u64, success: bool, match_index: usize)
        requires
            raft_wf(old(self)@),
            old(self).role == Role::Leader,
            response_ok(old(self)@, from, success, match_index),
        ensures
            handle_append_entries_response_post(old(self)@, final(self)@, from, success, match_index),
            raft_wf(final(self)@),
    {
        if success {
            let cur = match self.match_index.get(&from) {
                Some(m) => Some(*m),
                None => None,
            };
            if let Some(m) = cur {
                let nm = if m >= match_index { m } else { match_index };
                self.match_index.insert(from, nm);
            }
            if self.next_index.contains_key(&from) {
                self.next_index.insert(from, match_index + 1);
            }
            let ghost v1 = self@;
            proof {
                assert(v1 == after_ack(old(self)@, from, match_index));
                assert forall|p: u64| #[trigger] v1.next_index.contains_key(p) implies v1.peers.contains(p)
                    && 1 <= v1.next_index[p] by {
                    if p != from {
                        assert(old(self)@.next_index.contains_key(p));
                    } else {
                        assert(old(self)@.next_index.contains_key(p));
                    }
                }
            }
            let mut n: usize = self.log.len() - 1;
            while n > self.commit_index
                invariant_except_break
                    self@ == v1,
                    commit_candidate(v1, v1.log.len() - 1) == commit_candidate(v1, n as int),
                invariant
                    raft_wf(v1),
                    v1.role == Role::Leader,
                    n < v1.log.len(),
                    commit_candidate(v1, v1.log.len() - 1) is Some ==> sendable(v1),
                ensures
                    commit_candidate(v1, v1.log.len() - 1) is None ==> self@ == v1,
                    commit_candidate(v1, v1.log.len() - 1) matches Some(k) ==> {
                        let v2 = RaftView { commit_index: k as usize, ..v1 };
                        &&& self@ == (RaftView { messages: self@.messages, ..v2 })
                        &&& appended_append_entries(v2, v1.messages, self@.messages, v1.peers)
                    },
                decreases n,
            {
                if self.log[n].term == self.current_term {
                    let mut count: usize = 1;
                    let mut j: usize = 0;
                    while j < self.peers.len()
                        invariant
                            self@ == v1,
                            raft_wf(v1),
                            j <= v1.peers.len(),
                            count == replicated_count(v1.peers.take(j as int), v1.match_index, n as int),
                            count <= j + 1,
                        decreases v1.peers.len() - j,
                    {
                        let peer = self.peers[j];
                        let m: usize = match self.match_index.get(&peer) {
                            Some(x) => *x,
                            None => 0,
                        };
                        proof {
                            assert(v1.peers.take(j + 1).drop_last() =~= v1.peers.take(j as int));
                            assert(v1.peers.take(j + 1).last() == peer);
                        }
                        if m >= n {
                            count = count + 1;
                        }
                        j = j + 1;
                    }
                    proof {
                        assert(v1.peers.take(v1.peers.len() as int) =~= v1.peers);
                    }
                    let majority = (self.peers.len() + 1) / 2 + 1;
                    if count >= majority {
                        self.commit_index = n;
                        proof {
                            let v2 = RaftView { commit_index: n, ..v1 };
                            assert(self@ == v2);
                            assert(raft_wf(v2));
                            assert(commit_candidate(v1, n as int) == Some(n as int));
                            assert(sendable(v2));
                        }
                        self.bcast_append_entries();
                        break;
                    }
                }
                n = n - 1;
            }
        } else {
            let cur = match self.next_index.get(&from) {
                Some(x) => Some(*x),
                None => None,
            };
            if let Some(nx) = cur {
                proof {
                    assert(old(self)@.next_index.contains_key(from));
                    assert(1 <= nx);
                }
                if nx > 1 {
                    self.next_index.insert(from, nx - 1);
                } else {
                    proof {
                        assert(self@.next_index =~= self@.next_index.insert(from, nx));
                    }
                }
                proof {
                    assert(self@.next_index.contains_key(from));
                    assert(self@ == after_nack(old(self)@, from));
                }
                self.send_append_entries(from);
            }
        }
    }


    pub fn tick_internal(&mut self)
        requires
            tick_ok(old(self)@),
        ensures
            tick_post(old(self)@, final(self)@),
            raft_wf(final(self)@),
    {
        match self.role {
            Role::Follower | Role::Candidate => {
                self.election_elapsed = self.election_elapsed + 1;
                if self.election_elapsed >= self.election_timeout {
                    self.election_elapsed = 0;
                    assert(self@.next_index == old(self)@.next_index);
                    self.become_candidate();
                }
            },
            Role::Leader => {
                self.heartbeat_elapsed = self.heartbeat_elapsed + 1;
                if self.heartbeat_elapsed >= self.heartbeat_timeout {
                    self.heartbeat_elapsed = 0;
                    self.bcast_append_entries();
                }
            },
        }
    }

    pub fn step_internal(&mut self, env: Envelope<T>)
        requires
            step_ok(old(self)@, env),
        ensures
            step_post(old(self)@, final(self)@, env),
            raft_wf(final(self)@),
    {
        let from = env.from;
        let msg_term = match &env.msg {
            Message::RequestVote { term, .. } => *term,
            Message::RequestVoteResponse { term, .. } => *term,
            Message::AppendEntries { term, .. } => *term,
            Message::AppendEntriesResponse { term, .. } => *term,
        };
        if msg_term > self.current_term {
            self.current_term = msg_term;
            self.voted_for = None;
            self.become_follower();
        }
        match env.msg {
            Message::RequestVote { term, candidate_id, last_log_index, last_log_term } => {
                self.handle_request_vote(from, term, candidate_id, last_log_index, last_log_term);
            },
            Message::RequestVoteResponse { term, vote_granted } => {
                if term == self.current_term && self.role == Role::Candidate {
                    self.handle_request_vote_response(from, vote_granted);
                }
            },
            Message::AppendEntries { term, leader_id, prev_log_index, prev_log_term, entries, leader_commit } => {
                self.handle_append_entries(from, term, leader_id, prev_log_index, prev_log_term, entries, leader_commit);
            },
            Message::AppendEntriesResponse { term, success, match_index } => {
                if term == self.current_term && self.role == Role::Leader {
                    self.handle_append_entries_response(from, success, match_index);
                }
            },
        }
    }

    fn bcast_append_entries(&mut self)
        requires
            raft_wf(old(self)@),
            sendable(old(self)@),
            old(self)@.role == Role::Leader,
        ensures
            final(self)@ == (RaftView { messages: final(self)@.messages, ..old(self)@ }),
            appended_append_entries(old(self)@, old(self)@.messages, final(self)@.messages, old(self)@.peers),
    {
        let ghost v = self@;
        let mut i: usize = 0;
        assert(v.messages.subrange(0, v.messages.len() as int) =~= v.messages);
        while i < self.peers.len()
            invariant
                raft_wf(v),
                sendable(v),
                v.role == Role::Leader,
                i <= self.peers@.len(),
                self@ == (RaftView { messages: self@.messages, ..v }),
                appended_append_entries(v, v.messages, self@.messages, v.peers.take(i as int)),
            decreases self.peers@.len() - i,
        {
            let peer = self.peers[i];
            proof {
                if v.next_index.contains_key(peer) {
                    assert(1 <= v.next_index[peer] <= v.log.len());
                }
            }
            let ghost before = self@.messages;
            self.send_append_entries(peer);
            proof {
                let after = self@.messages;
                let t = v.peers.take(i + 1);
                assert(t =~= v.peers.take(i as int).push(peer));
                assert(after.subrange(0, before.len() as int) == before);
                assert(after.subrange(0, v.messages.len() as int) =~= before.subrange(0, v.messages.len() as int));
                assert forall|k: int| 0 <= k < t.len() implies append_entries_for(v, #[trigger] t[k], after[v.messages.len() + k]) by {
                    if k < i {
                        assert(t[k] == v.peers.take(i as int)[k]);
                        assert(after[v.messages.len() + k] == before[v.messages.len() + k]);
                    } else {
                        assert(t[k] == peer);
                        assert(seq![peer][0] == peer);
                    }
                }
            }
            i = i + 1;
        }
        proof {
            assert(v.peers.take(self.peers@.len() as int) =~= v.peers);
        }
    }
}

// ---------------------------------------------------------------------------------------------
// Safety properties of the node
// ---------------------------------------------------------------------------------------------

/// Votes go only to candidates whose log is at least as up to date: when a node answers a
/// `RequestVote` by granting it, the candidate's last log term is later than the term of the
/// node's last entry, or equal to it with a last index at least the node's; in particular a
/// candidate whose last log term is older than the node's never gets the vote, however long
/// its log.
pub proof fn lemma_vote_needs_up_to_date_log<T: Clone>(
    v: RaftView<T>,
    n: RaftView<T>,
    env: Envelope<T>,
    last_log_index: usize,
    last_log_term: u64,
)
    requires
        step_ok(v, env),
        step_post(v, n, env),
        env.msg matches Message::RequestVote { last_log_index: li, last_log_term: lt, .. } && li == last_log_index
            && lt == last_log_term,
    ensures
        n.messages.len() == v.messages.len() + 1,
        n.messages.last().to == env.from,
        (n.messages.last().msg matches Message::RequestVoteResponse { vote_granted, .. } && vote_granted) ==> {
            ||| last_log_term > v.log[v.log.len() - 1].term
            ||| (last_log_term == v.log[v.log.len() - 1].term && last_log_index >= v.log.len() - 1)
        },
        last_log_term < v.log[v.log.len() - 1].term ==> n.messages.last().msg matches Message::RequestVoteResponse {
            vote_granted: false,
            ..
        },
{
}

/// The whole voting rule: a node grants a `RequestVote` of term `term` exactly when the term
/// is not older than its own, it has not voted for another candidate in that term (a newer
/// term clears its vote), and the candidate's log is at least as up to date as its own; a
/// granted vote is recorded for the candidate.
pub proof fn lemma_vote_rule<T: Clone>(
    v: RaftView<T>,
    n: RaftView<T>,
    env: Envelope<T>,
    term: u64,
    last_log_index: usize,
    last_log_term: u64,
)
    requires
        step_ok(v, env),
        step_post(v, n, env),
        env.msg matches Message::RequestVote { term: t, last_log_index: li, last_log_term: lt, .. } && t == term
            && li == last_log_index && lt == last_log_term,
    ensures
        ({
            let can_vote = term > v.current_term || v.voted_for is None || v.voted_for == Some(env.from);
            let up_to_date = last_log_term > v.log[v.log.len() - 1].term || (last_log_term == v.log[v.log.len()
                - 1].term && last_log_index >= v.log.len() - 1);
            let granted = term >= v.current_term && can_vote && up_to_date;
            &&& n.messages.last().msg == Message::<T>::RequestVoteResponse {
                term: if term > v.current_term { term } else { v.current_term },
                vote_granted: granted,
            }
            &&& granted ==> n.voted_for == Some(env.from)
            &&& n.log == v.log
        }),
{
}

/// A node's term never decreases when it handles a message.
pub proof fn lemma_step_term_monotonic<T: Clone>(v: RaftView<T>, n: RaftView<T>, env: Envelope<T>)
    requires
        step_ok(v, env),
        step_post(v, n, env),
    ensures
        n.current_term >= v.current_term,
{
}

/// A node's term never decreases when its clock ticks.
pub proof fn lemma_tick_term_monotonic<T: Clone>(v: RaftView<T>, n: RaftView<T>)
    requires
        tick_ok(v),
        tick_post(v, n),
    ensures
        n.current_term >= v.current_term,
{
}

/// A node votes for at most one candidate per term: once it has voted in a term,
/// handling a message leaves that vote in place unless the term advances.
pub proof fn lemma_step_single_vote_per_term<T: Clone>(v: RaftView<T>, n: RaftView<T>, env: Envelope<T>)
    requires
        step_ok(v, env),
        step_post(v, n, env),
        v.voted_for is Some,
        n.current_term == v.current_term,
    ensures
        n.voted_for == v.voted_for,
{
}

/// Ticking never changes an existing vote within the same term.
pub proof fn lemma_tick_single_vote_per_term<T: Clone>(v: RaftView<T>, n: RaftView<T>)
    requires
        tick_ok(v),
        tick_post(v, n),
        n.current_term == v.current_term,
    ensures
        n.voted_for == v.voted_for,
{
}

/// Leader append-only: a node that is leader before and after handling a message has not
/// changed its log, unless the message is entries from another leader of its own term, which
/// a cluster with one leader per term never sends.
pub proof fn lemma_step_leader_log_unchanged<T: Clone>(v: RaftView<T>, n: RaftView<T>, env: Envelope<T>)
    requires
        step_ok(v, env),
        step_post(v, n, env),
        v.role == Role::Leader,
        n.role == Role::Leader,
        !(env.msg matches Message::AppendEntries { term, .. } && term == v.current_term),
    ensures
        n.log == v.log,
{
}

/// Outgoing messages are only ever appended: handling a message keeps the queued ones.
pub proof fn lemma_step_messages_extend<T: Clone>(v: RaftView<T>, n: RaftView<T>, env: Envelope<T>)
    requires
        step_ok(v, env),
        step_post(v, n, env),
    ensures
        n.messages.len() >= v.messages.len(),
        n.messages.subrange(0, v.messages.len() as int) == v.messages,
{
    let t = message_term(env.msg);
    let v1 = if t > v.current_term {
        become_follower_spec(RaftView { current_term: t, voted_for: None, ..v })
    } else {
        v
    };
    assert(v1.messages == v.messages);
    match env.msg {
        Message::RequestVote { .. } => {
            assert(n.messages.subrange(0, v.messages.len() as int) =~= v.messages);
        },
        Message::AppendEntries { .. } => {
            assert(n.messages.subrange(0, v.messages.len() as int) =~= v.messages);
        },
        Message::RequestVoteResponse { .. } => {
            assert(n.messages.subrange(0, v.messages.len() as int) =~= v.messages);
        },
        Message::AppendEntriesResponse { .. } => {
            assert(n.messages.subrange(0, v.messages.len() as int) =~= v.messages);
        },
    }
}

impl<T: Clone> Consensus<T> for RaftNode<T> {
    open spec fn can_step(&self, env: Envelope<T>) -> bool {
        step_ok(self@, env)
    }

    open spec fn can_tick(&self) -> bool {
        tick_ok(self@)
    }

    fn step(&mut self, env: Envelope<T>)
        ensures
            step_post(old(self)@, final(self)@, env),
            raft_wf(final(self)@),
    {
        self.step_internal(env);
    }

    fn tick(&mut self)
        ensures
            tick_post(old(self)@, final(self)@),
            raft_wf(final(self)@),
    {
        self.tick_internal();
    }
}

} // verus!
