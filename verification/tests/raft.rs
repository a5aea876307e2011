use systems::raft::{Consensus, Envelope, LogEntry, Message, RaftNode, Role};

#[test]
fn test_election_timeout_triggers_candidacy() {
    let mut node: RaftNode<String> = RaftNode::new(1, vec![2, 3], 10, 5);
    assert_eq!(node.role, Role::Follower);
    for _ in 0..9 {
        node.tick();
    }
    assert_eq!(node.role, Role::Follower);
    node.tick();
    assert_eq!(node.role, Role::Candidate);
    assert_eq!(node.current_term, 1);
    assert_eq!(node.voted_for, Some(1));
    assert!(node.votes_received.contains(&1));
    assert_eq!(node.messages.len(), 2);
}

#[test]
fn test_candidate_becomes_leader_on_majority() {
    let mut node: RaftNode<String> = RaftNode::new(1, vec![2, 3, 4, 5], 10, 5);
    node.become_candidate();
    node.messages.clear();
    node.step(Envelope {
        to: 1,
        from: 2,
        msg: Message::RequestVoteResponse { term: node.current_term, vote_granted: true },
    });
    assert_eq!(node.role, Role::Candidate);
    node.step(Envelope {
        to: 1,
        from: 3,
        msg: Message::RequestVoteResponse { term: node.current_term, vote_granted: true },
    });
    assert_eq!(node.role, Role::Leader);
    assert_eq!(node.messages.len(), 4);
}

#[test]
fn test_follower_rejects_append_entries_with_stale_term() {
    let mut node: RaftNode<String> = RaftNode::new(1, vec![2], 10, 5);
    node.current_term = 2;
    node.step(Envelope {
        to: 1,
        from: 2,
        msg: Message::AppendEntries {
            term: 1,
            leader_id: 2,
            prev_log_index: 0,
            prev_log_term: 0,
            entries: vec![],
            leader_commit: 0,
        },
    });
    assert_eq!(node.messages.len(), 1);
    match &node.messages[0].msg {
        Message::AppendEntriesResponse { success, .. } => {
            assert!(!success);
        }
        _ => panic!("Expected AppendEntriesResponse"),
    }
}

#[test]
fn test_follower_appends_entries() {
    let mut node: RaftNode<String> = RaftNode::new(1, vec![2], 10, 5);
    node.step(Envelope {
        to: 1,
        from: 2,
        msg: Message::AppendEntries {
            term: 1,
            leader_id: 2,
            prev_log_index: 0,
            prev_log_term: 0,
            entries: vec![LogEntry { term: 1, data: Some("cmd1".to_string()) }],
            leader_commit: 0,
        },
    });
    assert_eq!(node.log.len(), 2);
    assert_eq!(node.log[1].data, Some("cmd1".to_string()));
}

#[test]
fn test_steps_down_on_higher_term() {
    let mut node: RaftNode<String> = RaftNode::new(1, vec![2], 10, 5);
    node.become_candidate();
    assert_eq!(node.role, Role::Candidate);
    node.step(Envelope {
        to: 1,
        from: 2,
        msg: Message::AppendEntries {
            term: 5,
            leader_id: 2,
            prev_log_index: 0,
            prev_log_term: 0,
            entries: vec![],
            leader_commit: 0,
        },
    });
    assert_eq!(node.role, Role::Follower);
    assert_eq!(node.current_term, 5);
}

#[test]
fn raft_conflicting_entries_are_replaced_and_commit_follows_leader() {
    let mut node: RaftNode<u32> = RaftNode::new(1, vec![2], 10, 5);
    node.step(Envelope {
        to: 1,
        from: 2,
        msg: Message::AppendEntries {
            term: 1,
            leader_id: 2,
            prev_log_index: 0,
            prev_log_term: 0,
            entries: vec![LogEntry { term: 1, data: Some(10) }, LogEntry { term: 1, data: Some(11) }],
            leader_commit: 0,
        },
    });
    assert_eq!(node.log.len(), 3);
    node.step(Envelope {
        to: 1,
        from: 2,
        msg: Message::AppendEntries {
            term: 2,
            leader_id: 2,
            prev_log_index: 1,
            prev_log_term: 1,
            entries: vec![LogEntry { term: 2, data: Some(20) }],
            leader_commit: 5,
        },
    });
    assert_eq!(node.log.len(), 3);
    assert_eq!(node.log[2].term, 2);
    assert_eq!(node.log[2].data, Some(20));
    assert_eq!(node.commit_index, 2);
    match &node.messages[1].msg {
        Message::AppendEntriesResponse { success, match_index, term } => {
            assert!(*success);
            assert_eq!(*match_index, 2);
            assert_eq!(*term, 2);
        }
        _ => panic!("Expected AppendEntriesResponse"),
    }
}

#[test]
fn raft_vote_granted_once_per_term() {
    let mut node: RaftNode<u32> = RaftNode::new(1, vec![2, 3], 10, 5);
    node.step(Envelope {
        to: 1,
        from: 2,
        msg: Message::RequestVote { term: 1, candidate_id: 2, last_log_index: 0, last_log_term: 0 },
    });
    node.step(Envelope {
        to: 1,
        from: 3,
        msg: Message::RequestVote { term: 1, candidate_id: 3, last_log_index: 0, last_log_term: 0 },
    });
    assert_eq!(node.voted_for, Some(2));
    match (&node.messages[0].msg, &node.messages[1].msg) {
        (
            Message::RequestVoteResponse { vote_granted: a, .. },
            Message::RequestVoteResponse { vote_granted: b, .. },
        ) => {
            assert!(*a);
            assert!(!*b);
        }
        _ => panic!("Expected two vote responses"),
    }
}

#[test]
fn raft_leader_commits_on_majority_ack() {
    let mut node: RaftNode<u32> = RaftNode::new(1, vec![2, 3], 10, 5);
    node.become_candidate();
    node.step(Envelope { to: 1, from: 2, msg: Message::RequestVoteResponse { term: 1, vote_granted: true } });
    assert_eq!(node.role, Role::Leader);
    node.log.push(LogEntry { term: 1, data: Some(7) });
    node.step(Envelope {
        to: 1,
        from: 2,
        msg: Message::AppendEntriesResponse { term: 1, success: true, match_index: 1 },
    });
    assert_eq!(node.commit_index, 1);
}

fn leader_of_term_one() -> RaftNode<String> {
    let mut node: RaftNode<String> = RaftNode::new(1, vec![2, 3], 10, 5);
    node.become_candidate();
    node.step(Envelope { to: 1, from: 2, msg: Message::RequestVoteResponse { term: 1, vote_granted: true } });
    assert_eq!(node.role, Role::Leader);
    node.messages.clear();
    node
}

#[test]
fn raft_leader_handles_entries_from_a_same_term_sender() {
    let mut node = leader_of_term_one();
    node.step(Envelope {
        to: 1,
        from: 3,
        msg: Message::AppendEntries {
            term: 1,
            leader_id: 3,
            prev_log_index: 0,
            prev_log_term: 0,
            entries: vec![LogEntry { term: 1, data: Some("x".to_string()) }],
            leader_commit: 0,
        },
    });
    assert_eq!(node.role, Role::Leader);
    assert_eq!(node.log.len(), 2);
    match &node.messages[0].msg {
        Message::AppendEntriesResponse { success, match_index, .. } => {
            assert!(*success);
            assert_eq!(*match_index, 1);
        }
        _ => panic!("Expected AppendEntriesResponse"),
    }
}

#[test]
fn raft_leader_records_an_acknowledgement_past_its_log() {
    let mut node = leader_of_term_one();
    node.step(Envelope {
        to: 1,
        from: 2,
        msg: Message::AppendEntriesResponse { term: 1, success: true, match_index: 5 },
    });
    assert_eq!(node.match_index.get(&2), Some(&5));
    assert_eq!(node.next_index.get(&2), Some(&6));
    assert_eq!(node.commit_index, 0);
    assert!(node.messages.is_empty());
}
