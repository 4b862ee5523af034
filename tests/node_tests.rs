use nexus_storage::log::{LogEntry, LogEntryType};
use nexus_storage::node::{NodeRole, NotLeader, RaftNode};
use nexus_storage::rpc::{AppendEntriesRequest, AppendEntriesResponse, RequestVoteRequest};
use nexus_storage::state_machine::{encode_command, KvCommand};

fn test_node(id: &str) -> RaftNode {
    RaftNode::new(id.into(), vec!["node2".into(), "node3".into()], 150)
}

fn node_with_peers(id: &str, peers: &[&str]) -> RaftNode {
    RaftNode::new(id.into(), peers.iter().map(|p| p.to_string()).collect(), 150)
}

fn entry(index: u64, term: u64) -> LogEntry {
    LogEntry { term, index, entry_type: LogEntryType::Command, data: vec![] }
}

#[test]
fn test_become_leader_on_majority_votes() {
    let mut node = test_node("node1");
    node.start_election();

    node.receive_vote("node2".into(), node.current_term, true);
    node.receive_vote("node3".into(), node.current_term, true);

    assert_eq!(node.role, NodeRole::Leader);
}

#[test]
fn test_step_down_on_higher_term_vote() {
    let mut node = test_node("node1");
    node.start_election();

    node.receive_vote("node2".into(), node.current_term + 1, false);

    assert_eq!(node.role, NodeRole::Follower);
    // Stepping down adopts the higher term seen in the vote.
    assert_eq!(node.current_term, 2);
}

#[test]
fn test_tick_triggers_election() {
    let mut node = test_node("node1");

    // The timer was last reset at 0; 200 ms later the 150 ms timeout has run out.
    node.last_heartbeat_ms = 0;
    node.tick(200);

    assert_eq!(node.role, NodeRole::Candidate);
}

#[test]
fn test_handle_append_entries_heartbeat() {
    let mut node = RaftNode::new(
        "node1".to_string(),
        vec!["node2".to_string(), "node3".to_string()],
        150,
    );
    node.current_term = 1;

    let req = AppendEntriesRequest {
        term: 1,
        leader_id: "leader".to_string(),
        prev_log_index: 0,
        prev_log_term: 0,
        entries: vec![],
        leader_commit: 0,
    };

    let res = node.handle_append_entries(req);
    assert!(res.success);
    assert_eq!(res.term, 1);
}

#[test]
fn test_handle_append_entries_reject_stale_term() {
    let mut node = RaftNode::new(
        "node1".to_string(),
        vec!["node2".to_string(), "node3".to_string()],
        150,
    );
    node.current_term = 2;

    let req = AppendEntriesRequest {
        term: 1,
        leader_id: "leader".to_string(),
        prev_log_index: 0,
        prev_log_term: 0,
        entries: vec![],
        leader_commit: 0,
    };

    let res = node.handle_append_entries(req);
    assert!(!res.success);
    assert_eq!(res.term, 2);
}

#[test]
fn test_append_and_apply_committed_entry() {
    let mut node = test_node("node1");
    node.become_leader();

    let command = KvCommand::Put("key".into(), "value".into());
    let encoded = encode_command(&command);
    let index = node.append_entry(encoded).unwrap();
    node.log.commit_index = index;

    node.apply_committed_entries();

    let val = node.state_machine.get("key".into());
    assert_eq!(val, Some("value".into()));
}

#[test]
fn three_node_election() {
    let mut n1 = node_with_peers("n1", &["n2", "n3"]);
    let mut n2 = node_with_peers("n2", &["n1", "n3"]);
    let mut n3 = node_with_peers("n3", &["n1", "n2"]);

    n1.tick(200);
    assert_eq!(n1.role, NodeRole::Candidate);
    assert_eq!(n1.current_term, 1);

    let req = n1.vote_request();
    let r2 = n2.handle_request_vote(req.clone());
    let r3 = n3.handle_request_vote(req);
    assert!(r2.vote_granted && r3.vote_granted);
    n1.receive_vote("n2".into(), r2.term, r2.vote_granted);
    n1.receive_vote("n3".into(), r3.term, r3.vote_granted);
    assert_eq!(n1.role, NodeRole::Leader);

    let noop = n1.log.get(1).unwrap();
    assert_eq!(noop.entry_type, LogEntryType::Noop);
    assert_eq!(noop.term, 1);
    assert_eq!(n1.log.last_index(), 1);

    let beats = n1.send_heartbeats();
    assert_eq!(beats.len(), 2);
    let a2 = n2.handle_append_entries(beats[0].clone());
    let a3 = n3.handle_append_entries(beats[1].clone());
    assert!(a2.success && a3.success);

    assert_eq!((n1.role, n2.role, n3.role), (NodeRole::Leader, NodeRole::Follower, NodeRole::Follower));
    assert_eq!((n1.current_term, n2.current_term, n3.current_term), (1, 1, 1));
}

#[test]
fn heartbeat_resets_timer_and_keeps_follower() {
    let mut n2 = node_with_peers("n2", &["n1", "n3"]);
    n2.current_term = 1;
    n2.tick(100);
    let res = n2.handle_append_entries(AppendEntriesRequest {
        term: 1,
        leader_id: "n1".into(),
        prev_log_index: 0,
        prev_log_term: 0,
        entries: vec![],
        leader_commit: 0,
    });
    assert_eq!(res, AppendEntriesResponse { term: 1, success: true });
    assert_eq!(n2.role, NodeRole::Follower);
    assert_eq!(n2.last_heartbeat_ms, 100);
}

#[test]
fn stale_term_leaves_state_unchanged() {
    let mut n = node_with_peers("n2", &["n1"]);
    n.current_term = 2;
    n.voted_for = Some("n1".into());
    let res = n.handle_append_entries(AppendEntriesRequest {
        term: 1,
        leader_id: "n1".into(),
        prev_log_index: 0,
        prev_log_term: 0,
        entries: vec![entry(1, 1)],
        leader_commit: 1,
    });
    assert_eq!(res, AppendEntriesResponse { term: 2, success: false });
    assert_eq!(n.current_term, 2);
    assert_eq!(n.voted_for, Some("n1".into()));
    assert_eq!(n.log.last_index(), 0);
    assert_eq!(n.log.commit_index, 0);
}

fn leader_with_terms(id: &str, peers: &[&str], term: u64, terms: &[u64]) -> RaftNode {
    let mut n = node_with_peers(id, peers);
    for (i, t) in terms.iter().enumerate() {
        n.log.append(entry(i as u64 + 1, *t));
    }
    n.current_term = term;
    n.role = NodeRole::Leader;
    let next = n.log.last_index() + 1;
    for k in 0..peers.len() {
        n.next_index[k] = next;
        n.match_index[k] = 0;
    }
    n
}

#[test]
fn log_consistency_repair() {
    let mut leader = leader_with_terms("l", &["f"], 3, &[1, 1, 2, 3, 3]);
    let mut follower = node_with_peers("f", &["l"]);
    follower.current_term = 2;
    for (i, t) in [1u64, 1, 2, 2].iter().enumerate() {
        follower.log.append(entry(i as u64 + 1, *t));
    }
    assert_eq!(leader.next_index[0], 6);

    let mut prevs = vec![];
    loop {
        let req = leader.append_entries_for(0);
        prevs.push((req.prev_log_index, req.prev_log_term));
        let sent = req.entries.len() as u64;
        let prev = req.prev_log_index;
        let resp = follower.handle_append_entries(req);
        leader.handle_append_entries_response("f".into(), resp, prev, sent);
        if resp.success {
            break;
        }
        assert!(prevs.len() < 10);
    }
    assert_eq!(prevs, vec![(5, 3), (4, 3), (3, 2)]);
    assert_eq!(follower.log.last_index(), 5);
    for i in 1..=5u64 {
        assert_eq!(follower.log.get(i).unwrap().term, leader.log.get(i).unwrap().term);
    }
    assert_eq!(leader.match_index[0], 5);
    assert_eq!(leader.next_index[0], 6);
}

#[test]
fn commit_requires_majority_and_current_term() {
    let peers = ["p1", "p2", "p3", "p4"];
    let mut leader = leader_with_terms("l", &peers, 4, &[2, 2, 4]);
    for i in 1..=3u64 {
        let data = encode_command(&KvCommand::Put(format!("k{}", i), format!("v{}", i)));
        let idx = (i - 1) as usize;
        leader.log.entries[idx].data = data;
    }
    let ok = AppendEntriesResponse { term: 4, success: true };
    leader.handle_append_entries_response("p1".into(), ok, 0, 3);
    leader.handle_append_entries_response("p2".into(), ok, 0, 2);
    leader.handle_append_entries_response("p3".into(), ok, 0, 2);
    assert_eq!(leader.match_index, vec![3, 2, 2, 0]);
    // Index 2 is on a majority but of an earlier term; index 3 is on two nodes of five.
    assert_eq!(leader.log.commit_index, 0);

    leader.handle_append_entries_response("p2".into(), ok, 2, 1);
    assert_eq!(leader.match_index, vec![3, 3, 2, 0]);
    assert_eq!(leader.log.commit_index, 3);

    leader.apply_committed_entries();
    assert_eq!(leader.log.last_applied, 3);
    for i in 1..=3 {
        assert_eq!(leader.state_machine.get(format!("k{}", i)), Some(format!("v{}", i)));
    }
}

#[test]
fn failed_append_backs_off_to_one() {
    let mut leader = leader_with_terms("l", &["f"], 2, &[1]);
    let no = AppendEntriesResponse { term: 2, success: false };
    leader.handle_append_entries_response("f".into(), no, 1, 0);
    assert_eq!(leader.next_index[0], 1);
    leader.handle_append_entries_response("f".into(), no, 0, 0);
    assert_eq!(leader.next_index[0], 1);
    leader.handle_append_entries_response("stranger".into(), no, 0, 0);
    assert_eq!(leader.next_index[0], 1);
}

#[test]
fn higher_term_response_steps_down() {
    let mut leader = leader_with_terms("l", &["f"], 2, &[1]);
    leader.handle_append_entries_response("f".into(), AppendEntriesResponse { term: 5, success: false }, 0, 0);
    assert_eq!(leader.role, NodeRole::Follower);
    assert_eq!(leader.current_term, 5);
    assert_eq!(leader.voted_for, None);
}

#[test]
fn one_vote_per_term() {
    let mut n = node_with_peers("n1", &["a", "b"]);
    let req = |c: &str| RequestVoteRequest { term: 1, candidate_id: c.into(), last_log_index: 0, last_log_term: 0 };
    assert!(n.handle_request_vote(req("a")).vote_granted);
    assert!(!n.handle_request_vote(req("b")).vote_granted);
    assert!(n.handle_request_vote(req("a")).vote_granted);
    assert_eq!(n.voted_for, Some("a".into()));
    let later = RequestVoteRequest { term: 2, candidate_id: "b".into(), last_log_index: 0, last_log_term: 0 };
    assert!(n.handle_request_vote(later).vote_granted);
    assert_eq!(n.current_term, 2);
}

#[test]
fn vote_refused_to_stale_log() {
    let mut n = node_with_peers("n1", &["a"]);
    n.log.append(entry(1, 2));
    n.current_term = 2;
    let r = n.handle_request_vote(RequestVoteRequest { term: 3, candidate_id: "a".into(), last_log_index: 5, last_log_term: 1 });
    assert!(!r.vote_granted);
    assert_eq!(r.term, 3);
    assert_eq!(n.voted_for, None);
    let stale = n.handle_request_vote(RequestVoteRequest { term: 1, candidate_id: "a".into(), last_log_index: 9, last_log_term: 9 });
    assert_eq!((stale.term, stale.vote_granted), (3, false));
}

#[test]
fn term_and_commit_never_go_down() {
    let mut n = node_with_peers("n2", &["n1"]);
    let mut req = AppendEntriesRequest {
        term: 3,
        leader_id: "n1".into(),
        prev_log_index: 0,
        prev_log_term: 0,
        entries: vec![entry(1, 1), entry(2, 3)],
        leader_commit: 2,
    };
    assert!(n.handle_append_entries(req.clone()).success);
    assert_eq!(n.log.commit_index, 2);
    req.leader_commit = 1;
    req.entries = vec![];
    req.prev_log_index = 1;
    req.prev_log_term = 1;
    assert!(n.handle_append_entries(req.clone()).success);
    assert_eq!(n.log.commit_index, 2);
    assert_eq!(n.log.last_index(), 2);
    req.term = 2;
    assert!(!n.handle_append_entries(req).success);
    assert_eq!(n.current_term, 3);
    n.apply_committed_entries();
    assert!(n.log.last_applied <= n.log.commit_index);
}

#[test]
fn committed_entry_is_never_overwritten() {
    let mut n = node_with_peers("n2", &["n1"]);
    let req = AppendEntriesRequest {
        term: 1,
        leader_id: "n1".into(),
        prev_log_index: 0,
        prev_log_term: 0,
        entries: vec![entry(1, 1)],
        leader_commit: 1,
    };
    assert!(n.handle_append_entries(req).success);
    let conflicting = AppendEntriesRequest {
        term: 2,
        leader_id: "n3".into(),
        prev_log_index: 0,
        prev_log_term: 0,
        entries: vec![entry(1, 2)],
        leader_commit: 0,
    };
    assert!(n.would_overwrite_committed(&conflicting));
    let agreeing = AppendEntriesRequest { entries: vec![entry(1, 1), entry(2, 2)], ..conflicting.clone() };
    assert!(!n.would_overwrite_committed(&agreeing));
    assert!(n.handle_append_entries(agreeing).success);
    assert_eq!(n.log.get(1).unwrap().term, 1);
    assert_eq!(n.log.get(2).unwrap().term, 2);
}

#[test]
fn single_node_leads_and_commits_alone() {
    let mut n = RaftNode::new("solo".into(), vec![], 150);
    n.tick(150);
    assert_eq!(n.role, NodeRole::Leader);
    let idx = n.append_entry(encode_command(&KvCommand::Put("a".into(), "b".into()))).unwrap();
    assert_eq!(idx, 2);
    assert_eq!(n.log.commit_index, 2);
}

#[test]
fn snapshot_and_restart() {
    let mut n = node_with_peers("n1", &["n2"]);
    n.role = NodeRole::Leader;
    n.current_term = 3;
    n.log.append(LogEntry { term: 3, index: 1, entry_type: LogEntryType::Command, data: encode_command(&KvCommand::Put("x".into(), "y".into())) });
    n.log.commit_index = 1;
    n.apply_committed_entries();
    assert!(n.snapshot_due(0));
    let snap = n.snapshot_record();
    assert_eq!((snap.last_included_index, snap.last_included_term), (1, 3));
    n.compact_log(1);
    assert_eq!(n.log.snapshot_index, 1);
    assert!(n.log.get(1).is_none());

    let mut fresh = node_with_peers("n1", &["n2"]);
    fresh.restore_snapshot(snap).unwrap();
    assert_eq!(fresh.log.commit_index, 1);
    assert_eq!(fresh.log.last_applied, 1);
    assert_eq!(fresh.current_term, 3);
    assert_eq!(fresh.state_machine.get("x".into()), Some("y".into()));
}

#[test]
fn submission_to_follower_is_refused() {
    let mut n = test_node("node1");
    let before = n.log.last_index();
    assert_eq!(n.append_entry(vec![1, 2]), Err(NotLeader));
    assert_eq!(n.log.last_index(), before);
    assert_eq!(n.role, NodeRole::Follower);
}

#[test]
fn new_node_starts_peers_at_one_and_zero() {
    let n = test_node("node1");
    assert_eq!(n.next_index, vec![1, 1]);
    assert_eq!(n.match_index, vec![0, 0]);
    assert_eq!(n.log.commit_index, 0);
    assert!(n.votes_received.is_empty());
}

#[test]
fn tick_makes_a_candidate_that_voted_for_itself() {
    let mut node = test_node("node1");
    node.tick(200);
    assert_eq!(node.role, NodeRole::Candidate);
    assert_eq!(node.current_term, 1);
    assert_eq!(node.voted_for, Some("node1".into()));
    assert_eq!(node.votes_received, vec!["node1".to_string()]);
    assert_eq!(node.last_heartbeat_ms, 200);
    let mut quiet = test_node("node1");
    quiet.tick(100);
    assert_eq!(quiet.role, NodeRole::Follower);
    assert_eq!(quiet.current_term, 0);
}

#[test]
fn stale_request_from_deposed_leader_is_refused() {
    let mut n = node_with_peers("n2", &["n1", "n3"]);
    n.current_term = 2;
    n.log.append(entry(1, 1));
    n.log.append(entry(2, 2));
    n.log.commit_index = 2;
    let stale = AppendEntriesRequest {
        term: 1,
        leader_id: "n1".into(),
        prev_log_index: 1,
        prev_log_term: 1,
        entries: vec![entry(2, 1)],
        leader_commit: 1,
    };
    assert!(!n.takes_request(&stale));
    assert!(!n.would_overwrite_committed(&stale));
    let res = n.handle_append_entries(stale);
    assert_eq!(res, AppendEntriesResponse { term: 2, success: false });
    assert_eq!(n.log.get(2).unwrap().term, 2);
    assert_eq!(n.log.commit_index, 2);
    assert_eq!(n.current_term, 2);
}

#[test]
fn transitions_hand_back_their_requests() {
    let mut n1 = node_with_peers("n1", &["n2", "n3"]);
    let vote = n1.tick(200).unwrap();
    assert_eq!(vote.term, 1);
    assert_eq!(vote.candidate_id, "n1");
    assert_eq!((vote.last_log_index, vote.last_log_term), (0, 0));
    assert!(n1.tick(201).is_none());
    let none = n1.receive_vote("n2".into(), 1, false);
    assert!(none.is_empty());
    let beats = n1.receive_vote("n2".into(), 1, true);
    assert_eq!(n1.role, NodeRole::Leader);
    assert_eq!(beats.len(), 2);
    for b in &beats {
        assert_eq!(b.term, 1);
        assert_eq!(b.leader_id, "n1");
        assert_eq!(b.prev_log_index, 0);
        assert_eq!(b.entries.len(), 1);
        assert_eq!(b.entries[0].entry_type, LogEntryType::Noop);
    }
    let mut solo = RaftNode::new("solo".into(), vec![], 150);
    let req = solo.start_election();
    assert_eq!(req.term, 1);
    assert_eq!(solo.role, NodeRole::Leader);
}
