use nexus_storage::log::{LogEntry, LogEntryType, RaftLog, RaftNode, RaftRole};

fn entry(index: u64, term: u64) -> LogEntry {
    LogEntry { term, index, entry_type: LogEntryType::Command, data: vec![index as u8] }
}

#[test]
fn test_append_and_get_entry() {
    let mut log = RaftLog::new();
    log.append(LogEntry {
        term: 1,
        index: 1,
        entry_type: LogEntryType::Command,
        data: vec![1, 2, 3],
    });

    assert_eq!(log.last_index(), 1);
    assert_eq!(log.last_term(), 1);
    assert_eq!(log.get(1).unwrap().data, vec![1, 2, 3]);
}

#[test]
fn test_raft_node_roles() {
    let mut node = RaftNode::new("node-1".to_string());

    assert_eq!(node.role, RaftRole::Follower);

    node.become_candidate();
    assert_eq!(node.role, RaftRole::Candidate);
    assert_eq!(node.current_term, 1);
    assert_eq!(node.voted_for, Some("node-1".to_string()));

    node.become_leader();
    assert_eq!(node.role, RaftRole::Leader);
    assert_eq!(node.log.entries.last().unwrap().entry_type, LogEntryType::Noop);

    node.become_follower(5);
    assert_eq!(node.role, RaftRole::Follower);
    assert_eq!(node.current_term, 5);
    assert_eq!(node.voted_for, None);
}

#[test]
fn empty_log_reports_zero() {
    let log = RaftLog::new();
    assert_eq!(log.last_index(), 0);
    assert_eq!(log.last_term(), 0);
    assert!(log.get(0).is_none());
    assert!(log.get(1).is_none());
}

#[test]
fn log_indexes_are_gap_free_and_terms_monotone() {
    let mut log = RaftLog::new();
    let terms = [1u64, 1, 2, 2, 3];
    for (i, t) in terms.iter().enumerate() {
        log.append(entry(i as u64 + 1, *t));
    }
    for i in 1..=5u64 {
        assert_eq!(log.get(i).unwrap().index, i);
    }
    for i in 1..5u64 {
        assert!(log.get(i).unwrap().term <= log.get(i + 1).unwrap().term);
    }
    assert!(log.get(6).is_none());
    assert_eq!(log.term_of(3), 2);
    assert_eq!(log.term_of(0), 0);
}

#[test]
fn truncate_removes_tail_only() {
    let mut log = RaftLog::new();
    for i in 1..=5u64 {
        log.append(entry(i, 1));
    }
    log.commit_index = 2;
    log.truncate_from(4);
    assert_eq!(log.last_index(), 3);
    assert!(log.get(4).is_none());
    assert_eq!(log.get(3).unwrap().index, 3);
    log.truncate_from(10);
    assert_eq!(log.last_index(), 3);
}

#[test]
fn compaction_rebases_lookups() {
    let mut log = RaftLog::new();
    let terms = [1u64, 1, 2, 3];
    for (i, t) in terms.iter().enumerate() {
        log.append(entry(i as u64 + 1, *t));
    }
    log.commit_index = 3;
    log.last_applied = 3;
    log.compact_to(2);
    assert_eq!(log.snapshot_index, 2);
    assert_eq!(log.snapshot_term, 1);
    assert!(log.get(2).is_none());
    assert!(log.get(1).is_none());
    assert_eq!(log.get(3).unwrap().term, 2);
    assert_eq!(log.last_index(), 4);
    assert_eq!(log.term_of(2), 1);

    let fresh = RaftLog::from_snapshot(42, 3);
    assert_eq!(fresh.last_index(), 42);
    assert_eq!(fresh.last_term(), 3);
    assert_eq!(fresh.commit_index, 42);
    assert_eq!(fresh.last_applied, 42);
}

#[test]
fn duplicate_copies_every_field() {
    let e = LogEntry { term: 7, index: 9, entry_type: LogEntryType::Configuration, data: vec![4, 5] };
    let d = e.duplicate();
    assert_eq!(d.term, 7);
    assert_eq!(d.index, 9);
    assert_eq!(d.entry_type, LogEntryType::Configuration);
    assert_eq!(d.data, vec![4, 5]);
}
