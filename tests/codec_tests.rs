use nexus_storage::codec::{
    decode_append_entries_request, decode_append_entries_response, decode_request_vote_request,
    decode_request_vote_response, encode_append_entries_request, encode_append_entries_response,
    encode_request_vote_request, encode_request_vote_response, DecodeError,
};
use nexus_storage::log::{LogEntry, LogEntryType};
use nexus_storage::rpc::{AppendEntriesRequest, AppendEntriesResponse, RequestVoteRequest, RequestVoteResponse};
use nexus_storage::snapshot::{decode_snapshot, encode_snapshot, FileSnapshotStorage, RaftSnapshot};
use nexus_storage::state_machine::{decode_command, encode_command, KvCommand};

#[test]
fn test_serialize_append_entries() {
    let req = AppendEntriesRequest {
        term: 1,
        leader_id: "leader1".into(),
        prev_log_index: 0,
        prev_log_term: 0,
        entries: vec![],
        leader_commit: 0,
    };

    let encoded = encode_append_entries_request(&req);
    let decoded: AppendEntriesRequest = decode_append_entries_request(&encoded).unwrap();

    assert_eq!(decoded.term, 1);
    assert_eq!(decoded.leader_id, "leader1");
}

#[test]
fn test_snapshot_save_and_load() {
    let store = FileSnapshotStorage::new("test_snapshot.bin".to_string());
    assert_eq!(store.path, "test_snapshot.bin");

    let snap = RaftSnapshot {
        last_included_index: 42,
        last_included_term: 3,
        state: encode_command(&KvCommand::Put("x".into(), "y".into())),
    };

    let bytes = encode_snapshot(&snap);
    let loaded = decode_snapshot(&bytes).expect("Failed to load snapshot");

    assert_eq!(snap.last_included_index, loaded.last_included_index);
    assert_eq!(snap.last_included_term, loaded.last_included_term);
    assert_eq!(snap.state, loaded.state);
}

#[test]
fn append_entries_request_layout_and_round_trip() {
    let req = AppendEntriesRequest {
        term: 2,
        leader_id: "é".into(),
        prev_log_index: 3,
        prev_log_term: 1,
        entries: vec![
            LogEntry { term: 2, index: 4, entry_type: LogEntryType::Command, data: vec![9, 8] },
            LogEntry { term: 2, index: 5, entry_type: LogEntryType::Noop, data: vec![] },
        ],
        leader_commit: 4,
    };
    let bytes = encode_append_entries_request(&req);
    let mut expected: Vec<u8> = vec![];
    expected.extend_from_slice(&2u64.to_le_bytes());
    expected.extend_from_slice(&2u64.to_le_bytes());
    expected.extend_from_slice(&[0xc3, 0xa9]);
    expected.extend_from_slice(&3u64.to_le_bytes());
    expected.extend_from_slice(&1u64.to_le_bytes());
    expected.extend_from_slice(&2u64.to_le_bytes());
    expected.extend_from_slice(&2u64.to_le_bytes());
    expected.extend_from_slice(&4u64.to_le_bytes());
    expected.push(0);
    expected.extend_from_slice(&2u64.to_le_bytes());
    expected.extend_from_slice(&[9, 8]);
    expected.extend_from_slice(&2u64.to_le_bytes());
    expected.extend_from_slice(&5u64.to_le_bytes());
    expected.push(2);
    expected.extend_from_slice(&0u64.to_le_bytes());
    expected.extend_from_slice(&4u64.to_le_bytes());
    assert_eq!(bytes, expected);

    let back = decode_append_entries_request(&bytes).unwrap();
    assert_eq!(back.term, 2);
    assert_eq!(back.leader_id, "é");
    assert_eq!(back.prev_log_index, 3);
    assert_eq!(back.prev_log_term, 1);
    assert_eq!(back.leader_commit, 4);
    assert_eq!(back.entries.len(), 2);
    assert_eq!(back.entries[0].data, vec![9, 8]);
    assert_eq!(back.entries[0].entry_type, LogEntryType::Command);
    assert_eq!(back.entries[1].index, 5);
    assert_eq!(back.entries[1].entry_type, LogEntryType::Noop);
}

#[test]
fn small_messages_round_trip() {
    let a = AppendEntriesResponse { term: 7, success: true };
    assert_eq!(decode_append_entries_response(&encode_append_entries_response(&a)), Ok(a));
    let bytes = encode_append_entries_response(&a);
    assert_eq!(bytes.len(), 9);
    assert_eq!(bytes[8], 1);

    let v = RequestVoteResponse { term: 9, vote_granted: false };
    assert_eq!(decode_request_vote_response(&encode_request_vote_response(&v)), Ok(v));

    let r = RequestVoteRequest { term: 4, candidate_id: "node-2".into(), last_log_index: 10, last_log_term: 3 };
    let back = decode_request_vote_request(&encode_request_vote_request(&r)).unwrap();
    assert_eq!(back.term, 4);
    assert_eq!(back.candidate_id, "node-2");
    assert_eq!(back.last_log_index, 10);
    assert_eq!(back.last_log_term, 3);
}

#[test]
fn malformed_bytes_are_refused() {
    let a = AppendEntriesResponse { term: 7, success: true };
    let mut bytes = encode_append_entries_response(&a);
    bytes.push(0);
    assert_eq!(decode_append_entries_response(&bytes), Err(DecodeError));
    bytes.truncate(8);
    assert_eq!(decode_append_entries_response(&bytes), Err(DecodeError));
    bytes.push(2);
    assert_eq!(decode_append_entries_response(&bytes), Err(DecodeError));

    let r = RequestVoteRequest { term: 1, candidate_id: "ab".into(), last_log_index: 0, last_log_term: 0 };
    let mut bytes = encode_request_vote_request(&r);
    bytes[8] = 0xff;
    bytes[9] = 0xfe;
    bytes[10] = 0xff;
    bytes[11] = 0xfe;
    assert!(decode_request_vote_request(&bytes).is_err());
    let mut bytes = encode_request_vote_request(&r);
    bytes[16] = 0xff;
    assert!(decode_request_vote_request(&bytes).is_err());

    let req = AppendEntriesRequest {
        term: 1,
        leader_id: "l".into(),
        prev_log_index: 0,
        prev_log_term: 0,
        entries: vec![LogEntry { term: 1, index: 1, entry_type: LogEntryType::Command, data: vec![] }],
        leader_commit: 0,
    };
    let mut bytes = encode_append_entries_request(&req);
    let kind_at = 8 + 8 + 1 + 8 + 8 + 8 + 16;
    assert_eq!(bytes[kind_at], 0);
    bytes[kind_at] = 3;
    assert!(decode_append_entries_request(&bytes).is_err());
    assert!(decode_append_entries_request(&[]).is_err());
    assert!(decode_snapshot(&[1, 2, 3]).is_err());
}

#[test]
fn command_encoding() {
    let c = KvCommand::Put("k".into(), "v".into());
    let bytes = encode_command(&c);
    let mut expected = vec![0u8];
    expected.extend_from_slice(&1u64.to_le_bytes());
    expected.push(b'k');
    expected.extend_from_slice(&1u64.to_le_bytes());
    expected.push(b'v');
    assert_eq!(bytes, expected);
    assert_eq!(decode_command(&bytes), Ok(c));
    for c in [KvCommand::Get("key".into()), KvCommand::Delete("".into())] {
        assert_eq!(decode_command(&encode_command(&c)), Ok(c.clone()));
    }
    assert_eq!(decode_command(&[3]), Err(DecodeError));
    assert_eq!(decode_command(&[]), Err(DecodeError));
}
