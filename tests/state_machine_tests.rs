use nexus_storage::state_machine::{KeyValueStore, KvCommand, KvResponse, StateMachine};
use nexus_storage::types::{ClusterConfig, NodeAddress};

#[test]
fn test_set_get_delete() {
    let mut kv = KeyValueStore::default();

    // Store a value
    let resp = kv.apply(KvCommand::Put("foo".into(), "bar".into()));
    assert_eq!(resp, KvResponse::Ack);

    // Get it
    let resp = kv.apply(KvCommand::Get("foo".into()));
    assert_eq!(resp, KvResponse::Value(Some("bar".into())));

    // Delete it
    let resp = kv.apply(KvCommand::Delete("foo".into()));
    assert_eq!(resp, KvResponse::Ack);

    // Ensure it's gone
    let resp = kv.apply(KvCommand::Get("foo".into()));
    assert_eq!(resp, KvResponse::Value(None));
}

#[test]
fn test_snapshot_restore() {
    let mut kv = KeyValueStore::default();
    kv.apply(KvCommand::Put("alpha".into(), "beta".into()));

    let snap = kv.snapshot();

    let mut restored = KeyValueStore::default();
    restored.restore(snap).unwrap();

    let resp = restored.apply(KvCommand::Get("alpha".into()));
    assert_eq!(resp, KvResponse::Value(Some("beta".into())));
}

#[test]
fn snapshot_round_trip_scenario() {
    let mut kv = KeyValueStore::new();
    kv.apply(KvCommand::Put("alpha".into(), "beta".into()));
    let mut fresh = KeyValueStore::new();
    fresh.restore(kv.snapshot()).unwrap();
    assert_eq!(fresh.get("alpha".into()), Some("beta".into()));
    assert_eq!(fresh.get("missing".into()), None);
}

#[test]
fn restore_after_any_sequence_matches() {
    let cmds = vec![
        KvCommand::Put("a".into(), "1".into()),
        KvCommand::Put("b".into(), "2".into()),
        KvCommand::Put("a".into(), "3".into()),
        KvCommand::Delete("b".into()),
        KvCommand::Get("a".into()),
        KvCommand::Put("c".into(), "4".into()),
    ];
    let mut kv = KeyValueStore::new();
    for c in cmds {
        kv.apply(c);
    }
    let mut other = KeyValueStore::new();
    other.apply(KvCommand::Put("z".into(), "9".into()));
    other.restore(kv.snapshot()).unwrap();
    for k in ["a", "b", "c", "z"] {
        assert_eq!(other.get(k.into()), kv.get(k.into()));
    }
    assert_eq!(other.get("a".into()), Some("3".into()));
    assert_eq!(other.get("b".into()), None);
    assert_eq!(other.snapshot(), kv.snapshot());
}

#[test]
fn snapshot_layout() {
    let mut kv = KeyValueStore::new();
    kv.apply(KvCommand::Put("k".into(), "v".into()));
    let mut expected = 1u64.to_le_bytes().to_vec();
    expected.extend_from_slice(&1u64.to_le_bytes());
    expected.push(b'k');
    expected.extend_from_slice(&1u64.to_le_bytes());
    expected.push(b'v');
    assert_eq!(kv.snapshot(), expected);
    assert_eq!(KeyValueStore::new().snapshot(), 0u64.to_le_bytes().to_vec());
}

#[test]
fn restore_refuses_bad_snapshots() {
    let mut kv = KeyValueStore::new();
    kv.apply(KvCommand::Put("keep".into(), "me".into()));
    let mut dup = 2u64.to_le_bytes().to_vec();
    for _ in 0..2 {
        dup.extend_from_slice(&1u64.to_le_bytes());
        dup.push(b'k');
        dup.extend_from_slice(&1u64.to_le_bytes());
        dup.push(b'v');
    }
    assert!(kv.restore(dup).is_err());
    assert!(kv.restore(vec![1, 2, 3]).is_err());
    let mut trailing = KeyValueStore::new().snapshot();
    trailing.push(0);
    assert!(kv.restore(trailing).is_err());
    assert_eq!(kv.get("keep".into()), Some("me".into()));
}

#[test]
fn trait_calls_reach_the_store() {
    fn through<S: StateMachine<Command = KvCommand, Response = KvResponse>>(s: &mut S) -> Option<String> {
        s.apply(KvCommand::Put("t".into(), "u".into()));
        let snap = s.snapshot();
        s.restore(snap).unwrap();
        s.get("t".into())
    }
    let mut kv = KeyValueStore::new();
    assert_eq!(through(&mut kv), Some("u".into()));
}

#[test]
fn cluster_config_validity() {
    let nodes = vec![
        NodeAddress { host: "127.0.0.1".into(), port: 8080, node_id: "node-1".into() },
        NodeAddress { host: "127.0.0.1".into(), port: 8081, node_id: "node-2".into() },
    ];
    let good = ClusterConfig { nodes: nodes.clone(), replication_factor: 2, election_timeout_ms: 150, heartbeat_interval_ms: 50 };
    assert!(good.is_valid());
    let slow = ClusterConfig { heartbeat_interval_ms: 150, ..good.clone() };
    assert!(!slow.is_valid());
    let wrong = ClusterConfig { replication_factor: 3, ..good };
    assert!(!wrong.is_valid());
}
