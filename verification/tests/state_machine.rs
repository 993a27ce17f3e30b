use raft_kv::kv_map::KeyValueMap;
use raft_kv::Command;
use raft_kv::Error;
use raft_kv::ErrorKind;
use raft_kv::MemoryStateMachine;
use raft_kv::StateMachine;
use raft_kv::StateSnapshot;

fn put(key: &str, value: &str) -> Command {
    Command::Put {
        key: key.to_string(),
        value: value.to_string(),
    }
}

#[test]
fn commands_are_applied_in_order_and_once() {
    let mut machine = MemoryStateMachine::new();
    machine.apply(1, &put("a", "1")).unwrap();
    machine.apply(2, &Command::Noop).unwrap();
    machine.apply(1, &put("a", "9")).unwrap();
    assert_eq!(machine.get("a").unwrap(), Some("1".to_string()));
    assert_eq!(machine.apply(4, &put("a", "4")), Err(Error::ApplyIndexGap));
    assert_eq!(machine.last_applied(), 2);
    machine
        .apply(
            3,
            &Command::Delete {
                key: "a".to_string(),
            },
        )
        .unwrap();
    assert_eq!(machine.get("a").unwrap(), None);
}

#[test]
fn snapshot_restores_the_state_anywhere() {
    let mut source = MemoryStateMachine::new();
    source.apply(1, &put("b", "1")).unwrap();
    source.apply(2, &put("a", "2")).unwrap();
    let taken = source.snapshot().unwrap();
    assert_eq!(
        taken,
        StateSnapshot {
            version: 1,
            last_applied: 2,
            data: vec![
                ("a".to_string(), "2".to_string()),
                ("b".to_string(), "1".to_string())
            ],
        }
    );
    let mut target = MemoryStateMachine::default();
    target.apply(1, &put("z", "9")).unwrap();
    target.restore_snapshot(&taken).unwrap();
    assert_eq!(target.snapshot().unwrap(), taken);
    assert_eq!(target.get("z").unwrap(), None);
    assert_eq!(target.last_applied(), 2);
}

#[test]
fn rejected_state_snapshot_changes_nothing() {
    let mut machine = MemoryStateMachine::new();
    machine.apply(1, &put("a", "1")).unwrap();
    let before = machine.snapshot().unwrap();
    let mut other_version = before.clone();
    other_version.version = 9;
    let mut unordered = before.clone();
    unordered.data.push(("a".to_string(), "2".to_string()));
    for rejected in [other_version, unordered] {
        assert_eq!(
            machine.restore_snapshot(&rejected),
            Err(Error::InvalidStateSnapshot)
        );
        assert_eq!(machine.snapshot().unwrap(), before);
    }
}

#[test]
fn map_holds_what_was_put_last() {
    let mut map = KeyValueMap::new();
    for (key, value) in [("m", "1"), ("a", "2"), ("z", "3"), ("m", "4")] {
        map.insert(key.to_string(), value.to_string());
    }
    map.remove("a");
    map.remove("missing");
    assert_eq!(map.get("m"), Some(&"4".to_string()));
    assert_eq!(map.get("a"), None);
    assert_eq!(
        map.pairs(),
        &vec![
            ("m".to_string(), "4".to_string()),
            ("z".to_string(), "3".to_string())
        ]
    );
    let copy = map.clone();
    assert!(copy.same_as(&map));
    map.remove("z");
    assert!(!copy.same_as(&map));
}

#[test]
fn errors_have_a_kind_and_words() {
    for (error, kind, message) in [
        (
            Error::UnsupportedSnapshotVersion,
            ErrorKind::InvalidData,
            "unsupported snapshot format version",
        ),
        (
            Error::LogBoundaryMismatch,
            ErrorKind::InvalidData,
            "persisted log does not match snapshot boundary",
        ),
        (
            Error::RestoredStateBehindSnapshot,
            ErrorKind::InvalidData,
            "restored state machine index is behind snapshot",
        ),
        (
            Error::CommitOutsideLog,
            ErrorKind::InvalidData,
            "commit index is outside the retained log",
        ),
        (
            Error::ApplyIndexGap,
            ErrorKind::InvalidInput,
            "state machine apply index gap",
        ),
        (
            Error::StaleStateSnapshot,
            ErrorKind::InvalidData,
            "state machine snapshot index is stale",
        ),
        (
            Error::NotLeader,
            ErrorKind::NotConnected,
            "only the leader can transfer leadership",
        ),
        (
            Error::TransferTargetNotPeer,
            ErrorKind::InvalidInput,
            "leadership transfer target is not a peer",
        ),
        (
            Error::UnknownNode,
            ErrorKind::NotFound,
            "unknown cluster node",
        ),
        (
            Error::SnapshotsUnsupported,
            ErrorKind::Unsupported,
            "state machine does not support snapshots",
        ),
        (
            Error::Unencodable,
            ErrorKind::Other,
            "value does not encode",
        ),
        (
            Error::StateMachine(ErrorKind::NotFound),
            ErrorKind::NotFound,
            "state machine failure",
        ),
    ] {
        assert_eq!(error.kind(), kind);
        assert_eq!(error.message(), message);
    }
}
