use raft_kv::codec::decode_snapshot;
use raft_kv::codec::encode_snapshot;
use raft_kv::codec::hash_bytes;
use raft_kv::codec::snapshot_id;
use raft_kv::storage::decode_snapshot_file;
use raft_kv::storage::encode_snapshot_file;
use raft_kv::storage::persisted_file;
use raft_kv::storage::persisted_payload;
use raft_kv::storage::temporary_name;
use raft_kv::storage::DurableState;
use raft_kv::storage::PersistedState;
use raft_kv::storage::StoredState;
use raft_kv::Command;
use raft_kv::Error;
use raft_kv::LogEntry;
use raft_kv::MemoryStateMachine;
use raft_kv::Node;
use raft_kv::Role;
use raft_kv::Snapshot;
use raft_kv::StateSnapshot;
use raft_kv::SNAPSHOT_FORMAT_VERSION;

#[test]
fn save_and_load_restores_term_vote_log_and_state_machine() {
    let node = Node::from_parts(
        0,
        vec![1, 2],
        4,
        Some(2),
        vec![LogEntry {
            term: 4,
            command: Command::Put {
                key: "foo".to_string(),
                value: "bar".to_string(),
            },
        }],
        1,
    );
    let loaded = StoredState::Current(PersistedState::from_node(&node))
        .restore(0, vec![1, 2], MemoryStateMachine::new())
        .unwrap();

    assert_eq!(loaded.current_term(), 4);
    assert_eq!(loaded.voted_for(), Some(2));
    assert_eq!(loaded.log(), node.log());
    assert_eq!(loaded.get("foo"), Some("bar".to_string()));
}

fn node() -> Node {
    let put = |term: u64, value: &str| LogEntry {
        term,
        command: Command::Put {
            key: "k".to_string(),
            value: value.to_string(),
        },
    };
    Node::from_parts(
        0,
        vec![1, 2],
        3,
        Some(1),
        vec![put(1, "a"), put(2, "b"), put(3, "c")],
        2,
    )
}

fn small_snapshot() -> Snapshot {
    Snapshot {
        version: SNAPSHOT_FORMAT_VERSION,
        last_included_index: 2,
        last_included_term: 3,
        state: StateSnapshot {
            version: SNAPSHOT_FORMAT_VERSION,
            last_applied: 2,
            data: vec![("k".to_string(), "v".to_string())],
        },
    }
}

#[test]
fn compacted_node_comes_back_whole() {
    let mut source = node();
    source.compact_to(2).unwrap();
    let kept = PersistedState::from_node(&source);
    assert_eq!(kept.version, 2);
    let back = kept
        .clone()
        .restore(0, vec![1, 2], MemoryStateMachine::new())
        .unwrap();
    assert_eq!(back.role(), Role::Follower);
    assert_eq!(back.log(), source.log());
    assert_eq!(back.snapshot(), source.snapshot());
    assert_eq!(back.commit_index(), 2);
    assert_eq!(back.last_applied(), 2);
    assert_eq!(back.last_log_index(), 3);
    assert_eq!(back.get("k"), Some("b".to_string()));
    assert_eq!(PersistedState::from_node(&back), kept);
}

#[test]
fn durable_state_alone_brings_a_node_back() {
    let source = node();
    let durable = DurableState::from_node(&source);
    assert_eq!(durable.current_term, 3);
    assert_eq!(durable.voted_for, Some(1));
    assert_eq!(durable.commit_index, 2);
    let back = StoredState::Legacy(durable.clone())
        .restore(0, vec![1, 2], MemoryStateMachine::new())
        .unwrap();
    assert_eq!(DurableState::from_node(&back), durable);
    assert_eq!(back.get("k"), Some("b".to_string()));
}

#[test]
fn missing_state_makes_a_new_node() {
    let back = StoredState::Missing
        .restore(7, vec![1], MemoryStateMachine::new())
        .unwrap();
    assert_eq!(back.id(), 7);
    assert_eq!(back.current_term(), 0);
    assert_eq!(back.log(), &[]);
}

#[test]
fn persisted_state_of_another_version_is_refused() {
    let mut kept = PersistedState::from_node(&node());
    kept.version = 1;
    assert_eq!(
        kept.restore(0, vec![1, 2], MemoryStateMachine::new())
            .unwrap_err(),
        Error::UnsupportedPersistedVersion
    );
}

#[test]
fn log_that_does_not_start_at_its_snapshot_is_refused() {
    let mut source = node();
    source.compact_to(2).unwrap();
    let kept = PersistedState::from_node(&source);

    let mut other_term = kept.clone();
    other_term.durable.log[0].term = 9;
    assert_eq!(
        other_term
            .restore(0, vec![1, 2], MemoryStateMachine::new())
            .unwrap_err(),
        Error::LogBoundaryMismatch
    );

    let mut no_log = kept.clone();
    no_log.durable.log.clear();
    assert_eq!(
        no_log
            .restore(0, vec![1, 2], MemoryStateMachine::new())
            .unwrap_err(),
        Error::LogBoundaryMismatch
    );

    let mut malformed = kept;
    malformed.snapshot.as_mut().unwrap().last_included_index = 0;
    assert_eq!(
        malformed
            .restore(0, vec![1, 2], MemoryStateMachine::new())
            .unwrap_err(),
        Error::ZeroSnapshotBoundary
    );
}

#[test]
fn machine_limits_are_seen_before_restoring() {
    assert!(StoredState::Missing.fits_machine());
    let mut source = node();
    source.compact_to(2).unwrap();
    let mut kept = PersistedState::from_node(&source);
    assert!(StoredState::Current(kept.clone()).fits_machine());
    let snapshot = kept.snapshot.as_mut().unwrap();
    snapshot.last_included_index = usize::MAX;
    snapshot.state.last_applied = usize::MAX;
    assert!(!StoredState::Current(kept.clone()).fits_machine());
    kept.snapshot.as_mut().unwrap().version = 7;
    assert!(StoredState::Current(kept).fits_machine());
}

#[test]
fn payload_is_found_behind_its_magic() {
    let file = persisted_file(vec![1, 2, 3]);
    assert_eq!(&file[..8], b"RKVPST02");
    assert_eq!(persisted_payload(&file), Some(vec![1, 2, 3]));
    assert_eq!(persisted_payload(b"RKVPST0"), None);
    assert_eq!(persisted_payload(b"RKVSNP01x"), None);
    assert_eq!(persisted_payload(b"RKVPST02"), Some(vec![]));
}

#[test]
fn snapshot_file_has_the_expected_bytes() {
    let mut expected = b"RKVSNP01".to_vec();
    expected.extend(1u32.to_le_bytes());
    expected.extend(2u64.to_le_bytes());
    expected.extend(3u64.to_le_bytes());
    expected.extend(1u32.to_le_bytes());
    expected.extend(2u64.to_le_bytes());
    expected.extend(1u64.to_le_bytes());
    expected.extend(1u64.to_le_bytes());
    expected.extend(b"k");
    expected.extend(1u64.to_le_bytes());
    expected.extend(b"v");
    let file = encode_snapshot_file(&small_snapshot()).unwrap();
    assert_eq!(file, expected);
    assert_eq!(decode_snapshot_file(&file).unwrap(), small_snapshot());
    assert_eq!(persisted_payload(&file), None);
    assert_eq!(
        decode_snapshot_file(&persisted_file(file)).unwrap_err(),
        Error::InvalidSnapshotMagic
    );
}

#[test]
fn malformed_snapshot_files_are_told_apart() {
    assert_eq!(
        decode_snapshot_file(b"RKVSNP0").unwrap_err(),
        Error::InvalidSnapshotMagic
    );
    assert_eq!(
        decode_snapshot_file(b"RKVSNP01 short").unwrap_err(),
        Error::Undecodable
    );
    let mut malformed = small_snapshot();
    malformed.state.last_applied = 1;
    assert_eq!(
        encode_snapshot_file(&malformed).unwrap_err(),
        Error::SnapshotIndexMismatch
    );
    let mut file = b"RKVSNP01".to_vec();
    file.extend(encode_snapshot(&malformed).unwrap());
    assert_eq!(
        decode_snapshot_file(&file).unwrap_err(),
        Error::SnapshotIndexMismatch
    );
}

#[test]
fn snapshot_decodes_to_itself_and_trailing_bytes_are_ignored() {
    let mut bytes = encode_snapshot(&small_snapshot()).unwrap();
    assert_eq!(decode_snapshot(&bytes), Some(small_snapshot()));
    bytes.push(0);
    assert_eq!(decode_snapshot(&bytes), Some(small_snapshot()));
    bytes.truncate(10);
    assert_eq!(decode_snapshot(&bytes), None);
}

#[test]
fn transfer_id_is_the_hash_of_the_encoding() {
    assert_eq!(hash_bytes(b""), 0xcbf2_9ce4_8422_2325);
    assert_eq!(hash_bytes(b"a"), 0xaf63_dc4c_8601_ec8c);
    let bytes = encode_snapshot(&small_snapshot()).unwrap();
    assert_eq!(snapshot_id(&small_snapshot()), hash_bytes(&bytes));
}

#[test]
fn temporary_file_has_the_name_of_the_file_it_stands_for() {
    assert_eq!(temporary_name(Some("node.bin")), ".node.bin.tmp");
    assert_eq!(temporary_name(None), ".state.bin.tmp");
}
