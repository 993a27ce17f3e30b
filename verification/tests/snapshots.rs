use raft_kv::Command;
use raft_kv::Error;
use raft_kv::ErrorKind;
use raft_kv::InstallSnapshotChunk;
use raft_kv::InstallSnapshotChunkReply;
use raft_kv::InstallSnapshotReply;
use raft_kv::InstallSnapshotRequest;
use raft_kv::LogEntry;
use raft_kv::Message;
use raft_kv::Node;
use raft_kv::PreVoteReply;
use raft_kv::RequestVoteReply;
use raft_kv::Role;
use raft_kv::Rpc;
use raft_kv::Snapshot;
use raft_kv::SnapshotInstallResult;
use raft_kv::StateSnapshot;
use raft_kv::SNAPSHOT_CHUNK_BYTES;
use raft_kv::SNAPSHOT_FORMAT_VERSION;

fn put(term: u64, key: &str, value: &str) -> LogEntry {
    LogEntry {
        term,
        command: Command::Put {
            key: key.to_string(),
            value: value.to_string(),
        },
    }
}

fn delete(term: u64, key: &str) -> LogEntry {
    LogEntry {
        term,
        command: Command::Delete {
            key: key.to_string(),
        },
    }
}

fn source() -> Node {
    Node::from_parts(
        0,
        vec![1, 2],
        2,
        None,
        vec![
            put(1, "b", "1"),
            put(1, "a", "2"),
            delete(2, "b"),
            put(2, "c", "3"),
        ],
        3,
    )
}

fn snapshot(index: usize, term: u64, pairs: &[(&str, &str)]) -> Snapshot {
    Snapshot {
        version: SNAPSHOT_FORMAT_VERSION,
        last_included_index: index,
        last_included_term: term,
        state: StateSnapshot {
            version: SNAPSHOT_FORMAT_VERSION,
            last_applied: index,
            data: pairs
                .iter()
                .map(|(key, value)| (key.to_string(), value.to_string()))
                .collect(),
        },
    }
}

#[test]
fn state_is_what_the_committed_log_makes_of_nothing() {
    let node = source();
    assert_eq!(node.last_applied(), 3);
    assert_eq!(node.get("a"), Some("2".to_string()));
    assert_eq!(node.get("b"), None);
    assert_eq!(node.get("c"), None);
    assert_eq!(node.create_snapshot().unwrap(), snapshot(3, 2, &[("a", "2")]));
}

#[test]
fn compaction_loses_nothing() {
    let mut node = source();
    let taken = node.compact_to(3).unwrap();
    assert_eq!(taken, snapshot(3, 2, &[("a", "2")]));
    assert_eq!(node.snapshot(), Some(&taken));
    assert_eq!(node.snapshot_index(), 3);
    assert_eq!(node.commit_index(), 3);
    assert_eq!(node.last_log_index(), 4);
    assert_eq!(node.term_at(2), None);
    assert_eq!(node.term_at(3), Some(2));
    assert_eq!(node.term_at(4), Some(2));
    assert_eq!(node.log()[1], put(2, "c", "3"));
    assert_eq!(node.get("a"), Some("2".to_string()));
}

#[test]
fn compaction_elsewhere_than_at_the_applied_index_is_refused() {
    let mut node = source();
    for index in [0, 2, 4, usize::MAX] {
        let error = node.compact_to(index).unwrap_err();
        assert_eq!(error, Error::CompactionPoint);
        assert_eq!(error.kind(), ErrorKind::InvalidInput);
    }
    node.compact_to(3).unwrap();
    assert_eq!(node.compact_to(3).unwrap_err(), Error::CompactionPoint);
}

#[test]
fn new_node_has_no_snapshot_to_take() {
    let node = Node::new(0, vec![1]);
    assert_eq!(
        node.create_snapshot().unwrap_err(),
        Error::ZeroSnapshotBoundary
    );
}

#[test]
fn compacted_state_reaches_others() {
    let mut node = source();
    let taken = node.compact_to(3).unwrap();
    let mut other = Node::from_parts(1, vec![0, 2], 1, None, vec![put(1, "z", "9")], 0);
    assert_eq!(
        other.install_snapshot(taken.clone()).unwrap(),
        SnapshotInstallResult::Installed
    );
    assert_eq!(other.create_snapshot().unwrap(), taken);
    assert_eq!(other.get("z"), None);
    assert_eq!(other.commit_index(), 3);
    assert_eq!(other.last_log_index(), 3);
    assert_eq!(other.current_term(), 1);
    assert_eq!(
        other.install_snapshot(taken).unwrap(),
        SnapshotInstallResult::Stale
    );
}

#[test]
fn entries_behind_a_known_boundary_survive_an_install() {
    let mut node = Node::from_parts(
        1,
        vec![0],
        2,
        None,
        vec![put(1, "a", "1"), put(1, "a", "2"), put(2, "a", "3")],
        0,
    );
    node.install_snapshot(snapshot(2, 1, &[("a", "2")])).unwrap();
    assert_eq!(node.last_log_index(), 3);
    assert_eq!(node.term_at(3), Some(2));
    let mut other = Node::from_parts(
        1,
        vec![0],
        2,
        None,
        vec![put(1, "a", "1"), put(1, "a", "2"), put(2, "a", "3")],
        0,
    );
    other
        .install_snapshot(snapshot(2, 2, &[("a", "2")]))
        .unwrap();
    assert_eq!(other.last_log_index(), 2);
}

#[test]
fn malformed_snapshots_change_nothing() {
    let mut wrong_version = snapshot(5, 2, &[]);
    wrong_version.version = 2;
    let mut wrong_state_version = snapshot(5, 2, &[]);
    wrong_state_version.state.version = 0;
    let mut wrong_index = snapshot(5, 2, &[]);
    wrong_index.state.last_applied = 4;
    for (malformed, expected) in [
        (wrong_version, Error::UnsupportedSnapshotVersion),
        (wrong_state_version, Error::UnsupportedSnapshotVersion),
        (snapshot(0, 0, &[]), Error::ZeroSnapshotBoundary),
        (wrong_index, Error::SnapshotIndexMismatch),
        (
            snapshot(5, 2, &[("b", ""), ("a", "")]),
            Error::UnorderedSnapshotKeys,
        ),
        (
            snapshot(5, 2, &[("a", ""), ("a", "")]),
            Error::UnorderedSnapshotKeys,
        ),
    ] {
        let mut node = source();
        let error = node.install_snapshot(malformed).unwrap_err();
        assert_eq!(error, expected);
        assert_eq!(error.kind(), ErrorKind::InvalidData);
        assert_eq!(node.log(), source().log());
        assert_eq!(node.snapshot(), None);
        assert_eq!(node.get("a"), Some("2".to_string()));
    }
}

#[test]
fn keys_are_ordered_by_their_bytes() {
    let node = Node::from_parts(
        0,
        vec![],
        1,
        None,
        vec![
            put(1, "z", ""),
            put(1, "\u{e9}", ""),
            put(1, "Z", ""),
            put(1, "", ""),
            put(1, "aa", ""),
            put(1, "a", ""),
            put(1, "\u{1f600}", ""),
            put(1, "\u{ffff}", ""),
        ],
        8,
    );
    let keys: Vec<String> = node
        .create_snapshot()
        .unwrap()
        .state
        .data
        .into_iter()
        .map(|(key, _)| key)
        .collect();
    let mut expected = keys.clone();
    expected.sort();
    assert_eq!(keys, expected);
    assert_eq!(keys[0], "");
    assert_eq!(keys[7], "\u{1f600}");
}

fn leader_with_snapshot(value: &str) -> Node {
    let mut node = Node::from_parts(0, vec![1], 1, None, vec![put(1, "large", value)], 1);
    node.compact_to(1).unwrap();
    let _ = node.tick(300);
    let _ = node.handle_message(
        1,
        Rpc::PreVoteReply(PreVoteReply {
            term: 1,
            vote_granted: true,
        }),
        300,
    );
    let messages = node.handle_message(
        1,
        Rpc::RequestVoteReply(RequestVoteReply {
            term: 2,
            vote_granted: true,
        }),
        300,
    );
    assert_eq!(node.role(), Role::Leader);
    assert_eq!(messages.len(), 1);
    node
}

fn refuse_until_snapshot(node: &mut Node) -> Message {
    let refusal = Rpc::AppendEntriesReply(raft_kv::AppendEntriesReply {
        term: 2,
        success: false,
        match_index: 0,
    });
    let messages = node.handle_message(1, refusal.clone(), 301);
    assert!(matches!(messages[0].rpc, Rpc::AppendEntries(_)));
    let mut messages = node.handle_message(1, refusal, 301);
    messages.remove(0)
}

#[test]
fn small_snapshot_travels_in_one_request() {
    let mut leader = leader_with_snapshot("v");
    let message = refuse_until_snapshot(&mut leader);
    let mut follower = Node::new(1, vec![0]);
    match &message.rpc {
        Rpc::InstallSnapshotRequest(request) => {
            assert_eq!(request.term, 2);
            assert_eq!(request.leader_id, 0);
            assert_eq!(Some(&request.snapshot), leader.snapshot());
        }
        other => panic!("not a snapshot request: {other:?}"),
    }
    let replies = follower.handle_message(0, message.rpc, 302);
    assert_eq!(
        replies[0].rpc,
        Rpc::InstallSnapshotReply(InstallSnapshotReply {
            term: 2,
            accepted: true,
            last_included_index: 1,
        })
    );
    assert_eq!(follower.get("large"), Some("v".to_string()));
    assert_eq!(follower.leader_id(), Some(0));
    assert_eq!(follower.current_term(), 2);
    let next = leader.handle_message(1, replies[0].rpc.clone(), 303);
    match &next[0].rpc {
        Rpc::AppendEntries(request) => {
            assert_eq!(request.prev_log_index, 1);
            assert_eq!(request.entries.len(), 1);
        }
        other => panic!("not an append: {other:?}"),
    }
}

#[test]
fn large_snapshot_travels_in_chunks_and_is_then_the_followers_state() {
    let value = "x".repeat(2 * SNAPSHOT_CHUNK_BYTES);
    let mut leader = leader_with_snapshot(&value);
    let mut message = refuse_until_snapshot(&mut leader);
    let mut follower = Node::new(1, vec![0]);
    let mut chunks = 0;
    while let Rpc::InstallSnapshotChunk(chunk) = &message.rpc {
        chunks += 1;
        assert!(chunk.data.len() <= SNAPSHOT_CHUNK_BYTES);
        assert_eq!(follower.get("large"), None);
        let replies = follower.handle_message(0, message.rpc.clone(), 302);
        let mut next = leader.handle_message(1, replies[0].rpc.clone(), 303);
        message = next.remove(0);
    }
    assert_eq!(chunks, 3);
    assert_eq!(follower.get("large"), Some(value));
    assert_eq!(follower.snapshot(), leader.snapshot());
    match &message.rpc {
        Rpc::AppendEntries(request) => assert_eq!(request.prev_log_index, 1),
        other => panic!("not an append: {other:?}"),
    }
}

#[test]
fn chunks_put_together_are_the_whole_encoding() {
    let value = "x".repeat(SNAPSHOT_CHUNK_BYTES);
    let leader = leader_with_snapshot(&value);
    let chunks = leader.snapshot_transfer_chunks(1);
    assert_eq!(chunks.len(), 2);
    let mut bytes = Vec::new();
    for (position, message) in chunks.iter().enumerate() {
        match &message.rpc {
            Rpc::InstallSnapshotChunk(chunk) => {
                assert_eq!(chunk.offset, bytes.len());
                assert_eq!(chunk.done, position == 1);
                bytes.extend(chunk.data.iter().copied());
                assert_eq!(
                    chunk.total_size,
                    raft_kv::codec::encode_snapshot(leader.snapshot().unwrap())
                        .unwrap()
                        .len()
                );
            }
            other => panic!("not a chunk: {other:?}"),
        }
    }
    assert_eq!(
        raft_kv::codec::decode_snapshot(&bytes).as_ref(),
        leader.snapshot()
    );
}

#[test]
fn chunk_out_of_turn_is_refused_with_the_offset_that_is_missing() {
    let value = "x".repeat(2 * SNAPSHOT_CHUNK_BYTES);
    let leader = leader_with_snapshot(&value);
    let chunks = leader.snapshot_transfer_chunks(1);
    let mut follower = Node::new(1, vec![0]);
    let reply = |messages: Vec<Message>| match &messages[0].rpc {
        Rpc::InstallSnapshotChunkReply(reply) => *reply,
        other => panic!("not a chunk reply: {other:?}"),
    };
    let refused = reply(follower.handle_message(0, chunks[1].rpc.clone(), 10));
    assert!(!refused.accepted);
    assert_eq!(refused.next_offset, 0);
    let accepted = reply(follower.handle_message(0, chunks[0].rpc.clone(), 11));
    assert!(accepted.accepted);
    assert_eq!(accepted.next_offset, SNAPSHOT_CHUNK_BYTES);
    let refused = reply(follower.handle_message(0, chunks[2].rpc.clone(), 12));
    assert!(!refused.accepted);
    assert_eq!(refused.next_offset, SNAPSHOT_CHUNK_BYTES);
    assert_eq!(follower.get("large"), None);
}

#[test]
fn chunk_that_does_not_decode_is_refused() {
    let mut follower = Node::new(1, vec![0]);
    let messages = follower.handle_message(
        0,
        Rpc::InstallSnapshotChunk(InstallSnapshotChunk {
            term: 1,
            leader_id: 0,
            snapshot_id: 7,
            offset: 0,
            total_size: 3,
            data: vec![1, 2, 3],
            done: true,
        }),
        10,
    );
    assert_eq!(
        messages[0].rpc,
        Rpc::InstallSnapshotChunkReply(InstallSnapshotChunkReply {
            term: 1,
            snapshot_id: 7,
            accepted: false,
            next_offset: 3,
        })
    );
    assert_eq!(follower.snapshot(), None);
}

#[test]
fn snapshot_of_an_old_term_or_of_another_sender_is_refused() {
    let mut follower = Node::from_parts(1, vec![0, 2], 5, None, vec![], 0);
    for (from, term) in [(0, 4), (2, 5)] {
        let messages = follower.handle_message(
            from,
            Rpc::InstallSnapshotRequest(InstallSnapshotRequest {
                term,
                leader_id: 0,
                snapshot: snapshot(3, 1, &[("a", "1")]),
            }),
            10,
        );
        assert_eq!(
            messages[0].rpc,
            Rpc::InstallSnapshotReply(InstallSnapshotReply {
                term: 5,
                accepted: false,
                last_included_index: 3,
            })
        );
        assert_eq!(follower.get("a"), None);
    }
}

#[test]
fn copy_of_a_node_goes_its_own_way() {
    let mut node = source();
    let copy = node.clone();
    node.compact_to(3).unwrap();
    assert_eq!(copy.snapshot_index(), 0);
    assert_eq!(copy.get("a"), Some("2".to_string()));
    assert_eq!(copy.log().len(), 4);
}
