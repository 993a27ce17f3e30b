use raft_kv::AppendEntriesReply;
use raft_kv::ClientRequest;
use raft_kv::Command;
use raft_kv::LogEntry;
use raft_kv::Node;
use raft_kv::PreVoteReply;
use raft_kv::ReadIndexReply;
use raft_kv::RequestVoteReply;
use raft_kv::Role;
use raft_kv::Rpc;
use raft_kv::MAX_APPEND_ENTRIES;
use raft_kv::SNAPSHOT_CHUNK_BYTES;

fn elect(node: &mut Node, now_ms: u64) {
    let _ = node.tick(now_ms);
    assert_eq!(node.role(), Role::Follower);
    for peer in node.peers().to_vec() {
        let _ = node.handle_message(
            peer,
            Rpc::PreVoteReply(PreVoteReply {
                term: node.current_term(),
                vote_granted: true,
            }),
            now_ms,
        );
    }
    assert_eq!(node.role(), Role::Candidate);
    for peer in node.peers().to_vec() {
        let _ = node.handle_message(
            peer,
            Rpc::RequestVoteReply(RequestVoteReply {
                term: node.current_term(),
                vote_granted: true,
            }),
            now_ms,
        );
    }
    assert_eq!(node.role(), Role::Leader);
}

#[test]
fn duplicate_vote_reply_is_counted_once() {
    let mut node = Node::new(0, vec![1, 2, 3, 4]);
    let _ = node.tick(300);
    for peer in node.peers().to_vec() {
        let _ = node.handle_message(
            peer,
            Rpc::PreVoteReply(PreVoteReply {
                term: node.current_term(),
                vote_granted: true,
            }),
            300,
        );
        if node.role() == Role::Candidate {
            break;
        }
    }
    assert_eq!(node.role(), Role::Candidate);

    let _ = node.handle_message(
        1,
        Rpc::RequestVoteReply(RequestVoteReply {
            term: 1,
            vote_granted: true,
        }),
        300,
    );
    let _ = node.handle_message(
        1,
        Rpc::RequestVoteReply(RequestVoteReply {
            term: 1,
            vote_granted: true,
        }),
        300,
    );
    assert_eq!(
        node.role(),
        Role::Candidate,
        "a duplicated grant from one peer must not win the election"
    );

    let _ = node.handle_message(
        2,
        Rpc::RequestVoteReply(RequestVoteReply {
            term: 1,
            vote_granted: true,
        }),
        300,
    );
    assert_eq!(node.role(), Role::Leader);
}

#[test]
fn step_down_resets_election_timer_from_now() {
    let mut node = Node::new(0, vec![1, 2, 3, 4]);
    elect(&mut node, 300);

    let _ = node.handle_message(
        1,
        Rpc::AppendEntriesReply(AppendEntriesReply {
            term: 5,
            success: false,
            match_index: 0,
        }),
        1000,
    );
    assert_eq!(node.role(), Role::Follower);
    assert_eq!(node.current_term(), 5);

    let messages = node.tick(1001);
    assert!(
        messages.is_empty(),
        "a node that just stepped down must wait out the election timeout, not campaign immediately"
    );
}

#[test]
fn step_down_clears_stale_self_leader_hint() {
    let mut node = Node::new(0, vec![1, 2, 3, 4]);
    elect(&mut node, 300);
    assert_eq!(node.leader_id(), Some(0));

    let _ = node.handle_message(
        1,
        Rpc::AppendEntriesReply(AppendEntriesReply {
            term: 9,
            success: false,
            match_index: 0,
        }),
        1000,
    );
    assert_eq!(node.role(), Role::Follower);
    assert_eq!(
        node.leader_id(),
        None,
        "a stepped-down leader must not redirect clients to itself"
    );
}

#[test]
fn stale_success_reply_does_not_regress_next_index() {
    let mut node = Node::new(0, vec![1]);
    elect(&mut node, 300);
    let _ = node.start_client_write(ClientRequest::Put {
        key: "k1".to_string(),
        value: "v1".to_string(),
    });
    let _ = node.start_client_write(ClientRequest::Put {
        key: "k2".to_string(),
        value: "v2".to_string(),
    });
    assert_eq!(node.last_log_index(), 3);

    let _ = node.handle_message(
        1,
        Rpc::AppendEntriesReply(AppendEntriesReply {
            term: 1,
            success: true,
            match_index: 3,
        }),
        300,
    );
    let _ = node.handle_message(
        1,
        Rpc::AppendEntriesReply(AppendEntriesReply {
            term: 1,
            success: true,
            match_index: 2,
        }),
        300,
    );
    let messages = node.tick(360);
    let heartbeat = messages
        .iter()
        .find_map(|message| match &message.rpc {
            Rpc::AppendEntries(entries) if message.to == 1 => Some(entries),
            _ => None,
        })
        .expect("leader sends a heartbeat to the peer");
    assert_eq!(
        heartbeat.prev_log_index, 3,
        "a delayed duplicate success reply must not regress next_index and re-replicate"
    );
}

#[test]
fn snapshot_install_records_the_sender_as_leader() {
    let mut source = Node::from_parts(
        0,
        vec![1],
        1,
        None,
        vec![LogEntry {
            term: 1,
            command: Command::Put {
                key: "k".to_string(),
                value: "v".to_string(),
            },
        }],
        1,
    );
    let snapshot = source.compact_to(1).unwrap();
    let mut node = Node::new(1, vec![0]);
    assert_eq!(node.leader_id(), None);

    let messages = node.handle_message(0, Rpc::InstallSnapshot(snapshot), 500);
    assert_eq!(node.get("k"), Some("v".to_string()));
    assert_eq!(
        node.leader_id(),
        Some(0),
        "a follower that accepted a snapshot from its leader must remember the leader"
    );
    assert!(matches!(messages[0].rpc, Rpc::InstallSnapshotReply(_)));
}

#[test]
fn pre_vote_does_not_advance_term_before_a_majority() {
    let mut node = Node::new(0, vec![1, 2, 3, 4]);
    let messages = node.tick(300);
    assert_eq!(node.role(), Role::Follower);
    assert_eq!(node.current_term(), 0);
    assert!(
        messages
            .iter()
            .all(|message| matches!(message.rpc, Rpc::PreVote(_)))
    );
    let _ = node.handle_message(
        1,
        Rpc::PreVoteReply(PreVoteReply {
            term: 0,
            vote_granted: true,
        }),
        300,
    );
    assert_eq!(node.current_term(), 0);
    assert_eq!(node.role(), Role::Follower);
}

#[test]
fn read_index_waits_for_quorum_and_current_term_apply() {
    let mut node = Node::new(0, vec![1, 2, 3, 4]);
    elect(&mut node, 300);
    let (read, messages) = node.start_client_read().unwrap();
    assert_eq!(messages.len(), 4);
    assert!(!node.read_committed_and_applied(read));
    for peer in [1, 2] {
        let _ = node.handle_message(
            peer,
            Rpc::ReadIndexReply(ReadIndexReply {
                term: read.term,
                request_id: read.id,
                applied_index: 0,
            }),
            301,
        );
    }
    assert!(!node.read_committed_and_applied(read));
    for peer in [1, 2] {
        let _ = node.handle_message(
            peer,
            Rpc::AppendEntriesReply(AppendEntriesReply {
                term: read.term,
                success: true,
                match_index: 1,
            }),
            302,
        );
    }
    assert!(node.read_committed_and_applied(read));
    node.finish_read(read);
}

#[test]
fn check_quorum_steps_down_after_lost_majority() {
    let mut node = Node::new(0, vec![1, 2, 3, 4]);
    elect(&mut node, 300);
    assert_eq!(node.role(), Role::Leader);
    let _ = node.tick(601);
    assert_eq!(node.role(), Role::Follower);
    assert_eq!(node.leader_id(), None);
}

#[test]
fn leader_transfer_waits_for_target_catch_up_then_sends_timeout_now() {
    let mut node = Node::new(0, vec![1]);
    elect(&mut node, 300);
    let first = node.transfer_leadership(1, 301).unwrap();
    assert!(matches!(first[0].rpc, Rpc::AppendEntries(_)));
    let second = node.handle_message(
        1,
        Rpc::AppendEntriesReply(AppendEntriesReply {
            term: node.current_term(),
            success: true,
            match_index: node.last_log_index(),
        }),
        302,
    );
    assert!(matches!(second[0].rpc, Rpc::TimeoutNow(_)));
}

#[test]
fn append_entries_are_chunked_for_large_backlogs() {
    let mut node = Node::new(0, vec![1]);
    elect(&mut node, 300);
    for index in 0..(MAX_APPEND_ENTRIES + 1) {
        let _ = node.start_client_write(ClientRequest::Put {
            key: format!("k{index}"),
            value: "v".to_string(),
        });
    }
    let _ = node.handle_message(
        1,
        Rpc::AppendEntriesReply(AppendEntriesReply {
            term: node.current_term(),
            success: true,
            match_index: 1,
        }),
        301,
    );
    let messages = node.tick(351);
    let entries = messages
        .iter()
        .find_map(|message| match &message.rpc {
            Rpc::AppendEntries(request) => Some(request.entries.len()),
            _ => None,
        })
        .unwrap();
    assert!(entries <= MAX_APPEND_ENTRIES);
}

#[test]
fn interrupted_snapshot_chunks_leave_follower_unchanged_until_final_chunk() {
    let value = "x".repeat(SNAPSHOT_CHUNK_BYTES);
    let mut source = Node::from_parts(
        0,
        vec![1],
        1,
        None,
        vec![
            LogEntry {
                term: 1,
                command: Command::Put {
                    key: "large".to_string(),
                    value: value.clone(),
                },
            },
            LogEntry {
                term: 1,
                command: Command::Put {
                    key: "marker".to_string(),
                    value: "done".to_string(),
                },
            },
        ],
        2,
    );
    source.compact_to(2).unwrap();
    let chunks = source.snapshot_transfer_chunks(1);
    assert!(chunks.len() > 1);
    let mut follower = Node::new(1, vec![0]);
    let first_reply = follower.handle_message(0, chunks[0].rpc.clone(), 10);
    assert_eq!(follower.get("large"), None);
    assert!(matches!(
        first_reply[0].rpc,
        Rpc::InstallSnapshotChunkReply(_)
    ));
    for message in chunks.into_iter().skip(1) {
        let _ = follower.handle_message(0, message.rpc, 10);
    }
    assert_eq!(follower.get("large"), Some(value));
    assert_eq!(follower.get("marker"), Some("done".to_string()));
}
