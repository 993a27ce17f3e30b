use raft_kv::AppendEntries;
use raft_kv::AppendEntriesReply;
use raft_kv::ClientRequest;
use raft_kv::Command;
use raft_kv::InstallSnapshotReply;
use raft_kv::LogEntry;
use raft_kv::Message;
use raft_kv::Node;
use raft_kv::PreVote;
use raft_kv::PreVoteReply;
use raft_kv::ReadIndex;
use raft_kv::ReadIndexReply;
use raft_kv::RequestVote;
use raft_kv::RequestVoteReply;
use raft_kv::Role;
use raft_kv::Rpc;
use raft_kv::TimeoutNow;

fn noop(term: u64) -> LogEntry {
    LogEntry {
        term,
        command: Command::Noop,
    }
}

fn ask(term: u64, candidate_id: usize, last_log_index: usize, last_log_term: u64) -> Rpc {
    Rpc::RequestVote(RequestVote {
        term,
        candidate_id,
        last_log_index,
        last_log_term,
    })
}

fn granted(messages: &[Message]) -> bool {
    match &messages[0].rpc {
        Rpc::RequestVoteReply(reply) => reply.vote_granted,
        other => panic!("not a vote: {other:?}"),
    }
}

fn vote(term: u64) -> Rpc {
    Rpc::RequestVoteReply(RequestVoteReply {
        term,
        vote_granted: true,
    })
}

fn pre_vote(term: u64) -> Rpc {
    Rpc::PreVoteReply(PreVoteReply {
        term,
        vote_granted: true,
    })
}

/// A leader of term one in a cluster of three.
fn leader() -> Node {
    let mut node = Node::new(0, vec![1, 2]);
    let _ = node.tick(300);
    let _ = node.handle_message(1, pre_vote(0), 300);
    assert_eq!(node.role(), Role::Candidate);
    let _ = node.handle_message(1, vote(1), 300);
    assert_eq!(node.role(), Role::Leader);
    node
}

#[test]
fn vote_needs_a_log_that_is_complete() {
    let mut node = Node::from_parts(1, vec![0, 2], 1, None, vec![noop(1), noop(1)], 0);
    assert!(!granted(&node.handle_message(0, ask(2, 0, 1, 1), 10)));
    assert!(!granted(&node.handle_message(0, ask(2, 0, 9, 0), 10)));
    assert!(granted(&node.handle_message(0, ask(2, 0, 2, 1), 10)));
    assert_eq!(node.current_term(), 2);
    assert_eq!(node.voted_for(), Some(0));
}

#[test]
fn node_votes_once_per_term() {
    let mut node = Node::new(1, vec![0, 2]);
    assert!(granted(&node.handle_message(0, ask(1, 0, 0, 0), 10)));
    assert!(!granted(&node.handle_message(2, ask(1, 2, 0, 0), 11)));
    assert!(granted(&node.handle_message(0, ask(1, 0, 0, 0), 12)));
    assert_eq!(node.voted_for(), Some(0));
    assert!(granted(&node.handle_message(2, ask(2, 2, 0, 0), 13)));
    assert_eq!(node.voted_for(), Some(2));
}

#[test]
fn vote_of_an_old_term_is_refused() {
    let mut node = Node::from_parts(1, vec![0, 2], 5, None, vec![], 0);
    let messages = node.handle_message(0, ask(4, 0, 0, 0), 10);
    assert!(!granted(&messages));
    assert_eq!(messages[0].from, 1);
    assert_eq!(messages[0].to, 0);
    assert_eq!(node.current_term(), 5);
    assert_eq!(node.voted_for(), None);
}

#[test]
fn leader_refuses_others_of_its_term() {
    let mut node = leader();
    assert!(!granted(&node.handle_message(2, ask(1, 2, 9, 9), 301)));
    assert_eq!(node.role(), Role::Leader);
}

#[test]
fn clock_elects_nobody() {
    let mut node = Node::new(0, vec![1, 2]);
    for now in 0..2_000 {
        let _ = node.tick(now);
        assert_eq!(node.role(), Role::Follower);
    }
    assert_eq!(node.current_term(), 0);
}

#[test]
fn votes_of_another_term_count_for_nothing() {
    let mut node = Node::new(0, vec![1, 2]);
    let _ = node.tick(300);
    let _ = node.handle_message(1, pre_vote(0), 300);
    assert_eq!(node.current_term(), 1);
    assert!(node.handle_message(1, vote(0), 300).is_empty());
    assert_eq!(node.role(), Role::Candidate);
}

#[test]
fn pre_vote_asks_about_the_next_term_and_leaves_the_vote() {
    let mut node = Node::from_parts(0, vec![1, 2], 4, Some(2), vec![noop(4)], 0);
    let messages = node.tick(300);
    assert_eq!(messages.len(), 2);
    for message in &messages {
        match &message.rpc {
            Rpc::PreVote(request) => {
                assert_eq!(request.term, 5);
                assert_eq!(request.candidate_id, 0);
                assert_eq!(request.last_log_index, 1);
                assert_eq!(request.last_log_term, 4);
            }
            other => panic!("not a pre-vote: {other:?}"),
        }
    }
    assert_eq!(node.current_term(), 4);
    assert_eq!(node.voted_for(), Some(2));
}

#[test]
fn pre_vote_request_changes_nothing() {
    let mut node = Node::from_parts(1, vec![0, 2], 4, Some(2), vec![noop(4)], 0);
    let messages = node.handle_message(
        0,
        Rpc::PreVote(PreVote {
            term: 9,
            candidate_id: 0,
            last_log_index: 1,
            last_log_term: 4,
        }),
        10,
    );
    assert_eq!(
        messages[0].rpc,
        Rpc::PreVoteReply(PreVoteReply {
            term: 4,
            vote_granted: true,
        })
    );
    assert_eq!(node.current_term(), 4);
    assert_eq!(node.voted_for(), Some(2));
}

#[test]
fn live_leader_is_left_alone_until_its_lease_is_over() {
    let mut node = Node::new(1, vec![0, 2]);
    let _ = node.handle_message(
        0,
        Rpc::AppendEntries(AppendEntries {
            term: 1,
            leader_id: 0,
            prev_log_index: 0,
            prev_log_term: 0,
            entries: vec![],
            leader_commit: 0,
        }),
        100,
    );
    let request = Rpc::PreVote(PreVote {
        term: 2,
        candidate_id: 2,
        last_log_index: 0,
        last_log_term: 0,
    });
    let reply = |messages: Vec<Message>| match messages[0].rpc {
        Rpc::PreVoteReply(reply) => reply.vote_granted,
        _ => panic!("not a pre-vote reply"),
    };
    assert!(!reply(node.handle_message(2, request.clone(), 399)));
    assert!(reply(node.handle_message(2, request, 400)));
}

#[test]
fn election_timer_runs_out_between_150_and_300_ms() {
    for id in 0..20 {
        let mut node = Node::new(id, vec![100, 101]);
        for now in 0..150 {
            assert!(node.tick(now).is_empty());
        }
        let mut sent = node.tick(150).len();
        for now in 151..301 {
            sent += node.tick(now).len();
        }
        assert!(sent > 0);
    }
}

#[test]
fn stepping_down_waits_out_the_timer() {
    let mut node = leader();
    let _ = node.handle_message(
        1,
        Rpc::AppendEntriesReply(AppendEntriesReply {
            term: 7,
            success: false,
            match_index: 0,
        }),
        1_000,
    );
    for now in 1_000..1_150 {
        assert!(node.tick(now).is_empty());
    }
    assert_eq!(node.current_term(), 7);
    assert_eq!(node.voted_for(), None);
}

#[test]
fn later_term_in_any_reply_ends_leadership() {
    for rpc in [
        vote(9),
        pre_vote(9),
        Rpc::AppendEntriesReply(AppendEntriesReply {
            term: 9,
            success: true,
            match_index: 0,
        }),
        Rpc::InstallSnapshotReply(InstallSnapshotReply {
            term: 9,
            accepted: true,
            last_included_index: 0,
        }),
        Rpc::ReadIndexReply(ReadIndexReply {
            term: 9,
            request_id: 0,
            applied_index: 0,
        }),
    ] {
        let mut node = leader();
        assert!(node.handle_message(1, rpc, 310).is_empty());
        assert_eq!(node.role(), Role::Follower);
        assert_eq!(node.current_term(), 9);
        assert_eq!(node.leader_id(), None);
        assert_eq!(node.role_label(), "follower");
    }
}

#[test]
fn follower_keeps_its_vote_when_it_hears_from_the_leader() {
    let mut node = Node::new(1, vec![0, 2]);
    assert!(granted(&node.handle_message(0, ask(1, 0, 0, 0), 10)));
    let _ = node.handle_message(
        0,
        Rpc::ReadIndex(ReadIndex {
            term: 1,
            leader_id: 0,
            request_id: 0,
            commit_index: 0,
        }),
        20,
    );
    assert_eq!(node.leader_id(), Some(0));
    assert_eq!(node.voted_for(), Some(0));
    assert!(!granted(&node.handle_message(2, ask(1, 2, 0, 0), 30)));
}

#[test]
fn new_leader_opens_its_term_with_a_no_op() {
    let node = leader();
    assert_eq!(node.role_label(), "leader");
    assert_eq!(node.log(), &[noop(1)]);
    assert_eq!(node.leader_id(), Some(0));
    assert_eq!(node.voted_for(), Some(0));
    assert!(!node.can_serve_reads());
    assert_eq!(node.replication_lag_by_peer(), vec![(1, 0), (2, 0)]);
}

#[test]
fn leadership_is_handed_to_a_peer_that_holds_the_log() {
    let mut node = leader();
    let _ = node.handle_message(
        2,
        Rpc::AppendEntriesReply(AppendEntriesReply {
            term: 1,
            success: true,
            match_index: 1,
        }),
        301,
    );
    let messages = node.transfer_leadership(2, 302).unwrap();
    assert_eq!(
        messages,
        vec![Message {
            from: 0,
            to: 2,
            rpc: Rpc::TimeoutNow(TimeoutNow {
                term: 1,
                leader_id: 0,
            }),
        }]
    );
    let mut target = Node::new(2, vec![0, 1]);
    let requests = target.handle_message(0, messages[0].rpc.clone(), 303);
    assert_eq!(target.role(), Role::Candidate);
    assert_eq!(target.current_term(), 2);
    assert_eq!(target.voted_for(), Some(2));
    assert_eq!(requests.len(), 2);
    assert!(requests
        .iter()
        .all(|message| matches!(message.rpc, Rpc::RequestVote(_))));
}

#[test]
fn timeout_of_someone_else_is_ignored() {
    let mut node = Node::new(2, vec![0, 1]);
    let request = TimeoutNow {
        term: 1,
        leader_id: 0,
    };
    assert!(node
        .handle_message(1, Rpc::TimeoutNow(request), 10)
        .is_empty());
    assert_eq!(node.role(), Role::Follower);
    assert_eq!(node.current_term(), 0);
}

#[test]
fn only_the_leader_serves_clients() {
    let mut node = Node::new(1, vec![0, 2]);
    let refusal = node
        .start_client_write(ClientRequest::Delete {
            key: "k".to_string(),
        })
        .unwrap_err();
    assert!(!refusal.success);
    assert_eq!(refusal.leader_id, None);
    assert!(node.start_client_read().is_err());
    assert_eq!(node.log(), &[]);
}

#[test]
fn reads_wait_for_a_majority_and_are_dropped_on_stepping_down() {
    let mut node = leader();
    let (read, messages) = node.start_client_read().unwrap();
    assert_eq!(read.barrier_index, 1);
    assert_eq!(messages.len(), 2);
    assert!(!node.read_committed_and_applied(read));
    let _ = node.handle_message(
        1,
        Rpc::AppendEntriesReply(AppendEntriesReply {
            term: 1,
            success: true,
            match_index: 1,
        }),
        301,
    );
    assert!(!node.read_committed_and_applied(read));
    let confirmation = Rpc::ReadIndexReply(ReadIndexReply {
        term: 1,
        request_id: read.id,
        applied_index: 0,
    });
    let _ = node.handle_message(9, confirmation.clone(), 302);
    assert!(!node.read_committed_and_applied(read));
    let _ = node.handle_message(1, confirmation, 302);
    assert!(node.read_committed_and_applied(read));
    assert!(node.last_applied() >= read.barrier_index);
    let _ = node.handle_message(1, vote(5), 303);
    assert!(!node.read_committed_and_applied(read));
}

#[test]
fn message_that_cannot_be_handled_is_refused_by_the_checked_function() {
    let mut node = Node::new(2, vec![0, 1]);
    let request = Rpc::TimeoutNow(TimeoutNow {
        term: u64::MAX,
        leader_id: 0,
    });
    assert!(!node.can_handle_message(0, &request, 10));
    assert!(node.checked_handle_message(0, request, 10).is_none());
    assert_eq!(node.current_term(), 0);
    assert!(!node.can_handle_message(0, &vote(1), u64::MAX));
    assert!(node.can_handle_message(0, &vote(0), u64::MAX));
    assert!(node.can_tick(100));
    assert!(!node.can_tick(u64::MAX));
    let fine = node.checked_handle_message(0, ask(1, 0, 0, 0), 10).unwrap();
    assert!(granted(&fine));
}
