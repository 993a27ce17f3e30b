use raft_kv::AppendEntries;
use raft_kv::AppendEntriesReply;
use raft_kv::ClientRequest;
use raft_kv::Command;
use raft_kv::LogEntry;
use raft_kv::Message;
use raft_kv::Node;
use raft_kv::PreVoteReply;
use raft_kv::RequestVoteReply;
use raft_kv::Role;
use raft_kv::Rpc;
use raft_kv::MAX_APPEND_ENTRIES;

fn entry(term: u64, value: &str) -> LogEntry {
    LogEntry {
        term,
        command: Command::Put {
            key: "k".to_string(),
            value: value.to_string(),
        },
    }
}

fn append(
    term: u64,
    prev_log_index: usize,
    prev_log_term: u64,
    entries: Vec<LogEntry>,
    leader_commit: usize,
) -> Rpc {
    Rpc::AppendEntries(AppendEntries {
        term,
        leader_id: 0,
        prev_log_index,
        prev_log_term,
        entries,
        leader_commit,
    })
}

fn answer(messages: &[Message]) -> AppendEntriesReply {
    match &messages[0].rpc {
        Rpc::AppendEntriesReply(reply) => *reply,
        other => panic!("not an append reply: {other:?}"),
    }
}

fn acknowledge(term: u64, match_index: usize) -> Rpc {
    Rpc::AppendEntriesReply(AppendEntriesReply {
        term,
        success: true,
        match_index,
    })
}

fn leader(log: Vec<LogEntry>) -> Node {
    let term = log.last().map_or(0, |last| last.term);
    let mut node = Node::from_parts(0, vec![1, 2], term, None, log, 0);
    let _ = node.tick(300);
    let _ = node.handle_message(
        1,
        Rpc::PreVoteReply(PreVoteReply {
            term,
            vote_granted: true,
        }),
        300,
    );
    let _ = node.handle_message(
        1,
        Rpc::RequestVoteReply(RequestVoteReply {
            term: term + 1,
            vote_granted: true,
        }),
        300,
    );
    assert_eq!(node.role(), Role::Leader);
    node
}

#[test]
fn accepted_entries_replace_what_conflicts() {
    let mut node = Node::from_parts(
        1,
        vec![0, 2],
        2,
        None,
        vec![entry(1, "a"), entry(1, "b"), entry(1, "c")],
        1,
    );
    let request = append(2, 1, 1, vec![entry(1, "b"), entry(2, "d")], 3);
    let reply = answer(&node.handle_message(0, request.clone(), 10));
    assert!(reply.success);
    assert_eq!(reply.match_index, 3);
    assert_eq!(node.log(), &[entry(1, "a"), entry(1, "b"), entry(2, "d")]);
    assert_eq!(node.commit_index(), 3);
    assert_eq!(node.get("k"), Some("d".to_string()));

    let again = answer(&node.handle_message(0, request, 11));
    assert_eq!(again, reply);
    assert_eq!(node.log(), &[entry(1, "a"), entry(1, "b"), entry(2, "d")]);
    assert_eq!(node.commit_index(), 3);
}

#[test]
fn shorter_request_removes_nothing_that_agrees() {
    let log = vec![entry(1, "a"), entry(1, "b"), entry(1, "c")];
    let mut node = Node::from_parts(1, vec![0, 2], 1, None, log.clone(), 0);
    let reply = answer(&node.handle_message(0, append(1, 0, 0, vec![entry(1, "a")], 0), 10));
    assert!(reply.success);
    assert_eq!(reply.match_index, 1);
    assert_eq!(node.log(), log.as_slice());
}

#[test]
fn request_without_its_previous_entry_is_rejected() {
    let log = vec![entry(1, "a")];
    let mut node = Node::from_parts(1, vec![0, 2], 1, None, log.clone(), 0);
    for request in [
        append(1, 2, 1, vec![entry(1, "x")], 2),
        append(1, 1, 2, vec![entry(1, "x")], 2),
    ] {
        let reply = answer(&node.handle_message(0, request, 10));
        assert!(!reply.success);
        assert_eq!(reply.match_index, 1);
        assert_eq!(node.log(), log.as_slice());
        assert_eq!(node.commit_index(), 0);
    }
    assert_eq!(node.leader_id(), Some(0));
}

#[test]
fn request_of_an_old_term_changes_nothing() {
    let mut node = Node::from_parts(1, vec![0, 2], 3, Some(2), vec![entry(3, "a")], 0);
    let reply = answer(&node.handle_message(0, append(2, 0, 0, vec![entry(2, "x")], 1), 10));
    assert_eq!(
        reply,
        AppendEntriesReply {
            term: 3,
            success: false,
            match_index: 1,
        }
    );
    assert_eq!(node.log(), &[entry(3, "a")]);
    assert_eq!(node.leader_id(), None);
    assert_eq!(node.voted_for(), Some(2));
}

#[test]
fn commit_follows_the_leader_no_further_than_the_log() {
    let mut node = Node::new(1, vec![0, 2]);
    let _ = node.handle_message(0, append(1, 0, 0, vec![entry(1, "a")], 9), 10);
    assert_eq!(node.commit_index(), 1);
    assert_eq!(node.last_applied(), 1);
    let _ = node.handle_message(0, append(1, 1, 1, vec![entry(1, "b")], 0), 11);
    assert_eq!(node.commit_index(), 1);
}

#[test]
fn leader_commits_an_entry_of_its_term_that_a_majority_holds() {
    let mut node = leader(vec![entry(1, "old")]);
    assert_eq!(node.current_term(), 2);
    assert_eq!(node.last_log_index(), 2);
    let _ = node.handle_message(1, acknowledge(2, 1), 301);
    assert_eq!(node.commit_index(), 0);
    let _ = node.handle_message(1, acknowledge(2, 2), 302);
    assert_eq!(node.commit_index(), 2);
    assert_eq!(node.get("k"), Some("old".to_string()));
    assert!(node.can_serve_reads());
}

#[test]
fn write_is_done_once_it_is_committed_and_applied() {
    let mut node = leader(vec![]);
    let (write, messages) = node
        .start_client_write(ClientRequest::Put {
            key: "k".to_string(),
            value: "v".to_string(),
        })
        .unwrap();
    assert_eq!(write.index, 2);
    assert_eq!(write.term, 1);
    assert_eq!(messages.len(), 2);
    assert_eq!(node.log()[1], entry(1, "v"));
    assert!(!node.write_committed_and_applied(write));
    assert_eq!(node.get("k"), None);
    let _ = node.handle_message(2, acknowledge(1, 2), 301);
    assert!(node.write_committed_and_applied(write));
    assert_eq!(node.get("k"), Some("v".to_string()));
    assert_eq!(node.read_value("k").unwrap(), Some("v".to_string()));
    assert_eq!(node.replication_lag_by_peer(), vec![(1, 2), (2, 0)]);
}

#[test]
fn leader_backs_off_and_sends_what_is_missing() {
    let mut node = leader(vec![entry(1, "a"), entry(1, "b")]);
    let refusal = Rpc::AppendEntriesReply(AppendEntriesReply {
        term: 2,
        success: false,
        match_index: 0,
    });
    let mut expected = 2;
    for _ in 0..3 {
        let messages = node.handle_message(1, refusal.clone(), 301);
        match &messages[0].rpc {
            Rpc::AppendEntries(request) => {
                assert_eq!(request.prev_log_index, expected);
                assert_eq!(request.entries.len(), 3 - expected);
            }
            other => panic!("not an append: {other:?}"),
        }
        expected = if expected == 0 { 0 } else { expected - 1 };
    }
    let messages = node.handle_message(1, refusal, 301);
    match &messages[0].rpc {
        Rpc::AppendEntries(request) => assert_eq!(request.prev_log_index, 0),
        other => panic!("not an append: {other:?}"),
    }
}

#[test]
fn batch_holds_the_next_entries() {
    let log: Vec<LogEntry> = (0..100).map(|i| entry(1, &format!("{i}"))).collect();
    let mut node = leader(log.clone());
    let _ = node.handle_message(1, acknowledge(2, 10), 301);
    let messages = node.tick(351);
    match &messages[0].rpc {
        Rpc::AppendEntries(request) => {
            assert_eq!(messages[0].to, 1);
            assert_eq!(request.prev_log_index, 10);
            assert_eq!(request.prev_log_term, 1);
            assert_eq!(request.entries.len(), MAX_APPEND_ENTRIES);
            assert_eq!(request.entries.as_slice(), &log[10..74]);
        }
        other => panic!("not an append: {other:?}"),
    }
}

#[test]
fn leader_never_shortens_its_log() {
    let mut node = leader(vec![entry(1, "a")]);
    let before = node.log().to_vec();
    for rpc in [
        append(1, 0, 0, vec![entry(1, "x")], 1),
        acknowledge(2, 0),
        acknowledge(1, 9),
    ] {
        let _ = node.handle_message(1, rpc, 301);
        assert_eq!(node.role(), Role::Leader);
        assert_eq!(&node.log()[..before.len()], before.as_slice());
    }
}

#[test]
fn terms_are_found_at_their_indexes() {
    let node = Node::from_parts(0, vec![1], 3, None, vec![entry(1, "a"), entry(3, "b")], 0);
    assert_eq!(node.term_at(0), Some(0));
    assert_eq!(node.term_at(1), Some(1));
    assert_eq!(node.term_at(2), Some(3));
    assert_eq!(node.term_at(3), None);
    assert_eq!(node.last_log_index(), 2);
}

#[test]
fn follower_commits_as_far_as_its_leader_where_it_has_entries() {
    let log = vec![entry(1, "a"), entry(1, "b")];
    let mut node = Node::from_parts(1, vec![0, 2], 1, None, log, 0);
    let messages = node.handle_message(0, append(1, 0, 0, vec![entry(1, "a")], 2), 10);
    let reply = answer(&messages);
    assert!(reply.success);
    assert_eq!(reply.match_index, 1);
    assert_eq!(node.commit_index(), 2);
}

#[test]
fn follower_commits_its_own_entries_behind_a_cut_batch() {
    let shared: Vec<LogEntry> = (0..MAX_APPEND_ENTRIES).map(|_| entry(1, "shared")).collect();
    let mut log = shared.clone();
    log.push(entry(1, "stale"));
    let mut node = Node::from_parts(1, vec![0, 2], 1, None, log, 0);
    let last = MAX_APPEND_ENTRIES + 1;
    let messages = node.handle_message(0, append(2, 0, 0, shared, last), 10);
    assert_eq!(answer(&messages).match_index, MAX_APPEND_ENTRIES);
    assert_eq!(node.commit_index(), last);
    assert_eq!(node.term_at(last), Some(1));
}
