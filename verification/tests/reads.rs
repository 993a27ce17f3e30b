use raft_kv::check_linearizable;
use raft_kv::AppendEntries;
use raft_kv::AppendEntriesReply;
use raft_kv::ClientReply;
use raft_kv::ClientRequest;
use raft_kv::Cluster;
use raft_kv::FaultPlan;
use raft_kv::Message;
use raft_kv::Node;
use raft_kv::PreVote;
use raft_kv::PreVoteReply;
use raft_kv::ReadIndex;
use raft_kv::ReadIndexReply;
use raft_kv::RequestVote;
use raft_kv::RequestVoteReply;
use raft_kv::Role;
use raft_kv::Rpc;
use raft_kv::Snapshot;
use raft_kv::SnapshotInstallResult;
use raft_kv::StateSnapshot;

fn put(key: &str, value: &str) -> ClientRequest {
    ClientRequest::Put {
        key: key.to_string(),
        value: value.to_string(),
    }
}

fn delete(key: &str) -> ClientRequest {
    ClientRequest::Delete {
        key: key.to_string(),
    }
}

fn get(key: &str) -> ClientRequest {
    ClientRequest::Get {
        key: key.to_string(),
    }
}

fn elected(size: usize, plan: FaultPlan) -> (Cluster, usize) {
    let mut cluster = Cluster::with_fault_plan(size, plan);
    assert!(cluster.run_until(2_000, |cluster| cluster.leader().is_some()));
    let leader = cluster.leader().unwrap();
    (cluster, leader)
}

fn noisy(seed: u64) -> FaultPlan {
    FaultPlan::seeded(seed)
        .with_max_delay_ms(5)
        .with_duplicate_rate_per_mille(200)
        .with_reorder_window(3)
}

/// A leader of term one among five, its first entry committed.
fn leader_of_five() -> Node {
    let mut node = Node::new(0, vec![1, 2, 3, 4]);
    let _ = node.tick(300);
    for peer in [1, 2] {
        let pre_vote = PreVoteReply {
            term: 0,
            vote_granted: true,
        };
        let _ = node.handle_message(peer, Rpc::PreVoteReply(pre_vote), 300);
    }
    for peer in [1, 2] {
        let vote = RequestVoteReply {
            term: 1,
            vote_granted: true,
        };
        let _ = node.handle_message(peer, Rpc::RequestVoteReply(vote), 300);
    }
    assert_eq!(node.role(), Role::Leader);
    for peer in [1, 2] {
        let held = AppendEntriesReply {
            term: 1,
            success: true,
            match_index: 1,
        };
        let _ = node.handle_message(peer, Rpc::AppendEntriesReply(held), 301);
    }
    assert_eq!(node.commit_index(), 1);
    node
}

fn answer_read(term: u64, request_id: u64) -> Rpc {
    Rpc::ReadIndexReply(ReadIndexReply {
        term,
        request_id,
        applied_index: 0,
    })
}

#[test]
fn read_gives_back_the_last_write_whatever_comes_in_between() {
    let (mut cluster, leader) = elected(3, noisy(11));
    assert!(cluster.propose_as(1, leader, put("k", "first")).success);
    assert!(cluster.propose_as(1, leader, put("k", "second")).success);
    let term = cluster.node(leader).current_term();
    assert!(cluster.propose_as(2, leader, put("other", "x")).success);
    assert!(cluster.propose_as(2, leader, delete("third")).success);
    let other = (leader + 1) % 3;
    assert!(!cluster.propose_as(3, other, put("k", "refused")).success);
    assert_eq!(
        cluster.propose_as(2, leader, get("other")).response,
        Some("x".to_string())
    );
    let index = cluster.node(leader).last_applied();
    assert!(cluster.compact_node(leader, index).is_ok());
    cluster.stop(other);
    cluster.run_for(100);
    cluster.restart(other);
    cluster.run_for(100);
    assert_eq!(cluster.node(leader).current_term(), term);
    assert_eq!(
        cluster.propose_as(4, leader, get("k")),
        ClientReply {
            success: true,
            leader_id: Some(leader),
            response: Some("second".to_string()),
        }
    );
    assert!(check_linearizable(cluster.history()).is_ok());
}

#[test]
fn read_after_a_delete_finds_nothing() {
    let (mut cluster, leader) = elected(5, noisy(3));
    assert!(cluster.propose(leader, put("k", "v")).success);
    assert!(cluster.propose(leader, delete("k")).success);
    let read = cluster.propose(leader, get("k"));
    assert!(read.success);
    assert_eq!(read.response, None);
}

#[test]
fn same_calls_give_the_same_states_and_answers() {
    let drive = || {
        let (mut cluster, leader) = elected(5, noisy(42).with_drop_rate_per_mille(50));
        let other = (leader + 1) % 5;
        let mut answers = vec![cluster.propose_as(1, leader, put("a", "1"))];
        cluster.partition(&[vec![leader, other], vec![(leader + 2) % 5]]);
        answers.push(cluster.propose_as(2, leader, put("a", "2")));
        cluster.heal();
        cluster.run_for(1_000);
        cluster.stop(other);
        answers.push(cluster.propose_as(3, other, get("a")));
        cluster.restart(other);
        cluster.run_for(500);
        let states: Vec<_> = cluster
            .nodes()
            .into_iter()
            .map(|(id, node)| {
                (
                    id,
                    node.role(),
                    node.current_term(),
                    node.leader_id(),
                    node.commit_index(),
                    node.last_applied(),
                    node.log().to_vec(),
                )
            })
            .collect();
        (cluster.now(), states, answers, cluster.take_history())
    };
    assert_eq!(drive(), drive());
}

#[test]
fn acknowledged_write_is_stored_by_a_majority() {
    let (mut cluster, leader) = elected(5, noisy(8));
    cluster.stop((leader + 1) % 5);
    cluster.stop((leader + 2) % 5);
    assert!(cluster.propose(leader, put("k", "v")).success);
    let node = cluster.node(leader);
    let index = node.last_log_index();
    let term = node.term_at(index);
    assert_eq!(term, Some(node.current_term()));
    let holders = cluster
        .nodes()
        .into_iter()
        .filter(|(_, node)| node.term_at(index) == term)
        .count();
    assert!(holders >= 3);
}

#[test]
fn read_is_confirmed_by_the_peers_that_answered_it() {
    let mut node = leader_of_five();
    let (read, questions) = node.start_client_read().unwrap();
    assert_eq!(questions.len(), 4);
    assert_eq!(read.barrier_index, 1);
    for (from, rpc) in [
        (1, answer_read(1, read.id)),
        (1, answer_read(1, read.id)),
        (2, answer_read(1, read.id + 1)),
        (3, answer_read(0, read.id)),
        (9, answer_read(1, read.id)),
    ] {
        let _ = node.handle_message(from, rpc, 310);
        assert!(!node.read_committed_and_applied(read));
    }
    let _ = node.handle_message(4, answer_read(1, read.id), 311);
    assert!(node.read_committed_and_applied(read));
    node.finish_read(read);
    assert!(!node.read_committed_and_applied(read));
}

#[test]
fn later_read_needs_answers_of_its_own() {
    let mut node = leader_of_five();
    let (first, _) = node.start_client_read().unwrap();
    let (second, _) = node.start_client_read().unwrap();
    assert_ne!(first.id, second.id);
    for peer in [1, 2] {
        let _ = node.handle_message(peer, answer_read(1, first.id), 310);
    }
    assert!(node.read_committed_and_applied(first));
    assert!(!node.read_committed_and_applied(second));
}

#[test]
fn finished_read_is_never_ready_again() {
    let mut node = leader_of_five();
    let (read, _) = node.start_client_read().unwrap();
    for peer in [1, 2] {
        let _ = node.handle_message(peer, answer_read(1, read.id), 310);
    }
    assert!(node.read_committed_and_applied(read));
    node.finish_read(read);
    for peer in [1, 2, 3, 4] {
        let _ = node.handle_message(peer, answer_read(1, read.id), 311);
        assert!(!node.read_committed_and_applied(read));
    }
    let (later, _) = node.start_client_read().unwrap();
    assert_ne!(later.id, read.id);
    for peer in [3, 4] {
        let _ = node.handle_message(peer, answer_read(1, later.id), 312);
    }
    let _ = node.tick(313);
    assert!(node.read_committed_and_applied(later));
    assert!(!node.read_committed_and_applied(read));
}

#[test]
fn nobody_leads_twice_in_a_term() {
    let mut node = leader_of_five();
    let _ = node.tick(2_000);
    assert_eq!(node.role(), Role::Follower);
    assert_eq!(node.current_term(), 1);
    for peer in [1, 2, 3, 4] {
        let late = RequestVoteReply {
            term: 1,
            vote_granted: true,
        };
        let _ = node.handle_message(peer, Rpc::RequestVoteReply(late), 2_001);
    }
    assert_eq!(node.role(), Role::Follower);
}

#[test]
fn every_request_is_answered_in_kind() {
    let kinds = |rpc: Rpc| -> Vec<Message> {
        let mut node = Node::new(1, vec![0, 2]);
        node.handle_message(0, rpc, 10)
    };
    let vote = kinds(Rpc::RequestVote(RequestVote {
        term: 1,
        candidate_id: 0,
        last_log_index: 0,
        last_log_term: 0,
    }));
    let pre_vote = kinds(Rpc::PreVote(PreVote {
        term: 1,
        candidate_id: 0,
        last_log_index: 0,
        last_log_term: 0,
    }));
    let append = kinds(Rpc::AppendEntries(AppendEntries {
        term: 1,
        leader_id: 0,
        prev_log_index: 0,
        prev_log_term: 0,
        entries: Vec::new(),
        leader_commit: 0,
    }));
    let read = kinds(Rpc::ReadIndex(ReadIndex {
        term: 1,
        leader_id: 0,
        request_id: 17,
        commit_index: 0,
    }));
    for answers in [&vote, &pre_vote, &append, &read] {
        assert_eq!(answers.len(), 1);
        assert_eq!((answers[0].from, answers[0].to), (1, 0));
    }
    assert!(matches!(vote[0].rpc, Rpc::RequestVoteReply(_)));
    assert!(matches!(pre_vote[0].rpc, Rpc::PreVoteReply(_)));
    assert!(matches!(append[0].rpc, Rpc::AppendEntriesReply(_)));
    match &read[0].rpc {
        Rpc::ReadIndexReply(reply) => assert_eq!(reply.request_id, 17),
        other => panic!("not an answer to a read: {other:?}"),
    }
}

#[test]
fn snapshot_that_comes_twice_is_stale() {
    let snapshot = Snapshot {
        version: 1,
        last_included_index: 4,
        last_included_term: 2,
        state: StateSnapshot {
            version: 1,
            last_applied: 4,
            data: vec![("k".to_string(), "v".to_string())],
        },
    };
    let mut node = Node::new(1, vec![0, 2]);
    assert_eq!(
        node.install_snapshot(snapshot.clone()),
        Ok(SnapshotInstallResult::Installed)
    );
    assert_eq!(
        node.install_snapshot(snapshot),
        Ok(SnapshotInstallResult::Stale)
    );
    assert_eq!(node.get("k"), Some("v".to_string()));
    assert_eq!(node.commit_index(), 4);
}

#[test]
fn new_node_waits_its_turn() {
    for id in [0, 1, 7] {
        let mut early = Node::new(id, vec![8, 9]);
        assert!(early.tick(149).is_empty());
        let mut late = Node::new(id, vec![8, 9]);
        let asked = late.tick(300);
        assert_eq!(asked.len(), 2);
        assert!(asked
            .iter()
            .all(|message| matches!(message.rpc, Rpc::PreVote(_))));
    }
}

#[test]
fn numbers_go_on_after_the_history_is_taken() {
    let (mut cluster, leader) = elected(3, FaultPlan::default());
    let _ = cluster.propose(leader, put("k", "v"));
    let _ = cluster.propose(leader, get("k"));
    let taken = cluster.take_history();
    assert!(cluster.history().is_empty());
    let _ = cluster.propose(leader, get("k"));
    let next = cluster.history().operations()[0].id;
    assert!(taken.operations().iter().all(|operation| operation.id < next));
}
