use raft_kv::check_linearizable;
use raft_kv::AppendEntries;
use raft_kv::ClientRequest;
use raft_kv::Cluster;
use raft_kv::FaultPlan;
use raft_kv::Node;
use raft_kv::PreVoteReply;
use raft_kv::ReadIndex;
use raft_kv::RequestVote;
use raft_kv::RequestVoteReply;
use raft_kv::Role;
use raft_kv::Rpc;
use raft_kv::Snapshot;
use raft_kv::StateSnapshot;
use std::collections::BTreeMap;

fn put(key: &str, value: &str) -> ClientRequest {
    ClientRequest::Put {
        key: key.to_string(),
        value: value.to_string(),
    }
}

fn delete(key: &str) -> ClientRequest {
    ClientRequest::Delete {
        key: key.to_string(),
    }
}

fn get(key: &str) -> ClientRequest {
    ClientRequest::Get {
        key: key.to_string(),
    }
}

fn noisy(seed: u64) -> FaultPlan {
    FaultPlan::seeded(seed)
        .with_max_delay_ms(5)
        .with_duplicate_rate_per_mille(200)
        .with_reorder_window(3)
}

fn elected(size: usize, plan: FaultPlan) -> (Cluster, usize) {
    let mut cluster = Cluster::with_fault_plan(size, plan);
    assert!(cluster.run_until(2_000, |cluster| cluster.leader().is_some()));
    let leader = cluster.leader().unwrap();
    (cluster, leader)
}

/// Stops the leader and waits for the next one.
fn next_leader(cluster: &mut Cluster, leader: usize) -> usize {
    let term = cluster.node(leader).current_term();
    cluster.stop(leader);
    assert!(cluster.run_until(5_000, |cluster| match cluster.leader() {
        Some(next) => cluster.node(next).current_term() > term,
        None => false,
    }));
    cluster.leader().unwrap()
}

/// Any two nodes hold the same entry wherever both have committed one, and the same
/// state where they have committed equally far.
fn share_history(cluster: &Cluster) -> bool {
    let nodes = cluster.nodes();
    nodes.iter().all(|(_, first)| {
        nodes.iter().all(|(_, second)| {
            let upto = first.commit_index().min(second.commit_index());
            let from = first.snapshot_index().max(second.snapshot_index()) + 1;
            let agree = (from..=upto).all(|index| {
                let left = &first.log()[index - first.snapshot_index().max(1)];
                let right = &second.log()[index - second.snapshot_index().max(1)];
                left == right
            });
            let same = first.commit_index() != second.commit_index()
                || first.create_snapshot().ok() == second.create_snapshot().ok();
            agree && same
        })
    })
}

#[test]
fn read_at_a_later_leader_sees_the_acknowledged_write() {
    for seed in 1..6 {
        let (mut cluster, writer) = elected(5, noisy(seed));
        assert!(cluster.propose_as(1, writer, put("k", "old")).success);
        assert!(cluster.propose_as(1, writer, put("k", "new")).success);
        let reader = next_leader(&mut cluster, writer);
        assert_ne!(reader, writer);
        assert!(cluster.propose_as(2, reader, put("other", "x")).success);
        let index = cluster.node(reader).last_applied();
        assert!(cluster.compact_node(reader, index).is_ok());
        cluster.restart(writer);
        cluster.run_for(200);
        let last = next_leader(&mut cluster, reader);
        let read = cluster.propose_as(3, last, get("k"));
        assert!(read.success);
        assert_eq!(read.response, Some("new".to_string()));
        assert!(cluster.nodes().iter().all(|(_, node)| node.commit_index() <= 64));
        assert!(check_linearizable(cluster.history()).is_ok());
        assert!(share_history(&cluster));
    }
}

#[test]
fn read_at_the_next_leader_sees_the_last_of_seventy_writes() {
    let (mut cluster, writer) = elected(3, FaultPlan::default());
    for i in 0..70 {
        assert!(cluster.propose_as(1, writer, put("k", &i.to_string())).success);
    }
    assert!(cluster.node(writer).commit_index() > 64);
    let reader = next_leader(&mut cluster, writer);
    assert_ne!(reader, writer);
    let read = cluster.propose_as(2, reader, get("k"));
    assert!(read.success);
    assert_eq!(read.response, Some("69".to_string()));
    assert!(share_history(&cluster));
}

#[test]
fn follower_that_lags_by_more_than_a_batch_catches_up() {
    let (mut cluster, writer) = elected(5, noisy(6));
    let late = (writer + 1) % 5;
    let others: Vec<usize> = (0..5).filter(|id| *id != late).collect();
    cluster.partition(&[others, vec![late]]);
    for i in 0..150 {
        assert!(cluster.propose_as(1, writer, put("k", &i.to_string())).success);
    }
    assert!(cluster.node(late).commit_index() < 64);
    cluster.heal();
    assert!(cluster.run_until(5_000, |cluster| cluster.node(late).commit_index() > 150));
    assert!(share_history(&cluster));
    let reader = cluster.leader().unwrap();
    let read = cluster.propose_as(2, reader, get("k"));
    assert!(read.success);
    assert_eq!(read.response, Some("149".to_string()));
}

#[test]
fn read_at_a_later_leader_finds_nothing_after_a_delete() {
    let (mut cluster, writer) = elected(3, noisy(9));
    assert!(cluster.propose_as(1, writer, put("k", "v")).success);
    assert!(cluster.propose_as(1, writer, delete("k")).success);
    let reader = next_leader(&mut cluster, writer);
    let read = cluster.propose_as(2, reader, get("k"));
    assert!(read.success);
    assert_eq!(read.response, None);
}

#[test]
fn leader_that_was_replaced_serves_no_read() {
    let (mut cluster, old) = elected(5, noisy(4));
    assert!(cluster.propose_as(1, old, put("k", "old")).success);
    let others: Vec<usize> = (0..5).filter(|id| *id != old).collect();
    cluster.partition(&[vec![old], others.clone()]);
    let term = cluster.node(old).current_term();
    assert!(cluster.run_until(5_000, |cluster| {
        others.iter().any(|id| {
            cluster.node(*id).role() == Role::Leader && cluster.node(*id).current_term() > term
        })
    }));
    let new = *others
        .iter()
        .find(|id| cluster.node(**id).role() == Role::Leader)
        .unwrap();
    assert!(cluster.propose_as(1, new, put("k", "new")).success);
    assert!(!cluster.propose_as(2, old, get("k")).success);
    cluster.heal();
    cluster.run_for(500);
    let leader = cluster.leader().unwrap();
    assert_eq!(
        cluster.propose_as(2, leader, get("k")).response,
        Some("new".to_string())
    );
    assert!(share_history(&cluster));
}

#[test]
fn term_keeps_its_one_leader_over_a_whole_run() {
    for seed in 1..5 {
        let plan = noisy(seed).stop_at(900, 0).restart_at(1_500, 0).stop_at(1_700, 1);
        let mut cluster = Cluster::with_fault_plan(5, plan);
        let mut leaders: BTreeMap<u64, usize> = BTreeMap::new();
        for round in 0..300 {
            cluster.run_for(10);
            for (id, node) in cluster.nodes() {
                if node.role() == Role::Leader {
                    let first = *leaders.entry(node.current_term()).or_insert(id);
                    assert_eq!(first, id, "round {round}");
                }
            }
            assert!(share_history(&cluster));
        }
        assert!(!leaders.is_empty());
    }
}

#[test]
fn stopped_node_sleeps_through_the_faults_of_others() {
    let plan = FaultPlan::seeded(7)
        .stop_at(10, 2)
        .stop_at(600, 1)
        .restart_at(900, 1)
        .restart_at(2_000, 2);
    let mut cluster = Cluster::with_fault_plan(3, plan);
    cluster.run_for(20);
    assert!(cluster.is_stopped(2));
    let term = cluster.node(2).current_term();
    let length = cluster.node(2).log().len();
    cluster.run_for(1_900);
    assert!(cluster.is_stopped(2));
    assert_eq!(cluster.node(2).current_term(), term);
    assert_eq!(cluster.node(2).log().len(), length);
    cluster.run_for(200);
    assert!(!cluster.is_stopped(2));
}

#[test]
fn timer_can_be_set_up_to_the_longest_timeout_before_the_end_of_the_clock() {
    let node = Node::new(2, vec![0, 1]);
    let ask = Rpc::RequestVote(RequestVote {
        term: 1,
        candidate_id: 0,
        last_log_index: 0,
        last_log_term: 0,
    });
    assert!(node.can_handle_message(0, &ask, u64::MAX - 300));
    assert!(!node.can_handle_message(0, &ask, u64::MAX - 299));
    let mut asked = Node::new(2, vec![0, 1]);
    assert_eq!(asked.handle_message(0, ask, u64::MAX - 300).len(), 1);
    assert_eq!(asked.voted_for(), Some(0));
}

#[test]
fn message_that_sets_no_timer_can_come_at_the_end_of_the_clock() {
    let mut node = Node::new(2, vec![0, 1]);
    let grant = Rpc::RequestVoteReply(RequestVoteReply {
        term: 5,
        vote_granted: false,
    });
    let _ = node.handle_message(0, grant, 10);
    assert_eq!(node.current_term(), 5);
    let stale = |term: u64| {
        vec![
            Rpc::RequestVote(RequestVote {
                term,
                candidate_id: 0,
                last_log_index: 0,
                last_log_term: 0,
            }),
            Rpc::RequestVoteReply(RequestVoteReply {
                term,
                vote_granted: true,
            }),
            Rpc::AppendEntries(AppendEntries {
                term,
                leader_id: 0,
                prev_log_index: 0,
                prev_log_term: 0,
                entries: Vec::new(),
                leader_commit: 0,
            }),
            Rpc::PreVoteReply(PreVoteReply {
                term,
                vote_granted: true,
            }),
            Rpc::ReadIndex(ReadIndex {
                term,
                leader_id: 0,
                request_id: 0,
                commit_index: 0,
            }),
        ]
    };
    for rpc in stale(4) {
        assert!(node.can_handle_message(0, &rpc, u64::MAX));
        let _ = node.handle_message(0, rpc, u64::MAX);
        assert_eq!(node.current_term(), 5);
    }
    for rpc in stale(6) {
        assert!(!node.can_handle_message(0, &rpc, u64::MAX));
    }
    let broken = Rpc::InstallSnapshot(Snapshot {
        version: 1,
        last_included_index: 0,
        last_included_term: 1,
        state: StateSnapshot {
            version: 1,
            last_applied: 0,
            data: Vec::new(),
        },
    });
    assert!(node.can_handle_message(0, &broken, u64::MAX));
    let whole = Rpc::InstallSnapshot(Snapshot {
        version: 1,
        last_included_index: 3,
        last_included_term: 1,
        state: StateSnapshot {
            version: 1,
            last_applied: 3,
            data: Vec::new(),
        },
    });
    assert!(!node.can_handle_message(0, &whole, u64::MAX));
}

#[test]
fn node_that_comes_back_knows_no_leader() {
    let (mut cluster, leader) = elected(3, FaultPlan::seeded(2));
    assert!(cluster.propose(leader, put("k", "v")).success);
    cluster.run_for(200);
    let other = (leader + 1) % 3;
    let kept = cluster.node(other);
    assert_eq!(kept.leader_id(), Some(leader));
    let back = Node::from_parts(
        kept.id(),
        kept.peers().to_vec(),
        kept.current_term(),
        kept.voted_for(),
        kept.log().to_vec(),
        kept.commit_index(),
    );
    assert_eq!(back.leader_id(), None);
    assert_eq!(back.role(), Role::Follower);
    assert_eq!(back.current_term(), kept.current_term());
    assert_eq!(back.commit_index(), kept.commit_index());
    assert_eq!(back.get("k"), Some("v".to_string()));
}
