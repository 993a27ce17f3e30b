use raft_kv::check_linearizable;
use raft_kv::ClientReply;
use raft_kv::ClientRequest;
use raft_kv::Cluster;
use raft_kv::Error;
use raft_kv::FaultPlan;
use raft_kv::LifecycleAction;
use raft_kv::Node;
use raft_kv::Role;
use raft_kv::ScheduledFault;
use std::collections::BTreeMap;

const ENOUGH_STEPS: usize = 1_000_000;

fn put(key: &str, value: &str) -> ClientRequest {
    ClientRequest::Put {
        key: key.to_string(),
        value: value.to_string(),
    }
}

fn get(key: &str) -> ClientRequest {
    ClientRequest::Get {
        key: key.to_string(),
    }
}

fn elected(size: usize, plan: FaultPlan) -> (Cluster, usize) {
    let mut cluster = Cluster::with_fault_plan(size, plan);
    assert!(cluster.run_until(2_000, |cluster| cluster.leader().is_some()));
    let leader = cluster.leader().unwrap();
    (cluster, leader)
}

fn leaders_per_term(cluster: &Cluster) -> BTreeMap<u64, usize> {
    let mut leaders = BTreeMap::new();
    for (_, node) in cluster.nodes() {
        if node.role() == Role::Leader {
            *leaders.entry(node.current_term()).or_insert(0) += 1;
        }
    }
    leaders
}

#[test]
fn plan_keeps_faults_in_time_order_and_rates_in_range() {
    let plan = FaultPlan::seeded(7)
        .with_drop_rate_per_mille(2_000)
        .with_duplicate_rate_per_mille(1_001)
        .stop_at(50, 1)
        .restart_at(10, 2)
        .restart_at(50, 1)
        .stop_at(0, 3);
    assert_eq!(plan.drop_rate_per_mille, 1_000);
    assert_eq!(plan.duplicate_rate_per_mille, 1_000);
    let fault = |at_ms, node, action| ScheduledFault {
        at_ms,
        node,
        action,
    };
    assert_eq!(
        plan.lifecycle,
        vec![
            fault(0, 3, LifecycleAction::Stop),
            fault(10, 2, LifecycleAction::Restart),
            fault(50, 1, LifecycleAction::Stop),
            fault(50, 1, LifecycleAction::Restart),
        ]
    );
    assert_eq!(FaultPlan::default(), FaultPlan::seeded(0));
}

#[test]
fn unordered_plan_is_put_in_order_by_the_next_fault() {
    let mut plan = FaultPlan::seeded(0).stop_at(5, 0).stop_at(9, 1);
    plan.lifecycle.reverse();
    let plan = plan.stop_at(7, 2);
    let times: Vec<u64> = plan.lifecycle.iter().map(|fault| fault.at_ms).collect();
    assert_eq!(times, vec![5, 7, 9]);
}

#[test]
fn new_cluster_knows_its_nodes() {
    let cluster = Cluster::new(3);
    assert_eq!(cluster.node_ids(), vec![0, 1, 2]);
    assert_eq!(cluster.node(1).peers(), &[0, 2]);
    assert_eq!(cluster.nodes().len(), 3);
    assert_eq!(cluster.now(), 0);
    assert_eq!(cluster.leader(), None);
    assert_eq!(cluster.queued_message_count(), 0);
    assert_eq!(cluster.fault_plan(), &FaultPlan::default());
    assert!(Cluster::new(0).node_ids().is_empty());
}

#[test]
fn write_and_read_go_through_the_leader() {
    let (mut cluster, leader) = elected(3, FaultPlan::default());
    assert_eq!(
        cluster.propose(leader, put("k", "v")),
        ClientReply {
            success: true,
            leader_id: Some(leader),
            response: Some("committed".to_string()),
        }
    );
    assert_eq!(
        cluster.propose(leader, get("k")),
        ClientReply {
            success: true,
            leader_id: Some(leader),
            response: Some("v".to_string()),
        }
    );
    assert_eq!(
        cluster.propose(leader, get("missing")),
        ClientReply {
            success: true,
            leader_id: Some(leader),
            response: None,
        }
    );
    let deleted = cluster.propose(
        leader,
        ClientRequest::Delete {
            key: "k".to_string(),
        },
    );
    assert!(deleted.success);
    assert_eq!(cluster.propose(leader, get("k")).response, None);
    let node = cluster.node(leader);
    assert!(node.commit_index() >= 3);
    assert_eq!(node.last_applied(), node.commit_index());
    assert!(check_linearizable(cluster.history()).is_ok());
}

#[test]
fn follower_refuses_and_points_to_the_leader() {
    let (mut cluster, leader) = elected(3, FaultPlan::default());
    cluster.run_for(100);
    let follower = (leader + 1) % 3;
    for request in [put("k", "v"), get("k")] {
        assert_eq!(
            cluster.propose(follower, request),
            ClientReply {
                success: false,
                leader_id: Some(leader),
                response: None,
            }
        );
    }
    assert!(cluster.propose(leader, put("k", "v")).success);
    cluster.run_for(200);
    let local = cluster.propose(
        follower,
        ClientRequest::LocalGet {
            key: "k".to_string(),
        },
    );
    assert!(local.success);
    assert_eq!(local.response, Some("v".to_string()));
}

#[test]
fn stopped_node_refuses_and_stays_as_it_is() {
    let (mut cluster, leader) = elected(3, FaultPlan::default());
    cluster.stop(leader);
    let term = cluster.node(leader).current_term();
    let log = cluster.node(leader).log().to_vec();
    let reply = cluster.propose(leader, put("k", "v"));
    assert_eq!(
        reply,
        ClientReply {
            success: false,
            leader_id: None,
            response: None,
        }
    );
    cluster.run_for(1_000);
    assert_eq!(cluster.node(leader).current_term(), term);
    assert_eq!(cluster.node(leader).log(), log.as_slice());
    assert!(cluster.is_stopped(leader));
    let next = cluster.leader().unwrap();
    assert_ne!(next, leader);
    assert!(cluster.node(next).current_term() > term);
    cluster.restart(leader);
    cluster.run_for(500);
    assert_eq!(cluster.node(leader).role(), Role::Follower);
    assert_eq!(cluster.leader(), Some(next));
}

#[test]
fn leader_cut_off_from_the_majority_commits_nothing() {
    let (mut cluster, leader) = elected(5, FaultPlan::default());
    let others: Vec<usize> = cluster
        .node_ids()
        .into_iter()
        .filter(|&id| id != leader)
        .collect();
    cluster.partition(&[vec![leader], others.clone()]);
    let reply = cluster.propose(leader, put("k", "lost"));
    assert!(!reply.success);
    assert!(!cluster.propose(leader, get("k")).success);
    cluster.run_for(1_500);
    assert_ne!(cluster.node(leader).role(), Role::Leader);
    let next = cluster.leader().unwrap();
    assert!(others.contains(&next));
    assert!(cluster.propose(next, put("k", "kept")).success);
    cluster.heal();
    cluster.run_for(1_500);
    assert_eq!(cluster.node(leader).get("k"), Some("kept".to_string()));
    assert!(check_linearizable(cluster.history()).is_ok());
}

#[test]
fn partition_without_groups_silences_everyone() {
    let mut cluster = Cluster::new(3);
    cluster.partition(&[]);
    cluster.run_for(3_000);
    assert_eq!(cluster.leader(), None);
    assert_eq!(cluster.queued_message_count(), 0);
    assert!(cluster.nodes().iter().all(|(_, node)| node.current_term() == 0));
}

#[test]
fn full_drop_rate_silences_everyone() {
    let mut cluster = Cluster::with_fault_plan(3, FaultPlan::seeded(1).with_drop_rate_per_mille(1_000));
    cluster.run_for(3_000);
    assert_eq!(cluster.leader(), None);
    assert_eq!(cluster.queued_message_count(), 0);
}

#[test]
fn term_never_has_two_leaders() {
    let plan = FaultPlan::seeded(42)
        .with_max_delay_ms(20)
        .with_drop_rate_per_mille(200)
        .with_duplicate_rate_per_mille(200)
        .with_reorder_window(5)
        .stop_at(400, 0)
        .restart_at(900, 0)
        .stop_at(1_200, 1)
        .restart_at(1_700, 1);
    let mut cluster = Cluster::with_fault_plan(5, plan);
    let mut last_terms = vec![0; 5];
    for _ in 0..300 {
        cluster.run_for(9);
        assert!(leaders_per_term(&cluster).values().all(|&count| count == 1));
        for (id, node) in cluster.nodes() {
            assert!(node.current_term() >= last_terms[id]);
            last_terms[id] = node.current_term();
        }
    }
}

#[test]
fn clock_stops_one_tick_past_the_deadline() {
    let mut cluster = Cluster::new(3);
    cluster.run_for(10);
    assert_eq!(cluster.now(), 11);
    cluster.run_for(0);
    assert_eq!(cluster.now(), 12);
    assert!(!cluster.run_until(20, |_| false));
    assert_eq!(cluster.now(), 21);
    assert!(cluster.run_until(30, |_| true));
    assert_eq!(cluster.now(), 21);
}

#[test]
fn history_records_every_request_once() {
    let (mut cluster, leader) = elected(3, FaultPlan::seeded(3).with_max_delay_ms(10));
    let began = cluster.now();
    let first = cluster.propose_as(5, leader, put("a", "1"));
    let between = cluster.now();
    let second = cluster.propose_as(6, 99, get("a"));
    let operations = cluster.history().operations();
    assert_eq!(operations.len(), 2);
    assert_eq!(operations[0].id, 0);
    assert_eq!(operations[0].client_id, 5);
    assert_eq!(operations[0].invoked_at, began);
    assert_eq!(operations[0].completed_at, between);
    assert!(between > began);
    assert_eq!(operations[0].request, put("a", "1"));
    assert_eq!(operations[0].response, first);
    assert_eq!(operations[1].id, 1);
    assert_eq!(operations[1].client_id, 6);
    assert_eq!(operations[1].response, second);
    let taken = cluster.take_history();
    assert_eq!(taken.len(), 2);
    assert!(cluster.history().is_empty());
    let _ = cluster.propose(leader, get("a"));
    assert_eq!(cluster.history().operations()[0].id, 2);
    cluster.clear_history();
    assert!(cluster.history().is_empty());
}

#[test]
fn unknown_node_has_no_log_to_compact() {
    let mut cluster = Cluster::new(3);
    assert_eq!(cluster.compact_node(9, 1).unwrap_err(), Error::UnknownNode);
    assert_eq!(
        cluster.compact_node(0, 1).unwrap_err(),
        Error::CompactionPoint
    );
}

#[test]
fn quiet_network_delivers_at_once_and_in_order() {
    let mut cluster = Cluster::new(3);
    assert!(cluster.run_until(1_000, |cluster| cluster.queued_message_count() > 0));
    let now = cluster.now();
    assert!(cluster.run_until(1_000, |cluster| cluster.leader().is_some()));
    assert_eq!(cluster.now(), now);
}

#[test]
fn checked_runs_go_as_far_as_the_steps_allow() {
    let mut cluster = Cluster::new(3);
    assert!(!cluster.can_run_past(1_000, 10));
    assert!(!cluster.checked_run_for(1_000, 10));
    assert_eq!(cluster.now(), 0);
    assert!(cluster.checked_run_for(1_000, ENOUGH_STEPS));
    assert_eq!(cluster.now(), 1_001);
    assert!(!cluster.checked_run_for(u64::MAX, ENOUGH_STEPS));
    assert_eq!(
        cluster.checked_run_until(2_000, 10, |cluster| cluster.leader().is_some()),
        None
    );
    assert_eq!(
        cluster.checked_run_until(2_000, ENOUGH_STEPS, |cluster| cluster.leader().is_some()),
        Some(true)
    );
    let leader = cluster.leader().unwrap();
    assert!(!cluster.has_time_for(leader, &put("k", "v"), 10));
    assert_eq!(cluster.checked_propose(leader, put("k", "v"), 10), None);
    assert!(cluster.history().is_empty());
    assert!(
        cluster
            .checked_propose(leader, put("k", "v"), ENOUGH_STEPS)
            .unwrap()
            .success
    );
    let read = cluster
        .checked_propose_as(4, leader, get("k"), ENOUGH_STEPS)
        .unwrap();
    assert_eq!(read.response, Some("v".to_string()));
    assert_eq!(cluster.history().operations()[1].client_id, 4);
    assert!(cluster.has_time_for(99, &get("k"), 0));
}

#[test]
fn delay_that_leaves_no_room_is_refused_by_the_checked_run() {
    let plan = FaultPlan::seeded(1).with_max_delay_ms(u64::MAX);
    let mut cluster = Cluster::with_fault_plan(3, plan);
    assert!(!cluster.checked_run_for(1_000, ENOUGH_STEPS));
    assert_eq!(cluster.now(), 0);
    assert!(cluster.checked_run_for(100, ENOUGH_STEPS));
}

#[test]
fn leadership_transfer_is_refused_for_the_wrong_node() {
    let mut node = Node::new(0, vec![1, 2]);
    assert_eq!(node.transfer_leadership(1, 5).unwrap_err(), Error::NotLeader);
    let (cluster, leader) = elected(3, FaultPlan::default());
    let mut node = cluster.node(leader).clone();
    assert_eq!(
        node.transfer_leadership(9, 5).unwrap_err(),
        Error::TransferTargetNotPeer
    );
    assert!(node
        .initiate_leader_transfer((leader + 1) % 3, cluster.now())
        .is_ok());
    assert!(node
        .request_leadership_transfer((leader + 2) % 3, cluster.now())
        .is_ok());
}
