//! How a simulated cluster starts, steps and answers, node by node.
use crate::cluster::model::ClusterModel;
use crate::cluster::model::PendingRequestView;
use crate::cluster::network::is_open;
use crate::cluster::plan::FaultPlanView;
use crate::cluster::plan::LifecycleAction;
use crate::cluster::plan::ScheduledFault;
use crate::node::laws::slots::law_log_is_counted_by_its_slots;
use crate::node::laws::slots::slot_of;
use crate::node::model::NodeModel;
use crate::state_machine::MemoryStateMachine;
use crate::types::ClientReplyView;
use crate::types::ClientRequestView;
use crate::types::MessageView;
use crate::types::NodeId;
use crate::types::Role;
use vstd::prelude::*;

verus! {

/// A new cluster has as many nodes as asked for. Each is a follower of term zero that
/// holds nothing, and has all the others as its peers, in the order of their ids. Nothing
/// is under way, every node is up and reaches every other, and numbers are drawn from the
/// plan's seed.
pub proof fn law_new_cluster_is_complete(size: nat, fault_plan: FaultPlanView, id: NodeId)
    requires
        size <= usize::MAX,
        id < size,
    ensures
        ({
            let cluster = ClusterModel::initial(size, fault_plan);
            let node = cluster.nodes[id as int];
            &&& cluster.nodes.len() == size
            &&& node.id == id
            &&& node.peers.len() == size - 1
            &&& forall|other: NodeId| #[trigger]
                node.peers.contains(other) <==> other < size && other != id
            &&& forall|i: int, j: int|
                0 <= i < j < node.peers.len() ==> #[trigger] node.peers[i]
                    < #[trigger] node.peers[j]
            &&& node.role == Role::Follower
            &&& node.current_term == 0
            &&& node.voted_for is None
            &&& node.leader_id is None
            &&& node.log.len() == 0
            &&& node.log_base_index == 0
            &&& node.snapshot is None
            &&& node.commit_index == 0
            &&& node.last_applied == 0
            &&& node.state.data == Map::<Seq<char>, Seq<char>>::empty()
            &&& 150 <= node.election_deadline <= 300
            &&& cluster.messages.len() == 0
            &&& cluster.now_ms == 0
            &&& cluster.history.len() == 0
            &&& cluster.next_operation_id == 0
            &&& cluster.next_message_sequence == 0
            &&& cluster.next_fault == 0
            &&& cluster.rng_state == fault_plan.seed
            &&& cluster.fault_plan == fault_plan
            &&& forall|from: NodeId, to: NodeId| #[trigger] is_open(cluster, from, to)
        }),
{
    let cluster = ClusterModel::initial(size, fault_plan);
    let peers = cluster.nodes[id as int].peers;
    assert forall|other: NodeId| #[trigger] peers.contains(other) <==> other < size && other
        != id by {
        if other < size && other != id {
            let at = if other < id {
                other as int
            } else {
                other - 1
            };
            assert(peers[at] == other);
        }
    }
}

/// A new node draws its numbers from a start that its id gives, and its first election
/// timer from the first of them.
pub proof fn law_new_node_draws_from_its_id(id: NodeId, peers: Seq<NodeId>)
    requires
        id < u64::MAX,
    ensures
        ({
            let node = NodeModel::<MemoryStateMachine>::initial(
                id,
                peers,
                MemoryStateMachine::initial(),
            );
            let start = ((id as u64 + 1) as u64).wrapping_mul(0x9e37_79b9_7f4a_7c15);
            let drawn = start.wrapping_mul(6364136223846793005).wrapping_add(1);
            &&& node.rng_state == drawn
            &&& node.election_deadline == 150 + drawn % 151
        }),
{
}

/// A node that stops reaches nobody and is reached by nobody; one that restarts is up
/// again, with what it had; and healing takes away what stands between nodes and nothing
/// else.
pub proof fn law_stopped_nodes_are_out_of_reach(
    cluster: ClusterModel,
    id: NodeId,
    from: NodeId,
    to: NodeId,
)
    ensures
        is_open(cluster.stop(id), from, to) <==> from != id && to != id && is_open(
            cluster,
            from,
            to,
        ),
        cluster.stop(id).nodes == cluster.nodes,
        cluster.stop(id).messages == cluster.messages,
        from != id && to != id ==> is_open(cluster.restart(id), from, to) == is_open(
            cluster,
            from,
            to,
        ),
        !cluster.restart(id).stopped.contains(id),
        cluster.restart(id).nodes == cluster.nodes,
        cluster.restart(id).messages == cluster.messages,
        is_open(cluster.healed(), from, to) <==> !cluster.stopped.contains(from)
            && !cluster.stopped.contains(to),
        cluster.healed().nodes == cluster.nodes,
        cluster.healed().stopped == cluster.stopped,
        cluster.is_connected(from, to) <==> is_open(cluster, from, to),
{
}

/// What the faults of the schedule from one place up to another last say of a node.
pub open spec fn last_word(
    lifecycle: Seq<ScheduledFault>,
    id: NodeId,
    from: int,
    upto: int,
) -> Option<LifecycleAction>
    decreases upto - from,
{
    if upto <= from {
        None
    } else if lifecycle[upto - 1].node == id {
        Some(lifecycle[upto - 1].action)
    } else {
        last_word(lifecycle, id, from, upto - 1)
    }
}

proof fn lemma_first_word(lifecycle: Seq<ScheduledFault>, id: NodeId, from: int, upto: int)
    requires
        from < upto,
    ensures
        last_word(lifecycle, id, from, upto) == (match last_word(lifecycle, id, from + 1, upto) {
            Some(action) => Some(action),
            None => if lifecycle[from].node == id {
                Some(lifecycle[from].action)
            } else {
                None
            },
        }),
    decreases upto - from,
{
    if from + 1 < upto {
        lemma_first_word(lifecycle, id, from, upto - 1);
    } else {
        assert(last_word(lifecycle, id, from, upto - 1) is None);
    }
}

/// The node is stopped once the faults up to `upto` have happened.
pub open spec fn is_stopped_by(cluster: ClusterModel, id: NodeId, upto: int) -> bool {
    match last_word(cluster.fault_plan.lifecycle, id, cluster.next_fault as int, upto) {
        Some(LifecycleAction::Stop) => true,
        Some(LifecycleAction::Restart) => false,
        None => cluster.stopped.contains(id),
    }
}

/// Faults happen on time: of those that have not happened yet, all happen up to the first
/// that is not due. A node is stopped then if the last of them that names it stops it, and
/// is as it was if none does. Nothing else changes.
pub proof fn law_faults_happen_on_time(cluster: ClusterModel)
    requires
        cluster.next_fault <= cluster.fault_plan.lifecycle.len(),
    ensures
        ({
            let after = cluster.faults_applied();
            let lifecycle = cluster.fault_plan.lifecycle;
            &&& cluster.next_fault <= after.next_fault <= lifecycle.len()
            &&& forall|k: int|
                cluster.next_fault <= k < after.next_fault ==> (#[trigger] lifecycle[k]).at_ms
                    <= cluster.now_ms
            &&& after.next_fault < lifecycle.len() ==> lifecycle[after.next_fault as int].at_ms
                > cluster.now_ms
            &&& forall|id: NodeId| #[trigger]
                after.stopped.contains(id) <==> is_stopped_by(
                    cluster,
                    id,
                    after.next_fault as int,
                )
            &&& after == (ClusterModel {
                stopped: after.stopped,
                next_fault: after.next_fault,
                ..cluster
            })
        }),
    decreases cluster.fault_plan.lifecycle.len() - cluster.next_fault,
{
    let lifecycle = cluster.fault_plan.lifecycle;
    if cluster.next_fault < lifecycle.len() && lifecycle[cluster.next_fault as int].at_ms
        <= cluster.now_ms {
        let one = cluster.one_fault_applied();
        law_faults_happen_on_time(one);
        let after = cluster.faults_applied();
        assert forall|id: NodeId| #[trigger] after.stopped.contains(id) <==> is_stopped_by(
            cluster,
            id,
            after.next_fault as int,
        ) by {
            lemma_first_word(
                lifecycle,
                id,
                cluster.next_fault as int,
                after.next_fault as int,
            );
            assert(after.stopped.contains(id) <==> is_stopped_by(
                one,
                id,
                after.next_fault as int,
            ));
        }
    }
}

/// A message that arrives is gone from the queue. If its way is open it is handled by the
/// node it is addressed to, and by no other, and the replies are sent; if not, it touches
/// nothing.
pub proof fn law_message_arrives_at_its_addressee(cluster: ClusterModel, position: int)
    requires
        cluster.well_formed(),
        0 <= position < cluster.messages.len(),
    ensures
        ({
            let message = cluster.messages[position].message;
            let left = ClusterModel { messages: cluster.messages.remove(position), ..cluster };
            let (node, replies) = cluster.nodes[message.to as int].handle(
                message.from,
                message.rpc,
                cluster.now_ms,
            );
            let open = is_open(cluster, message.from, message.to);
            &&& !open ==> cluster.deliver(position) == Some(left)
            &&& open ==> (cluster.deliver(position) matches Some(after) ==> {
                &&& after.nodes.len() == cluster.nodes.len()
                &&& after.nodes[message.to as int] == node
                &&& forall|i: int|
                    0 <= i < cluster.nodes.len() && i != message.to ==> #[trigger] after.nodes[i]
                        == cluster.nodes[i]
                &&& (ClusterModel { nodes: after.nodes, ..left }).enqueue(replies) == Some(after)
            })
        }),
{
    reveal(ClusterModel::deliver);
    let message = cluster.messages[position].message;
    assert(cluster.is_addressed(message));
    let left = ClusterModel { messages: cluster.messages.remove(position), ..cluster };
    let (node, replies) = cluster.nodes[message.to as int].handle(
        message.from,
        message.rpc,
        cluster.now_ms,
    );
    let placed = left.with_node(message.to, node);
    placed.lemma_enqueue_leaves_nodes(replies);
    if let Some(after) = cluster.deliver(position) {
        if is_open(cluster, message.from, message.to) {
            assert(after.nodes == placed.nodes);
            assert((ClusterModel { nodes: after.nodes, ..left }) == placed);
        }
    }
}

proof fn lemma_each_ticks(cluster: ClusterModel, count: nat)
    requires
        cluster.well_formed(),
        count <= cluster.nodes.len(),
    ensures
        cluster.ticked_first(count) matches Some(after) ==> {
            &&& after.nodes.len() == cluster.nodes.len()
            &&& after.stopped == cluster.stopped
            &&& after.now_ms == cluster.now_ms
            &&& forall|i: int|
                0 <= i < count ==> #[trigger] after.nodes[i] == (if cluster.stopped.contains(
                    i as NodeId,
                ) {
                    cluster.nodes[i]
                } else {
                    cluster.nodes[i].tick(cluster.now_ms).0
                })
            &&& forall|i: int|
                count <= i < cluster.nodes.len() ==> #[trigger] after.nodes[i] == cluster.nodes[i]
        },
    decreases count,
{
    if count > 0 {
        let before = (count - 1) as nat;
        lemma_each_ticks(cluster, before);
        cluster.lemma_size();
        if let Some(ticked) = cluster.ticked_first(before) {
            let id = (count - 1) as NodeId;
            if !ticked.stopped.contains(id) {
                reveal(ClusterModel::ticked);
                let (node, messages) = ticked.nodes[id as int].tick(ticked.now_ms);
                let placed = ticked.with_node(id, node);
                placed.lemma_enqueue_leaves_nodes(messages);
                placed.lemma_enqueue_leaves_setting(messages);
            }
        }
    }
}

impl ClusterModel {
    /// Sending stops nobody and takes no time.
    proof fn lemma_enqueue_leaves_setting(self, messages: Seq<MessageView>)
        ensures
            self.enqueue(messages) matches Some(after) ==> after.stopped == self.stopped
                && after.now_ms == self.now_ms,
        decreases messages.len(),
    {
        if messages.len() > 0 {
            assert(self.enqueue_one(messages[0]) matches Some(after) ==> after.stopped
                == self.stopped && after.now_ms == self.now_ms) by {
                reveal(ClusterModel::enqueue_one);
            }
            if let Some(after) = self.enqueue_one(messages[0]) {
                after.lemma_enqueue_leaves_setting(messages.skip(1));
            }
        }
    }
}

/// A step takes the message that comes next, if one is due; and if none is, the clock goes
/// on by a millisecond, the faults of that time happen, and every node that is up sees it.
pub proof fn law_step_delivers_or_ticks(cluster: ClusterModel)
    requires
        cluster.well_formed(),
    ensures
        ({
            let (present, position) = cluster.faults_applied().next_ready();
            let later = ClusterModel { now_ms: (present.now_ms + 1) as u64, ..present };
            let ticking = later.faults_applied();
            &&& position matches Some(at) ==> cluster.step() == present.deliver(at)
            &&& position is None ==> (cluster.step() matches Some(after) ==> {
                &&& cluster.now_ms < u64::MAX
                &&& after.now_ms == cluster.now_ms + 1
                &&& after.stopped == ticking.stopped
                &&& after.nodes.len() == cluster.nodes.len()
                &&& forall|i: int|
                    0 <= i < cluster.nodes.len() ==> #[trigger] after.nodes[i] == (
                    if ticking.stopped.contains(i as NodeId) {
                        cluster.nodes[i]
                    } else {
                        cluster.nodes[i].tick(after.now_ms).0
                    })
            })
        }),
{
    reveal(ClusterModel::step);
    cluster.lemma_faults_applied();
    let quiet = cluster.faults_applied();
    law_faults_happen_on_time(cluster);
    quiet.lemma_drawn_well_formed();
    let (present, position) = quiet.next_ready();
    if position is None && present.now_ms < u64::MAX {
        let later = ClusterModel { now_ms: (present.now_ms + 1) as u64, ..present };
        present.lemma_same_nodes_well_formed(later);
        later.lemma_faults_applied();
        law_faults_happen_on_time(later);
        lemma_each_ticks(later.faults_applied(), cluster.nodes.len());
    }
}

/// The node is up and leads.
pub open spec fn leads(cluster: ClusterModel, id: NodeId) -> bool {
    &&& id < cluster.nodes.len()
    &&& !cluster.stopped.contains(id)
    &&& cluster.nodes[id as int].role == Role::Leader
}

/// The cluster has a leader exactly if one node alone is up and leads, and that is it.
pub proof fn law_leader_is_the_only_one(cluster: ClusterModel, id: NodeId)
    requires
        cluster.well_formed(),
        cluster.nodes.len() <= usize::MAX,
    ensures
        cluster.leader() == Some(id) <==> leads(cluster, id) && forall|other: NodeId| #[trigger]
            leads(cluster, other) ==> other == id,
{
    assert forall|i: int| 0 <= i < cluster.nodes.len() implies #[trigger] cluster.is_leading(i)
        == leads(cluster, i as NodeId) by {
        assert(cluster.is_at_home(i));
    }
    if cluster.leader() == Some(id) {
        let i = choose|i: int| cluster.is_leading(i);
        assert(cluster.is_leading(i));
        assert(cluster.is_at_home(i));
        assert forall|other: NodeId| #[trigger] leads(cluster, other) implies other == id by {
            assert(cluster.is_leading(other as int));
        }
    }
    if leads(cluster, id) && forall|other: NodeId| #[trigger] leads(cluster, other) ==> other
        == id {
        assert(cluster.is_leading(id as int));
        assert forall|j: int| #[trigger] cluster.is_leading(j) implies j == id by {
            assert(leads(cluster, j as NodeId));
        }
        assert(cluster.is_at_home(id as int));
        let i = choose|i: int| cluster.is_leading(i);
        assert(cluster.is_leading(i));
    }
}

/// What a client that waits is told, and when. A write is said to be committed once the
/// slot at its index is of its term, committed and applied; a read gets what the state
/// holds at its key once it is ready; and either is refused, with the cluster's leader
/// named, once the node it was sent to leads no more in the term in which it took it, or
/// is stopped. Until then the client waits.
pub proof fn law_client_is_told_once_it_is_decided(
    cluster: ClusterModel,
    leader: NodeId,
    pending: PendingRequestView,
)
    requires
        cluster.well_formed(),
        cluster.has_node(leader),
        pending matches PendingRequestView::Write(write) ==> write.index > 0,
    ensures
        ({
            let node = cluster.nodes[leader as int];
            let done = match pending {
                PendingRequestView::Write(write) => {
                    &&& slot_of(node, write.index as int) matches Some(slot) && slot.term
                        == write.term
                    &&& node.commit_index >= write.index
                    &&& node.last_applied >= write.index
                },
                PendingRequestView::Read(read, _) => node.read_ready(read),
            };
            let term = match pending {
                PendingRequestView::Write(write) => write.term,
                PendingRequestView::Read(read, _) => read.term,
            };
            let lost = node.role != Role::Leader || node.current_term != term
                || cluster.stopped.contains(leader);
            let told = cluster.outcome(leader, pending);
            &&& told is Some <==> done || lost
            &&& done ==> told == Some(
                (ClientReplyView {
                    success: true,
                    leader_id: Some(leader),
                    response: match pending {
                        PendingRequestView::Write(_) => Some("committed"@),
                        PendingRequestView::Read(_, key) => if node.state.data.contains_key(key) {
                            Some(node.state.data[key])
                        } else {
                            None
                        },
                    },
                }),
            )
            &&& !done && lost ==> told == Some(
                (ClientReplyView {
                    success: false,
                    leader_id: cluster.leader(),
                    response: None,
                }),
            )
        }),
{
    assert(cluster.is_at_home(leader as int));
    let node = cluster.nodes[leader as int];
    if let PendingRequestView::Write(write) = pending {
        law_log_is_counted_by_its_slots(node, write.index as int);
    }
}

/// A client waits step by step: it is told as soon as it is decided, and is refused, with
/// the leader that its node knows, once the deadline has passed.
pub proof fn law_client_waits_until_it_is_told(
    cluster: ClusterModel,
    leader: NodeId,
    pending: PendingRequestView,
    deadline: u64,
    fuel: nat,
)
    ensures
        ({
            let told = cluster.settle(leader, pending, deadline, fuel);
            &&& cluster.now_ms > deadline ==> told == Some(
                (
                    cluster,
                    (ClientReplyView {
                        success: false,
                        leader_id: cluster.nodes[leader as int].leader_id,
                        response: None,
                    }),
                ),
            )
            &&& cluster.now_ms <= deadline ==> {
                &&& cluster.outcome(leader, pending) matches Some(reply) ==> told == Some(
                    (cluster, reply),
                )
                &&& cluster.outcome(leader, pending) is None && fuel > 0 ==> told == (
                match cluster.step() {
                    Some(next) => next.settle(leader, pending, deadline, (fuel - 1) as nat),
                    None => None,
                })
            }
        }),
{
}

/// How a request is served. A node that is not there or is stopped refuses and names no
/// leader; a local read is answered at once from the node's own state; and every other
/// request is begun at the node, which refuses it if it does not lead, and then waits for
/// as much as 2000 milliseconds. A read that was answered is forgotten by the node.
pub proof fn law_request_is_served_by_its_node(
    cluster: ClusterModel,
    client_id: u64,
    leader: NodeId,
    request: ClientRequestView,
    fuel: nat,
)
    requires
        cluster.well_formed(),
        cluster.propose_as(client_id, leader, request, fuel) is Some,
    ensures
        ({
            let (after, reply) = cluster.propose_as(client_id, leader, request, fuel)->0;
            let there = leader < cluster.nodes.len() && !cluster.stopped.contains(leader);
            let node = cluster.nodes[leader as int];
            &&& !there ==> after.nodes == cluster.nodes && reply == (ClientReplyView {
                success: false,
                leader_id: None,
                response: None,
            })
            &&& there && request is LocalGet ==> {
                &&& after.nodes == cluster.nodes
                &&& after.now_ms == cluster.now_ms
                &&& reply.success
                &&& reply.leader_id == node.leader_id
                &&& reply.response == (if node.state.data.contains_key(request->LocalGet_key) {
                    Some(node.state.data[request->LocalGet_key])
                } else {
                    None
                })
            }
            &&& there && !(request is LocalGet) && node.role != Role::Leader ==> {
                &&& after.nodes == cluster.nodes
                &&& reply == (ClientReplyView {
                    success: false,
                    leader_id: node.leader_id,
                    response: None,
                })
            }
            &&& there && !(request is LocalGet) && node.role == Role::Leader ==> {
                let numbered = ClusterModel {
                    next_operation_id: (cluster.next_operation_id + 1) as u64,
                    ..cluster
                };
                numbered.begin(leader, request) matches Some((begun, Ok(pending))) && {
                    &&& begun.now_ms == cluster.now_ms
                    &&& begun.settle(
                        leader,
                        pending,
                        (cluster.now_ms + 2000) as u64,
                        fuel,
                    ) matches Some((settled, said)) && reply == said && after.nodes
                        == settled.released(leader, pending).nodes
                }
            }
        }),
{
    let numbered = ClusterModel {
        next_operation_id: (cluster.next_operation_id + 1) as u64,
        ..cluster
    };
    let there = leader < cluster.nodes.len() && !cluster.stopped.contains(leader);
    if there {
        assert(numbered.nodes.update(leader as int, cluster.nodes[leader as int])
            =~= numbered.nodes);
        if !(request is LocalGet) && cluster.nodes[leader as int].role == Role::Leader {
            cluster.lemma_same_nodes_well_formed(numbered);
            numbered.lemma_begin_frame(leader, request);
        }
    }
}

/// How a request is begun: the leader begins a read or a write as a node does, and sends
/// what that says; nothing else changes.
pub proof fn law_request_is_begun_by_its_node(
    cluster: ClusterModel,
    leader: NodeId,
    request: ClientRequestView,
)
    requires
        cluster.has_node(leader),
        cluster.nodes[leader as int].role == Role::Leader,
        !(request is LocalGet),
    ensures
        ({
            let node = cluster.nodes[leader as int];
            cluster.begin(leader, request) matches Some((after, result)) ==> match request {
                ClientRequestView::Get { key } => {
                    &&& node.start_read().1 matches Ok((read, sent))
                    &&& result == Ok::<PendingRequestView, ClientReplyView>(
                        PendingRequestView::Read(read, key),
                    )
                    &&& cluster.with_node(leader, node.start_read().0).enqueue(sent) == Some(after)
                },
                _ => {
                    &&& node.start_write(request).1 matches Ok((write, sent))
                    &&& result == Ok::<PendingRequestView, ClientReplyView>(
                        PendingRequestView::Write(write),
                    )
                    &&& cluster.with_node(leader, node.start_write(request).0).enqueue(sent)
                        == Some(after)
                },
            }
        }),
{
}

/// A read that was answered is forgotten by the node, and only that read.
pub proof fn law_answered_read_is_forgotten(
    cluster: ClusterModel,
    leader: NodeId,
    pending: PendingRequestView,
    id: u64,
)
    requires
        cluster.has_node(leader),
    ensures
        ({
            let after = cluster.released(leader, pending);
            let reads = cluster.nodes[leader as int].pending_reads;
            let left = after.nodes[leader as int].pending_reads;
            match pending {
                PendingRequestView::Write(_) => after == cluster,
                PendingRequestView::Read(read, _) => {
                    &&& !left.contains_key(read.id)
                    &&& id != read.id ==> (left.contains_key(id) <==> reads.contains_key(id))
                    &&& id != read.id && reads.contains_key(id) ==> left[id] == reads[id]
                    &&& after.nodes[leader as int] == (NodeModel {
                        pending_reads: left,
                        ..cluster.nodes[leader as int]
                    })
                    &&& after == (ClusterModel { nodes: after.nodes, ..cluster })
                },
            }
        }),
{
}

/// A run takes steps until the clock has passed the deadline: before each of them it had
/// not, and after the last it has.
pub proof fn law_run_takes_steps_to_the_deadline(cluster: ClusterModel, deadline: u64, fuel: nat)
    requires
        cluster.run_past(deadline, fuel) is Some,
    ensures
        exists|count: nat| #[trigger]
            runs_in(cluster, deadline, count, cluster.run_past(deadline, fuel)->0) && count <= fuel,
    decreases fuel,
{
    let after = cluster.run_past(deadline, fuel)->0;
    if cluster.now_ms > deadline {
        assert(runs_in(cluster, deadline, 0, after));
    } else {
        let next = cluster.step()->0;
        law_run_takes_steps_to_the_deadline(next, deadline, (fuel - 1) as nat);
        let count = choose|count: nat| #[trigger]
            runs_in(next, deadline, count, after) && count <= fuel - 1;
        assert forall|earlier: nat| earlier < count + 1 implies {
            &&& (#[trigger] cluster.steps(earlier)) matches Some(model)
            &&& model.now_ms <= deadline
        } by {
            if earlier > 0 {
                assert(next.steps((earlier - 1) as nat) is Some);
            }
        }
        assert(cluster.steps(count + 1) == next.steps(count));
        assert(runs_in(cluster, deadline, count + 1, after));
    }
}

/// So many steps lead to a clock past the deadline, and no fewer.
pub open spec fn runs_in(
    cluster: ClusterModel,
    deadline: u64,
    count: nat,
    after: ClusterModel,
) -> bool {
    &&& cluster.steps(count) == Some(after)
    &&& after.now_ms > deadline
    &&& forall|earlier: nat|
        earlier < count ==> {
            &&& (#[trigger] cluster.steps(earlier)) matches Some(model)
            &&& model.now_ms <= deadline
        }
}

/// Steps are taken one after the other.
pub proof fn law_steps_follow_each_other(cluster: ClusterModel, first: nat, second: nat)
    ensures
        cluster.steps(0) == Some(cluster),
        cluster.steps(1) == cluster.step(),
        cluster.steps(first + second) == (match cluster.steps(first) {
            Some(middle) => middle.steps(second),
            None => None,
        }),
    decreases first,
{
    reveal_with_fuel(ClusterModel::steps, 2);
    if first > 0 {
        if let Some(next) = cluster.step() {
            law_steps_follow_each_other(next, (first - 1) as nat, second);
        }
    }
}

/// There is time for a request exactly if it can be numbered, and it is refused or answered
/// without waiting, or so many steps are enough for the clock to pass the 2000 milliseconds
/// that a client waits.
pub proof fn law_request_has_time(
    cluster: ClusterModel,
    leader: NodeId,
    request: ClientRequestView,
    max_steps: nat,
)
    ensures
        ({
            let numbered = ClusterModel {
                next_operation_id: (cluster.next_operation_id + 1) as u64,
                ..cluster
            };
            let there = leader < cluster.nodes.len() && !cluster.stopped.contains(leader);
            let time = cluster.has_time_for(leader, request, max_steps);
            &&& cluster.next_operation_id == u64::MAX ==> !time
            &&& cluster.next_operation_id < u64::MAX && (!there || request is LocalGet) ==> time
            &&& cluster.next_operation_id < u64::MAX && there && !(request is LocalGet)
                ==> match numbered.begin(leader, request) {
                None => !time,
                Some((_, Err(_))) => time,
                Some((begun, Ok(_))) => time <==> begun.now_ms + 2000 <= u64::MAX
                    && begun.run_past((begun.now_ms + 2000) as u64, max_steps) is Some,
            }
        }),
{
}

/// A node that sees the clock changes as a node does, sends what that says, and touches no
/// other node.
pub proof fn law_tick_is_seen_by_one_node(cluster: ClusterModel, id: NodeId)
    requires
        cluster.has_node(id),
        cluster.ticked(id) is Some,
    ensures
        ({
            let (node, sent) = cluster.nodes[id as int].tick(cluster.now_ms);
            (ClusterModel { nodes: cluster.nodes.update(id as int, node), ..cluster }).enqueue(sent)
                == cluster.ticked(id)
        }),
{
    reveal(ClusterModel::ticked);
}

/// A partition cuts exactly the ways between two different nodes of the cluster that stand
/// in no group together; what stood between nodes before is forgotten, and nothing else
/// changes.
pub proof fn law_partition_cuts_between_groups(
    cluster: ClusterModel,
    groups: Seq<Seq<NodeId>>,
    from: NodeId,
    to: NodeId,
)
    ensures
        ({
            let after = cluster.partitioned(groups);
            let together = exists|i: int|
                0 <= i < groups.len() && (#[trigger] groups[i]).contains(from)
                    && groups[i].contains(to);
            &&& after.blocked.contains((from, to)) <==> from < cluster.nodes.len() && to
                < cluster.nodes.len() && from != to && !together
            &&& after == (ClusterModel { blocked: after.blocked, ..cluster })
        }),
{
}

} // verus!
