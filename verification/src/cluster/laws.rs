//! What holds of every simulation.
use crate::cluster::model::due_before;
use crate::cluster::model::ready_among;
use crate::cluster::model::turn_of;
use crate::cluster::model::ClusterModel;
use crate::cluster::model::PendingRequestView;
use crate::cluster::model::QueuedMessageView;
use crate::cluster::plan::FaultPlanView;
use crate::cluster::plan::FULL_RATE;
use crate::cluster::requests::lemma_start_is_addressed;
use crate::cluster::tenure::Pledge;
use crate::cluster::CLIENT_TIMEOUT_MS;
use crate::history::HistoryOperationView;
use crate::node::laws::is_from_node;
use crate::node::laws::law_handling_is_addressed;
use crate::node::laws::law_ticking_is_addressed;
use crate::node::laws::logs::law_write_is_appended;
use crate::node::laws::shape::law_clients_keep_the_shape;
use crate::node::laws::shape::law_handling_keeps_the_shape;
use crate::node::laws::shape::law_ticking_keeps_the_shape;
use crate::node::laws::transfers::law_no_node_sends_a_bare_snapshot;
use crate::node::model::larger;
use crate::node::model::NodeModel;
use crate::state_machine::MemoryStateMachine;
use crate::state_machine::StateMachine;
use crate::types::ClientReplyView;
use crate::types::ClientRequestView;
use crate::types::LogEntryView;
use crate::types::MessageView;
use crate::types::NodeId;
use crate::types::Role;
use vstd::prelude::*;

verus! {

impl ClusterModel {
    /// Nothing changes but nodes, the queue, the clock, chance and what is stopped.
    pub open spec fn same_setting(self, other: Self) -> bool {
        &&& other.nodes.len() == self.nodes.len()
        &&& other.blocked == self.blocked
        &&& other.fault_plan == self.fault_plan
        &&& other.history == self.history
        &&& other.next_operation_id == self.next_operation_id
    }

    /// No more nodes than ids.
    pub proof fn lemma_size(self)
        requires
            self.well_formed(),
        ensures
            self.nodes.len() <= usize::MAX + 1,
    {
        if self.nodes.len() > usize::MAX + 1 {
            assert(self.is_at_home(usize::MAX + 1));
        }
    }

    pub proof fn lemma_deliver_frame(self, position: int)
        requires
            self.well_formed(),
            0 <= position < self.messages.len(),
        ensures
            self.deliver(position) matches Some(after) ==> {
                &&& after.well_formed()
                &&& self.same_setting(after)
                &&& after.now_ms == self.now_ms
                &&& after.stopped == self.stopped
                &&& after.next_fault == self.next_fault
                &&& forall|i: int|
                    0 <= i < self.nodes.len() && i != self.messages[position].message.to
                        ==> #[trigger] after.nodes[i] == self.nodes[i]
            },
    {
        let message = self.messages[position].message;
        let to = message.to;
        let removed = ClusterModel { messages: self.messages.remove(position), ..self };
        let node = self.nodes[to as int];
        let (next, replies) = node.handle(message.from, message.rpc, self.now_ms);
        self.lemma_removed_well_formed(position);
        assert(self.is_addressed(message));
        assert(self.is_at_home(to as int));
        law_handling_is_addressed(node, message.from, message.rpc, self.now_ms);
        if node.can_handle(message.from, message.rpc, self.now_ms) {
            law_handling_keeps_the_shape(node, message.from, message.rpc, self.now_ms);
            removed.lemma_with_node_well_formed(to, next);
            removed.lemma_node_messages(to, replies, Some(message.from));
            let placed = removed.with_node(to, next);
            placed.lemma_still_addressed(removed, replies);
            placed.lemma_enqueue(replies);
            self.lemma_deliver_cases(position, placed, replies);
        } else {
            assert(self.deliver(position) is None || !self.is_connected(message.from, to)) by {
                reveal(ClusterModel::deliver);
            }
            assert(!self.is_connected(message.from, to) ==> self.deliver(position) == Some(
                removed,
            )) by {
                reveal(ClusterModel::deliver);
            }
        }
    }

    proof fn lemma_still_addressed(self, other: Self, messages: Seq<MessageView>)
        requires
            other.nodes.len() == self.nodes.len(),
            other.are_addressed(messages),
        ensures
            self.are_addressed(messages),
    {
        assert forall|i: int| 0 <= i < messages.len() implies self.is_addressed(
            #[trigger] messages[i],
        ) by {
            assert(other.is_addressed(messages[i]));
        }
    }

    proof fn lemma_deliver_cases(
        self,
        position: int,
        placed: Self,
        replies: Seq<MessageView>,
    )
        requires
            ({
                let message = self.messages[position].message;
                let node = self.nodes[message.to as int];
                let removed = ClusterModel { messages: self.messages.remove(position), ..self };
                &&& node.can_handle(message.from, message.rpc, self.now_ms)
                &&& placed == removed.with_node(
                    message.to,
                    node.handle(message.from, message.rpc, self.now_ms).0,
                )
                &&& replies == node.handle(message.from, message.rpc, self.now_ms).1
            }),
        ensures
            self.deliver(position) == Some(
                ClusterModel { messages: self.messages.remove(position), ..self },
            ) || self.deliver(position) == placed.enqueue(replies),
    {
        reveal(ClusterModel::deliver);
    }

    pub proof fn lemma_ticked_frame(self, id: NodeId)
        requires
            self.well_formed(),
            self.has_node(id),
        ensures
            self.ticked(id) matches Some(after) ==> {
                &&& after.well_formed()
                &&& self.same_setting(after)
                &&& after.now_ms == self.now_ms
                &&& after.stopped == self.stopped
                &&& after.next_fault == self.next_fault
                &&& forall|i: int|
                    0 <= i < self.nodes.len() && i != id ==> #[trigger] after.nodes[i]
                        == self.nodes[i]
            },
    {
        let node = self.nodes[id as int];
        let (next, messages) = node.tick(self.now_ms);
        assert(self.is_at_home(id as int));
        law_ticking_is_addressed(node, self.now_ms);
        law_ticking_keeps_the_shape(node, self.now_ms);
        self.lemma_with_node_well_formed(id, next);
        self.lemma_node_messages(id, messages, None);
        let placed = self.with_node(id, next);
        placed.lemma_still_addressed(self, messages);
        placed.lemma_enqueue(messages);
        assert(self.ticked(id) is None || self.ticked(id) == placed.enqueue(messages)) by {
            reveal(ClusterModel::ticked);
        }
    }

    pub proof fn lemma_ticked_first_frame(self, count: nat)
        requires
            self.well_formed(),
            count <= self.nodes.len(),
        ensures
            self.ticked_first(count) matches Some(after) ==> {
                &&& after.well_formed()
                &&& self.same_setting(after)
                &&& after.now_ms == self.now_ms
                &&& after.stopped == self.stopped
                &&& after.next_fault == self.next_fault
                &&& forall|i: int|
                    0 <= i < self.nodes.len() && (self.stopped.contains(i as NodeId) || i >= count)
                        ==> #[trigger] after.nodes[i] == self.nodes[i]
            },
        decreases count,
    {
        self.lemma_size();
        if count > 0 {
            self.lemma_ticked_first_frame((count - 1) as nat);
            if let Some(after) = self.ticked_first((count - 1) as nat) {
                after.lemma_ticked_frame((count - 1) as NodeId);
            }
        }
    }

    pub proof fn lemma_step_frame(self)
        requires
            self.well_formed(),
        ensures
            self.step() matches Some(next) ==> {
                &&& next.well_formed()
                &&& self.same_setting(next)
                &&& self.now_ms <= next.now_ms <= self.now_ms + 1
            },
    {
        reveal(ClusterModel::step);
        self.lemma_faults_applied();
        let quiet = self.faults_applied();
        quiet.lemma_drawn_well_formed();
        law_next_message_is_in_the_window(quiet);
        let (present, position) = quiet.next_ready();
        match position {
            Some(at) => {
                present.lemma_deliver_frame(at);
            },
            None => {
                if present.now_ms < u64::MAX {
                    let later = ClusterModel { now_ms: (present.now_ms + 1) as u64, ..present };
                    present.lemma_same_nodes_well_formed(later);
                    later.lemma_faults_applied();
                    later.faults_applied().lemma_ticked_first_frame(self.nodes.len());
                }
            },
        }
    }
}

/// A new cluster is well formed.
pub proof fn law_new_cluster_is_well_formed(size: nat, fault_plan: FaultPlanView)
    requires
        size <= usize::MAX,
    ensures
        ClusterModel::initial(size, fault_plan).well_formed(),
{
    let cluster = ClusterModel::initial(size, fault_plan);
    assert forall|i: int| 0 <= i < cluster.nodes.len() implies #[trigger] cluster.is_at_home(i) by {
        let peers = cluster.nodes[i].peers;
        assert(peers == ClusterModel::peers_of(size, i));
        assert forall|k: int| 0 <= k < peers.len() implies cluster.has_node(
            #[trigger] peers[k],
        ) by {}
    }
}

/// Every step leaves a cluster well formed.
pub proof fn law_step_keeps_the_shape(cluster: ClusterModel)
    requires
        cluster.well_formed(),
    ensures
        cluster.step() matches Some(next) ==> next.well_formed(),
{
    cluster.lemma_step_frame();
}

/// A step moves the clock by one tick or not at all, and leaves the history, the
/// plan and the partition alone.
pub proof fn law_step_moves_the_clock_by_a_tick(cluster: ClusterModel)
    requires
        cluster.well_formed(),
    ensures
        cluster.step() matches Some(next) ==> {
            &&& next.now_ms == cluster.now_ms || next.now_ms == cluster.now_ms + 1
            &&& next.history == cluster.history
            &&& next.fault_plan == cluster.fault_plan
            &&& next.blocked == cluster.blocked
            &&& next.nodes.len() == cluster.nodes.len()
        },
{
    cluster.lemma_step_frame();
}

/// A run ends as soon as the clock has passed the deadline, not later.
pub proof fn law_run_stops_at_the_deadline(cluster: ClusterModel, deadline: u64, fuel: nat)
    requires
        cluster.well_formed(),
        cluster.now_ms <= deadline,
        cluster.run_past(deadline, fuel) is Some,
    ensures
        cluster.run_past(deadline, fuel)->0.now_ms == deadline + 1,
        cluster.run_past(deadline, fuel)->0.history == cluster.history,
    decreases fuel,
{
    cluster.lemma_step_frame();
    let next = cluster.step()->0;
    if next.now_ms <= deadline {
        law_run_stops_at_the_deadline(next, deadline, (fuel - 1) as nat);
    }
}

impl ClusterModel {
    pub proof fn lemma_settle_frame(
        self,
        leader: NodeId,
        pending: PendingRequestView,
        deadline: u64,
        fuel: nat,
    )
        requires
            self.well_formed(),
        ensures
            self.settle(leader, pending, deadline, fuel) matches Some((after, reply)) ==> {
                &&& after.well_formed()
                &&& self.same_setting(after)
                &&& self.now_ms <= after.now_ms
                &&& self.now_ms <= deadline ==> after.now_ms <= deadline + 1
                &&& reply.success ==> after.outcome(leader, pending) == Some(reply)
            },
        decreases fuel,
    {
        if self.now_ms <= deadline && self.outcome(leader, pending) is None && fuel > 0 {
            self.lemma_step_frame();
            if let Some(next) = self.step() {
                next.lemma_settle_frame(leader, pending, deadline, (fuel - 1) as nat);
            }
        }
    }

    pub proof fn lemma_begin_frame(self, leader: NodeId, request: ClientRequestView)
        requires
            self.well_formed(),
            self.has_node(leader),
        ensures
            self.begin(leader, request) matches Some((after, _)) ==> {
                &&& after.well_formed()
                &&& self.same_setting(after)
                &&& after.now_ms == self.now_ms
            },
    {
        let node = self.nodes[leader as int];
        assert(self.is_at_home(leader as int));
        law_clients_keep_the_shape(node, request);
        lemma_start_is_addressed(node, request);
        let (reading, started) = node.start_read();
        let (writing, begun) = node.start_write(request);
        if request is Get {
            self.lemma_with_node_well_formed(leader, reading);
            if let Ok((_, messages)) = started {
                self.lemma_sent_frame(leader, reading, messages);
            }
        } else if node.last_index() + 1 < usize::MAX {
            self.lemma_with_node_well_formed(leader, writing);
            if let Ok((_, messages)) = begun {
                self.lemma_sent_frame(leader, writing, messages);
            }
        }
    }

    proof fn lemma_sent_frame(
        self,
        id: NodeId,
        node: NodeModel<MemoryStateMachine>,
        messages: Seq<MessageView>,
    )
        requires
            self.well_formed(),
            self.has_node(id),
            self.with_node(id, node).well_formed(),
            is_from_node(self.nodes[id as int], messages, None),
        ensures
            self.with_node(id, node).enqueue(messages) matches Some(after) ==> {
                &&& after.well_formed()
                &&& self.same_setting(after)
                &&& after.now_ms == self.now_ms
            },
    {
        self.lemma_node_messages(id, messages, None);
        let placed = self.with_node(id, node);
        placed.lemma_still_addressed(self, messages);
        placed.lemma_enqueue(messages);
    }

    pub proof fn lemma_serve_frame(self, leader: NodeId, request: ClientRequestView, fuel: nat)
        requires
            self.well_formed(),
        ensures
            self.serve(leader, request, fuel) matches Some((after, reply)) ==> {
                &&& after.well_formed()
                &&& self.same_setting(after)
                &&& self.now_ms <= after.now_ms <= self.now_ms + CLIENT_TIMEOUT_MS + 1
            },
    {
        if self.has_node(leader) {
            self.lemma_begin_frame(leader, request);
            if let Some((after, Ok(pending))) = self.begin(leader, request) {
                let deadline = (after.now_ms + CLIENT_TIMEOUT_MS) as u64;
                after.lemma_settle_frame(leader, pending, deadline, fuel);
                if let Some((settled, _)) = after.settle(leader, pending, deadline, fuel) {
                    settled.lemma_released_frame(leader, pending);
                }
            }
        }
    }

    proof fn lemma_released_frame(self, leader: NodeId, pending: PendingRequestView)
        requires
            self.well_formed(),
            self.has_node(leader),
        ensures
            self.released(leader, pending).well_formed(),
    {
        if let PendingRequestView::Read(read, _) = pending {
            let node = self.nodes[leader as int];
            assert(self.is_at_home(leader as int));
            self.lemma_with_node_well_formed(
                leader,
                NodeModel { pending_reads: node.pending_reads.remove(read.id), ..node },
            );
        }
    }
}

/// A request adds exactly one record to the history: under the next number, with the
/// time of the call, the time of the answer, which is not before it and at most the
/// client's patience after it, and with the answer itself.
pub proof fn law_request_is_recorded(
    cluster: ClusterModel,
    client_id: u64,
    leader: NodeId,
    request: ClientRequestView,
    fuel: nat,
)
    requires
        cluster.well_formed(),
        cluster.propose_as(client_id, leader, request, fuel) is Some,
    ensures
        ({
            let (after, reply) = cluster.propose_as(client_id, leader, request, fuel)->0;
            &&& after.history == cluster.history.push(
                HistoryOperationView {
                    id: cluster.next_operation_id,
                    client_id,
                    invoked_at: cluster.now_ms,
                    completed_at: after.now_ms,
                    request,
                    response: reply,
                },
            )
            &&& after.next_operation_id == cluster.next_operation_id + 1
            &&& cluster.now_ms <= after.now_ms <= cluster.now_ms + CLIENT_TIMEOUT_MS + 1
        }),
{
    let numbered = ClusterModel {
        next_operation_id: (cluster.next_operation_id + 1) as u64,
        ..cluster
    };
    cluster.lemma_same_nodes_well_formed(numbered);
    numbered.lemma_serve_frame(leader, request, fuel);
}

/// Every record of the history has its answer no earlier than its call, and a number
/// below the next one.
pub open spec fn history_in_order(cluster: ClusterModel) -> bool {
    forall|i: int|
        0 <= i < cluster.history.len() ==> {
            &&& (#[trigger] cluster.history[i]).invoked_at <= cluster.history[i].completed_at
            &&& cluster.history[i].completed_at <= cluster.now_ms
            &&& cluster.history[i].id < cluster.next_operation_id
        }
}

/// A history in order stays in order, through every step and every request.
pub proof fn law_history_stays_in_order(
    cluster: ClusterModel,
    client_id: u64,
    leader: NodeId,
    request: ClientRequestView,
    fuel: nat,
)
    requires
        cluster.well_formed(),
        history_in_order(cluster),
    ensures
        cluster.step() matches Some(next) ==> history_in_order(next),
        cluster.propose_as(client_id, leader, request, fuel) matches Some((after, _))
            ==> history_in_order(after),
{
    cluster.lemma_step_frame();
    if cluster.propose_as(client_id, leader, request, fuel) is Some {
        law_request_is_recorded(cluster, client_id, leader, request, fuel);
        let (after, _) = cluster.propose_as(client_id, leader, request, fuel)->0;
        assert forall|i: int| 0 <= i < after.history.len() implies {
            &&& (#[trigger] after.history[i]).invoked_at <= after.history[i].completed_at
            &&& after.history[i].completed_at <= after.now_ms
            &&& after.history[i].id < after.next_operation_id
        } by {
            if i < cluster.history.len() {
                assert(after.history[i] == cluster.history[i]);
            }
        }
    }
}

/// A request to a node that is not there or is stopped is refused, and nothing but
/// the record changes.
pub proof fn law_unreachable_node_refuses(
    cluster: ClusterModel,
    client_id: u64,
    leader: NodeId,
    request: ClientRequestView,
    fuel: nat,
)
    requires
        !cluster.has_node(leader) || cluster.stopped.contains(leader),
        cluster.next_operation_id < u64::MAX,
    ensures
        cluster.propose_as(client_id, leader, request, fuel) matches Some((after, reply)) && {
            &&& reply == ClientReplyView::refused(None)
            &&& after == (ClusterModel {
                history: after.history,
                next_operation_id: after.next_operation_id,
                ..cluster
            })
        },
{
}

/// A write that is answered with success stands in the log of the node it was sent to,
/// committed and applied there: a slot of the write's term at the write's index. As long
/// as the node leads, the slot holds the command itself.
pub proof fn law_acknowledged_write_is_committed(
    cluster: ClusterModel,
    leader: NodeId,
    request: ClientRequestView,
    fuel: nat,
)
    requires
        cluster.well_formed(),
        request is Put || request is Delete,
        cluster.serve(leader, request, fuel) matches Some((_, reply)) && reply.success,
    ensures
        ({
            let (after, reply) = cluster.serve(leader, request, fuel)->0;
            &&& reply.leader_id == Some(leader)
            &&& reply.response == Some("committed"@)
            &&& cluster.begin(leader, request) matches Some((_, Ok(pending)))
                && pending matches PendingRequestView::Write(write) && {
                let node = after.nodes[leader as int];
                &&& node.write_done(write)
                &&& cluster.has_no_bare_snapshot() && node.role == Role::Leader ==> node.entry_at(
                    write.index as int,
                ) == Some(
                    LogEntryView {
                        term: write.term,
                        command: NodeModel::<MemoryStateMachine>::command_of(request)->0,
                    },
                )
            }
        }),
{
    let node = cluster.nodes[leader as int];
    let (begun, taken) = cluster.begin(leader, request)->0;
    let pending = taken->Ok_0;
    let deadline = (begun.now_ms + CLIENT_TIMEOUT_MS) as u64;
    cluster.lemma_begin_frame(leader, request);
    begun.lemma_settle_frame(leader, pending, deadline, fuel);
    assert(cluster.is_at_home(leader as int));
    if cluster.has_no_bare_snapshot() {
        let (writing, started) = node.start_write(request);
        let (_, sent) = started->Ok_0;
        law_write_is_appended(node, request);
        law_no_node_sends_a_bare_snapshot(node, leader, request, 0);
        cluster.lemma_placed_tenure(leader, writing, sent);
        let pledge = Pledge { node: leader, term: 0, index: 0, key: Seq::empty(), value: None };
        begun.lemma_settled_tenure(leader, pending, deadline, fuel, pledge);
        let (settled, _) = begun.settle(leader, pending, deadline, fuel)->0;
        let after = settled.nodes[leader as int];
        if after.role == Role::Leader {
            let write = pending->Write_0;
            let at = write.index - after.first_index();
            assert(after.log.take(writing.log.len() as int)[at] == after.log[at]);
        }
    }
}

/// A read that is answered with success gives the value in the state of the node it
/// was sent to, at a moment at which a majority had confirmed that node since the
/// read began and its state had reached all that was committed then.
pub proof fn law_acknowledged_read_is_confirmed(
    cluster: ClusterModel,
    leader: NodeId,
    key: Seq<char>,
    fuel: nat,
)
    requires
        cluster.well_formed(),
        cluster.serve(leader, ClientRequestView::Get { key }, fuel) matches Some((_, reply))
            && reply.success,
    ensures
        ({
            let (after, reply) = cluster.serve(leader, ClientRequestView::Get { key }, fuel)->0;
            let node = after.nodes[leader as int];
            &&& cluster.begin(leader, ClientRequestView::Get { key }) matches Some(
                (begun, Ok(pending)),
            ) && pending matches PendingRequestView::Read(read, _) && {
                &&& begun.settle(
                    leader,
                    pending,
                    (begun.now_ms + CLIENT_TIMEOUT_MS) as u64,
                    fuel,
                ) matches Some((settled, _)) && settled.nodes[leader as int].read_ready(read)
                &&& read.barrier_index >= cluster.nodes[leader as int].commit_index
            }
            &&& MemoryStateMachine::lookup(node.state, key) matches Ok(value) && reply
                == (ClientReplyView { success: true, leader_id: Some(leader), response: value })
        }),
{
    let request = ClientRequestView::Get { key };
    cluster.lemma_begin_frame(leader, request);
    if let Some((begun, Ok(pending))) = cluster.begin(leader, request) {
        begun.lemma_settle_frame(
            leader,
            pending,
            (begun.now_ms + CLIENT_TIMEOUT_MS) as u64,
            fuel,
        );
    }
}

impl ClusterModel {
    /// The plan restarts the node by the time `until`.
    pub open spec fn restarts_by(self, id: NodeId, until: u64) -> bool {
        exists|k: int|
            self.next_fault <= k < self.fault_plan.lifecycle.len() && {
                let fault = #[trigger] self.fault_plan.lifecycle[k];
                &&& fault.node == id
                &&& fault.action is Restart
                &&& fault.at_ms <= until
            }
    }

    proof fn lemma_still_stopped(self, id: NodeId)
        requires
            self.stopped.contains(id),
            !self.restarts_by(id, self.now_ms),
        ensures
            self.faults_applied().stopped.contains(id),
            self.faults_applied().fault_plan == self.fault_plan,
            self.faults_applied().next_fault >= self.next_fault,
        decreases self.fault_plan.lifecycle.len() - self.next_fault,
    {
        if self.next_fault < self.fault_plan.lifecycle.len()
            && self.fault_plan.lifecycle[self.next_fault as int].at_ms <= self.now_ms {
            let after = self.one_fault_applied();
            assert(!after.restarts_by(id, self.now_ms)) by {
                if after.restarts_by(id, self.now_ms) {
                    let k = choose|k: int|
                        after.next_fault <= k < after.fault_plan.lifecycle.len() && {
                            let fault = #[trigger] after.fault_plan.lifecycle[k];
                            &&& fault.node == id
                            &&& fault.action is Restart
                            &&& fault.at_ms <= self.now_ms
                        };
                    assert(self.fault_plan.lifecycle[k].at_ms <= self.now_ms);
                }
            }
            after.lemma_still_stopped(id);
        }
    }

    /// What is not due by a later time is not due by an earlier one, or later in the plan.
    proof fn lemma_not_restarted_before(self, other: Self, id: NodeId, until: u64, earlier: u64)
        requires
            !self.restarts_by(id, until),
            earlier <= until,
            other.fault_plan == self.fault_plan,
            other.next_fault >= self.next_fault,
        ensures
            !other.restarts_by(id, earlier),
    {
        if other.restarts_by(id, earlier) {
            let k = choose|k: int|
                other.next_fault <= k < other.fault_plan.lifecycle.len() && {
                    let fault = #[trigger] other.fault_plan.lifecycle[k];
                    &&& fault.node == id
                    &&& fault.action is Restart
                    &&& fault.at_ms <= earlier
                };
            assert(self.fault_plan.lifecycle[k].at_ms <= until);
        }
    }
}

/// A stopped node stays as it is until it is restarted: no step touches it, unless the
/// plan restarts it by the end of the step.
pub proof fn law_stopped_node_stays_as_it_is(cluster: ClusterModel, id: NodeId)
    requires
        cluster.well_formed(),
        cluster.has_node(id),
        cluster.stopped.contains(id),
    ensures
        cluster.step() matches Some(next) ==> {
            !cluster.restarts_by(id, next.now_ms) ==> {
                &&& next.nodes[id as int] == cluster.nodes[id as int]
                &&& next.stopped.contains(id)
            }
        },
{
    if let Some(next) = cluster.step() {
        if !cluster.restarts_by(id, next.now_ms) {
            cluster.lemma_stopped_step(id);
        }
    }
}

impl ClusterModel {
    proof fn lemma_stopped_step(self, id: NodeId)
        requires
            self.well_formed(),
            self.has_node(id),
            self.stopped.contains(id),
            self.step() matches Some(next) && !self.restarts_by(id, next.now_ms),
        ensures
            self.step()->0.nodes[id as int] == self.nodes[id as int],
            self.step()->0.stopped.contains(id),
    {
        let next = self.step()->0;
        law_step_moves_the_clock_by_a_tick(self);
        reveal(ClusterModel::step);
        self.lemma_not_restarted_before(self, id, next.now_ms, self.now_ms);
        self.lemma_still_stopped(id);
        self.lemma_faults_applied();
        let quiet = self.faults_applied();
        quiet.lemma_drawn_well_formed();
        law_next_message_is_in_the_window(quiet);
        let (present, position) = quiet.next_ready();
        match position {
            Some(at) => {
                present.lemma_deliver_frame(at);
                if present.messages[at].message.to == id {
                    assert(present.deliver(at) matches Some(after) && after.nodes == present.nodes) by {
                        reveal(ClusterModel::deliver);
                    }
                }
            },
            None => {
                if present.now_ms < u64::MAX {
                    let later = ClusterModel { now_ms: (present.now_ms + 1) as u64, ..present };
                    present.lemma_same_nodes_well_formed(later);
                    later.lemma_faults_applied();
                    let ticking = later.faults_applied();
                    ticking.lemma_ticked_first_frame(self.nodes.len());
                    assert(next.now_ms == later.now_ms);
                    self.lemma_not_restarted_before(later, id, next.now_ms, later.now_ms);
                    later.lemma_still_stopped(id);
                }
            },
        }
    }
}

/// A message between two nodes that cannot reach each other is lost: on its way out
/// it is not sent, and on its way in it touches no node.
pub proof fn law_cut_off_message_is_lost(
    cluster: ClusterModel,
    message: MessageView,
    position: int,
)
    requires
        !cluster.is_connected(message.from, message.to),
        0 <= position < cluster.messages.len(),
        cluster.messages[position].message == message,
    ensures
        cluster.enqueue_one(message) == Some(cluster),
        cluster.deliver(position) matches Some(after) && after.nodes == cluster.nodes
            && after.messages == cluster.messages.remove(position),
{
    reveal(ClusterModel::enqueue_one);
    reveal(ClusterModel::deliver);
}

/// After a partition two nodes that are up reach each other exactly if some group
/// holds both; after healing all that are up do.
pub proof fn law_partition_follows_the_groups(
    cluster: ClusterModel,
    groups: Seq<Seq<NodeId>>,
    from: NodeId,
    to: NodeId,
)
    requires
        cluster.has_node(from),
        cluster.has_node(to),
        from != to,
        !cluster.stopped.contains(from),
        !cluster.stopped.contains(to),
    ensures
        cluster.partitioned(groups).is_connected(from, to) <==> exists|i: int|
            0 <= i < groups.len() && (#[trigger] groups[i]).contains(from) && groups[i].contains(
                to,
            ),
        cluster.partitioned(groups).healed().is_connected(from, to),
{
}

/// Without faults every message between nodes that reach each other arrives once, at
/// once, and in the order of sending; no random number is drawn.
pub proof fn law_quiet_network_loses_nothing(cluster: ClusterModel, message: MessageView)
    requires
        cluster.fault_plan.max_delay_ms == 0,
        cluster.fault_plan.drop_rate_per_mille == 0,
        cluster.fault_plan.duplicate_rate_per_mille == 0,
        cluster.is_connected(message.from, message.to),
        cluster.next_message_sequence < u64::MAX,
    ensures
        cluster.enqueue_one(message) matches Some(after) && {
            &&& after.messages == cluster.messages.push(
                QueuedMessageView {
                    deliver_at: cluster.now_ms,
                    sequence: cluster.next_message_sequence,
                    message,
                },
            )
            &&& after.rng_state == cluster.rng_state
        },
{
    reveal(ClusterModel::enqueue_one);
}

/// At the full drop rate every message is lost.
pub proof fn law_full_drop_rate_loses_everything(cluster: ClusterModel, message: MessageView)
    requires
        cluster.fault_plan.drop_rate_per_mille == FULL_RATE,
    ensures
        cluster.enqueue_one(message) matches Some(after) && after.messages == cluster.messages,
{
    reveal(ClusterModel::enqueue_one);
}

/// A message is delayed by no more than the plan allows, or twice that for a second
/// copy; and no more than one copy is sent besides.
pub proof fn law_delay_is_bounded(cluster: ClusterModel, message: MessageView)
    ensures
        cluster.enqueue_one(message) matches Some(after) ==> {
            &&& cluster.messages.len() <= after.messages.len() <= cluster.messages.len() + 2
            &&& forall|i: int|
                cluster.messages.len() <= i < after.messages.len() ==> {
                    &&& (#[trigger] after.messages[i]).message == message
                    &&& cluster.now_ms <= after.messages[i].deliver_at
                    &&& after.messages[i].deliver_at <= cluster.now_ms + 2
                        * cluster.fault_plan.max_delay_ms
                }
        },
{
    reveal(ClusterModel::enqueue_one);
}

proof fn lemma_turn(messages: Seq<QueuedMessageView>, order: Seq<int>, queued: QueuedMessageView)
    ensures
        turn_of(messages, order, queued) <= order.len(),
        forall|i: int|
            0 <= i < turn_of(messages, order, queued) ==> !due_before(
                queued,
                messages[#[trigger] order[i]],
            ),
        turn_of(messages, order, queued) < order.len() ==> due_before(
            queued,
            messages[order[turn_of(messages, order, queued) as int]],
        ),
    decreases order.len(),
{
    if order.len() > 0 && !due_before(queued, messages[order[0]]) {
        lemma_turn(messages, order.skip(1), queued);
        assert forall|i: int| 0 <= i < turn_of(messages, order, queued) implies !due_before(
            queued,
            messages[#[trigger] order[i]],
        ) by {
            if i > 0 {
                assert(order[i] == order.skip(1)[i - 1]);
            }
        }
    }
}

/// The messages that are due are taken in the order in which they are: each that is
/// due stands among them exactly once, and none stands behind one that it is due
/// before.
pub proof fn law_ready_messages_are_in_order(
    messages: Seq<QueuedMessageView>,
    now_ms: u64,
    count: nat,
)
    requires
        count <= messages.len(),
    ensures
        ({
            let ready = ready_among(messages, now_ms, count);
            &&& ready.no_duplicates()
            &&& forall|position: int|
                ready.contains(position) <==> 0 <= position < count
                    && messages[position].deliver_at <= now_ms
            &&& forall|i: int, j: int|
                0 <= i < j < ready.len() ==> !due_before(
                    messages[#[trigger] ready[j]],
                    messages[#[trigger] ready[i]],
                )
        }),
    decreases count,
{
    if count > 0 {
        let before = (count - 1) as nat;
        let earlier = ready_among(messages, now_ms, before);
        let queued = messages[count - 1];
        let ready = ready_among(messages, now_ms, count);
        law_ready_messages_are_in_order(messages, now_ms, before);
        if queued.deliver_at <= now_ms {
            let turn = turn_of(messages, earlier, queued) as int;
            lemma_turn(messages, earlier, queued);
            assert(ready == earlier.insert(turn, count - 1));
            assert(!earlier.contains(count - 1));
            assert forall|position: int|
                ready.contains(position) <==> 0 <= position < count
                    && messages[position].deliver_at <= now_ms by {
                if ready.contains(position) {
                    let k = choose|k: int| 0 <= k < ready.len() && ready[k] == position;
                    if k < turn {
                        assert(earlier[k] == position);
                        assert(earlier.contains(position));
                    } else if k > turn {
                        assert(earlier[k - 1] == position);
                        assert(earlier.contains(position));
                    }
                }
                if 0 <= position < count && messages[position].deliver_at <= now_ms {
                    if position == count - 1 {
                        assert(ready[turn] == position);
                    } else {
                        assert(earlier.contains(position));
                        let k = choose|k: int| 0 <= k < earlier.len() && earlier[k] == position;
                        assert(ready[if k < turn {
                            k
                        } else {
                            k + 1
                        }] == position);
                    }
                }
            }
            assert forall|i: int, j: int|
                0 <= i < ready.len() && 0 <= j < ready.len() && i != j implies ready[i]
                != ready[j] by {
                let a = if i < turn {
                    i
                } else {
                    i - 1
                };
                let b = if j < turn {
                    j
                } else {
                    j - 1
                };
                if i != turn {
                    assert(ready[i] == earlier[a]);
                    assert(earlier.contains(earlier[a]));
                }
                if j != turn {
                    assert(ready[j] == earlier[b]);
                    assert(earlier.contains(earlier[b]));
                }
            }
            assert forall|i: int, j: int| 0 <= i < j < ready.len() implies !due_before(
                messages[#[trigger] ready[j]],
                messages[#[trigger] ready[i]],
            ) by {
                let a = if i < turn {
                    i
                } else {
                    i - 1
                };
                let b = if j < turn {
                    j
                } else {
                    j - 1
                };
                if i != turn && j != turn {
                    assert(ready[i] == earlier[a] && ready[j] == earlier[b]);
                } else if j == turn {
                    assert(ready[i] == earlier[i]);
                } else {
                    assert(ready[j] == earlier[b]);
                    if b > turn {
                        assert(!due_before(messages[earlier[b]], messages[earlier[turn]]));
                    }
                }
            }
        }
    }
}

/// The message that comes next is due, and it is one of the first that are, as many
/// as the plan's window allows.
pub proof fn law_next_message_is_in_the_window(cluster: ClusterModel)
    ensures
        match cluster.next_ready().1 {
            Some(position) => {
                &&& 0 <= position < cluster.messages.len()
                &&& cluster.messages[position].deliver_at <= cluster.now_ms
                &&& exists|place: int|
                    0 <= place < cluster.ready().len() && place < larger(
                        cluster.fault_plan.reorder_window as int,
                        1,
                    ) && #[trigger] cluster.ready()[place] == position
            },
            None => forall|position: int|
                0 <= position < cluster.messages.len() ==> (
                #[trigger] cluster.messages[position]).deliver_at > cluster.now_ms,
        },
{
    law_ready_messages_are_in_order(
        cluster.messages,
        cluster.now_ms,
        cluster.messages.len(),
    );
    let ready = cluster.ready();
    match cluster.next_ready().1 {
        Some(position) => {
            let window = cluster.window();
            let place = if window == 1 {
                0
            } else {
                (cluster.drawn().rng_state as usize) as int % window
            };
            assert(0 <= place < window);
            assert(ready[place] == position);
            assert(ready.contains(position));
        },
        None => {
            assert forall|position: int| 0 <= position < cluster.messages.len() implies (
            #[trigger] cluster.messages[position]).deliver_at > cluster.now_ms by {
                if cluster.messages[position].deliver_at <= cluster.now_ms {
                    assert(ready.contains(position));
                }
            }
        },
    }
}

} // verus!
