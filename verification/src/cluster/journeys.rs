//! A ledger kept along the calls on a cluster.
use crate::cluster::calls::law_call_keeps_the_shape;
use crate::cluster::calls::AnswerView;
use crate::cluster::calls::CallView;
use crate::cluster::ledger::Ledger;
use crate::cluster::model::ClusterModel;
use crate::cluster::model::PendingRequestView;
use crate::cluster::tenure::law_call_keeps_every_pledge;
use crate::cluster::tenure::overwrites;
use crate::cluster::tenure::writes;
use crate::cluster::tenure::Pledge;
use crate::cluster::CLIENT_TIMEOUT_MS;
use crate::node::model::NodeModel;
use crate::state_machine::MemoryStateMachine;
use crate::types::ClientRequestView;
use crate::types::LogIndex;
use crate::types::MessageView;
use crate::types::NodeId;
use crate::types::Role;
use crate::types::SnapshotView;
use vstd::prelude::*;

verus! {

/// A pledge about nothing.
pub open spec fn no_pledge() -> Pledge {
    Pledge { node: 0, term: 0, index: 0, key: Seq::empty(), value: None }
}

/// Some other node's id.
pub open spec fn other_than(id: NodeId) -> NodeId {
    if id == 0 {
        1
    } else {
        0
    }
}

impl ClusterModel {
    /// The cluster as it numbers the next request of a client.
    pub open spec fn numbered(self) -> Self {
        ClusterModel { next_operation_id: (self.next_operation_id + 1) as u64, ..self }
    }

    /// The messages of a node that was replaced are on their way.
    pub proof fn lemma_placed(
        self,
        id: NodeId,
        next: NodeModel<MemoryStateMachine>,
        sent: Seq<MessageView>,
    )
        ensures
            self.numbered().with_node(id, next).enqueue(sent) matches Some(after) ==> {
                &&& after.nodes == self.nodes.update(id as int, next)
                &&& after.messages_come_from(self, sent)
                &&& after.next_operation_id == self.numbered().next_operation_id
            },
    {
        let placed = self.numbered().with_node(id, next);
        placed.lemma_same_queue(self);
        placed.lemma_enqueued(sent);
        placed.lemma_enqueue_leaves_nodes(sent);
        placed.lemma_enqueue_leaves_count(sent);
        if let Some(after) = placed.enqueue(sent) {
            after.lemma_comes_from_more(placed, self, sent);
        }
    }

    pub proof fn lemma_begun_followed(
        self,
        leader: NodeId,
        request: ClientRequestView,
        ledger: Ledger,
    )
        requires
            self.well_formed(),
            self.has_node(leader),
            self.next_operation_id < u64::MAX,
            self.is_followed(ledger),
            ledger.watch is None,
            ledger.mark matches Some(mark) ==> !writes(request, mark.key),
            request !is LocalGet,
        ensures
            self.numbered().begin(leader, request) matches Some((after, _))
                ==> after.is_followed(ledger),
    {
        let node = self.nodes[leader as int];
        assert(self.is_at_home(leader as int));
        if let Some((after, _)) = self.numbered().begin(leader, request) {
            let (next, sent) = if request is Get {
                (
                    node.start_read().0,
                    match node.start_read().1 {
                        Ok((_, messages)) => messages,
                        Err(_) => Seq::empty(),
                    },
                )
            } else {
                (
                    node.start_write(request).0,
                    match node.start_write(request).1 {
                        Ok((_, messages)) => messages,
                        Err(_) => Seq::empty(),
                    },
                )
            };
            self.lemma_placed(leader, next, sent);
            if node.role != Role::Leader {
                assert(self.nodes.update(leader as int, node) =~= self.nodes);
                after.lemma_same_queue(self);
                self.lemma_nothing_moved(ledger, after);
            } else {
                let held = self.lemma_held(ledger);
                self.lemma_ready(held, leader);
                let later = if request is Get {
                    assert(node.next_read_id <= self.next_operation_id);
                    held.lemma_read_begun(self.nodes, self.under_way(), leader);
                    held
                } else {
                    let command = NodeModel::<MemoryStateMachine>::command_of(request)->0;
                    held.lemma_write(self.nodes, self.under_way(), leader, command)
                };
                assert(node.next_read_id <= self.next_operation_id);
                self.lemma_moved(held, later, leader, next, sent, after);
                ledger.lemma_extends_further(held, later);
            }
        }
    }

    /// Until a request is answered the ledger goes along.
    pub proof fn lemma_settled_followed(
        self,
        leader: NodeId,
        pending: PendingRequestView,
        deadline: u64,
        fuel: nat,
        ledger: Ledger,
    )
        requires
            self.well_formed(),
            self.has_no_bare_snapshot(),
            self.settles_vouched(leader, pending, deadline, fuel),
            self.is_followed(ledger),
        ensures
            self.settle(leader, pending, deadline, fuel) matches Some((after, _)) ==> {
                &&& after.is_followed(ledger)
                &&& after.well_formed()
                &&& after.has_no_bare_snapshot()
                &&& after.nodes.len() == self.nodes.len()
            },
        decreases fuel,
    {
        if self.now_ms <= deadline && self.outcome(leader, pending) is None && fuel > 0 {
            self.lemma_step_followed(ledger);
            if let Some(next) = self.step() {
                next.lemma_settled_followed(
                    leader,
                    pending,
                    deadline,
                    (fuel - 1) as nat,
                    ledger,
                );
            }
        }
    }

    /// A read that is answered is forgotten.
    pub proof fn lemma_released_followed(
        self,
        leader: NodeId,
        pending: PendingRequestView,
        ledger: Ledger,
    )
        requires
            self.well_formed(),
            self.has_node(leader),
            self.is_followed(ledger),
        ensures
            self.released(leader, pending).is_followed(ledger),
    {
        let after = self.released(leader, pending);
        after.lemma_same_queue(self);
        if let PendingRequestView::Read(read, _) = pending {
            let node = self.nodes[leader as int];
            let next = NodeModel { pending_reads: node.pending_reads.remove(read.id), ..node };
            let held = self.lemma_held(ledger);
            self.lemma_ready(held, leader);
            held.lemma_read_released(self.nodes, self.under_way(), leader, read.id);
            assert(node.next_read_id <= self.next_operation_id);
            self.lemma_moved(held, held, leader, next, Seq::empty(), after);
        } else {
            self.lemma_nothing_moved(ledger, after);
        }
    }

    proof fn lemma_proposed_followed(
        self,
        client_id: u64,
        leader: NodeId,
        request: ClientRequestView,
        fuel: nat,
        ledger: Ledger,
    )
        requires
            self.well_formed(),
            self.has_no_bare_snapshot(),
            self.proposes_vouched(leader, request, fuel),
            self.is_followed(ledger),
            ledger.watch is None,
            ledger.mark matches Some(mark) ==> !writes(request, mark.key),
        ensures
            self.propose_as(client_id, leader, request, fuel) matches Some((after, _))
                ==> after.is_followed(ledger),
    {
        if let Some((after, reply)) = self.propose_as(client_id, leader, request, fuel) {
            let numbered = self.numbered();
            numbered.lemma_same_queue(self);
            self.lemma_nothing_moved(ledger, numbered);
            self.lemma_same_nodes_well_formed(numbered);
            let (served, _) = numbered.serve(leader, request, fuel)->0;
            if self.has_node(leader) && !self.stopped.contains(leader) && request !is LocalGet {
                self.lemma_begun_followed(leader, request, ledger);
                numbered.lemma_begin_frame(leader, request);
                let free = Pledge {
                    node: other_than(leader),
                    ..no_pledge()
                };
                numbered.lemma_begun_tenure(leader, request, free);
                let (begun, result) = numbered.begin(leader, request)->0;
                if let Ok(pending) = result {
                    let deadline = (begun.now_ms + CLIENT_TIMEOUT_MS) as u64;
                    begun.lemma_settled_followed(leader, pending, deadline, fuel, ledger);
                    let (settled, _) = begun.settle(leader, pending, deadline, fuel)->0;
                    settled.lemma_released_followed(leader, pending, ledger);
                }
            }
            after.lemma_same_queue(served);
            served.lemma_nothing_moved(ledger, after);
        }
    }

    proof fn lemma_steps_followed(self, count: nat, ledger: Ledger)
        requires
            self.well_formed(),
            self.has_no_bare_snapshot(),
            self.steps_are_vouched(count),
            self.is_followed(ledger),
        ensures
            self.steps(count) matches Some(after) ==> after.is_followed(ledger),
        decreases count,
    {
        if count > 0 {
            self.lemma_step_followed(ledger);
            if let Some(next) = self.step() {
                next.lemma_steps_followed((count - 1) as nat, ledger);
            }
        }
    }

    proof fn lemma_run_followed(self, deadline: u64, fuel: nat, ledger: Ledger)
        requires
            self.well_formed(),
            self.has_no_bare_snapshot(),
            self.run_is_vouched(deadline, fuel),
            self.is_followed(ledger),
        ensures
            self.run_past(deadline, fuel) matches Some(after) ==> after.is_followed(ledger),
        decreases fuel,
    {
        if self.now_ms <= deadline && fuel > 0 {
            self.lemma_step_followed(ledger);
            if let Some(next) = self.step() {
                next.lemma_run_followed(deadline, (fuel - 1) as nat, ledger);
            }
        }
    }

    proof fn lemma_compacted_followed(self, id: NodeId, index: LogIndex, ledger: Ledger)
        requires
            self.well_formed(),
            self.has_node(id),
            self.is_followed(ledger),
            self.nodes[id as int].compact_to(index).1 matches Ok(snapshot)
                ==> ledger.taken.contains(snapshot),
        ensures
            self.with_node(id, self.nodes[id as int].compact_to(index).0).is_followed(ledger),
    {
        let node = self.nodes[id as int];
        let next = node.compact_to(index).0;
        let after = self.with_node(id, next);
        after.lemma_same_queue(self);
        assert(self.is_at_home(id as int));
        let held = self.lemma_held(ledger);
        self.lemma_ready(held, id);
        held.lemma_compacted(self.nodes, self.under_way(), id, index);
        assert(node.next_read_id <= self.next_operation_id);
        self.lemma_moved(held, held, id, next, Seq::empty(), after);
    }

    /// The snapshot that a call takes.
    pub open spec fn snapshot_taken(self, call: CallView) -> Option<SnapshotView> {
        match self.called(call) {
            Some((_, AnswerView::Compacted(Ok(snapshot)))) => Some(snapshot),
            _ => None,
        }
    }

    /// The snapshots that the calls take.
    pub open spec fn snapshots_taken(self, calls: Seq<CallView>) -> Set<SnapshotView>
        decreases calls.len(),
    {
        if calls.len() == 0 {
            Set::empty()
        } else {
            let rest = match self.called(calls[0]) {
                Some((next, _)) => next.snapshots_taken(calls.skip(1)),
                None => Set::empty(),
            };
            match self.snapshot_taken(calls[0]) {
                Some(snapshot) => rest.insert(snapshot),
                None => rest,
            }
        }
    }

    /// A call goes along with the ledger.
    pub proof fn lemma_call_followed(self, call: CallView, ledger: Ledger)
        requires
            self.well_formed(),
            self.has_no_bare_snapshot(),
            self.call_is_vouched(call),
            self.is_followed(ledger),
            ledger.watch is None,
            ledger.mark matches Some(mark) ==> forall|node: NodeId|
                !#[trigger] overwrites(call, node, mark.key),
            self.snapshot_taken(call) matches Some(snapshot) ==> ledger.taken.contains(snapshot),
        ensures
            self.called(call) matches Some((after, _)) ==> {
                &&& after.is_followed(ledger)
                &&& after.well_formed()
                &&& after.has_no_bare_snapshot()
                &&& after.nodes.len() == self.nodes.len()
            },
    {
        reveal(ClusterModel::call_is_vouched);
        law_call_keeps_the_shape(self, call);
        let free = match call {
            CallView::Propose { client_id, node, request } => Pledge {
                node: other_than(node),
                ..no_pledge()
            },
            _ => no_pledge(),
        };
        law_call_keeps_every_pledge(self, call, free);
        if let Some((after, answer)) = self.called(call) {
            match call {
                CallView::RunFor { duration_ms } => {
                    let deadline = (self.now_ms + duration_ms) as u64;
                    let fuel = choose|fuel: nat|
                        (#[trigger] self.run_past(deadline, fuel)) is Some;
                    assert(self.run_is_vouched(deadline, fuel));
                    self.lemma_run_followed(deadline, fuel, ledger);
                },
                CallView::RunSteps { count } => {
                    self.lemma_steps_followed(count, ledger);
                },
                CallView::Propose { client_id, node, request } => {
                    let fuel = choose|fuel: nat|
                        (#[trigger] self.propose_as(client_id, node, request, fuel)) is Some;
                    if let Some(mark) = ledger.mark {
                        assert(!overwrites(call, node, mark.key));
                    }
                    assert(self.proposes_vouched(node, request, fuel));
                    self.lemma_proposed_followed(client_id, node, request, fuel, ledger);
                },
                CallView::Compact { node, index } => {
                    if self.has_node(node) {
                        self.lemma_compacted_followed(node, index, ledger);
                    } else {
                        after.lemma_same_queue(self);
                        self.lemma_nothing_moved(ledger, after);
                    }
                },
                _ => {
                    after.lemma_same_queue(self);
                    self.lemma_nothing_moved(ledger, after);
                },
            }
        }
    }

    /// Calls go along with the ledger.
    pub proof fn lemma_calls_followed(self, calls: Seq<CallView>, ledger: Ledger)
        requires
            self.well_formed(),
            self.has_no_bare_snapshot(),
            self.stays_vouched(calls),
            self.is_followed(ledger),
            ledger.watch is None,
            ledger.mark matches Some(mark) ==> forall|i: int, node: NodeId|
                0 <= i < calls.len() ==> !#[trigger] overwrites(
                    calls[i],
                    node,
                    mark.key,
                ),
            self.snapshots_taken(calls).subset_of(ledger.taken),
        ensures
            self.called_all(calls) matches Some(after) ==> {
                &&& after.is_followed(ledger)
                &&& after.well_formed()
                &&& after.has_no_bare_snapshot()
                &&& after.nodes.len() == self.nodes.len()
            },
        decreases calls.len(),
    {
        if calls.len() > 0 {
            if let Some(mark) = ledger.mark {
                assert forall|node: NodeId| !#[trigger] overwrites(
                    calls[0],
                    node,
                    mark.key,
                ) by {}
            }
            if let Some(snapshot) = self.snapshot_taken(calls[0]) {
                assert(self.snapshots_taken(calls).contains(snapshot));
            }
            self.lemma_call_followed(calls[0], ledger);
            if let Some((next, _)) = self.called(calls[0]) {
                let rest = calls.skip(1);
                if let Some(mark) = ledger.mark {
                    assert forall|i: int, node: NodeId|
                        0 <= i < rest.len() implies !#[trigger] overwrites(
                        rest[i],
                        node,
                        mark.key,
                    ) by {
                        assert(!overwrites(calls[i + 1], node, mark.key));
                    }
                }
                assert forall|snapshot: SnapshotView| #[trigger]
                    next.snapshots_taken(rest).contains(snapshot) implies ledger.taken.contains(
                    snapshot,
                ) by {
                    assert(self.snapshots_taken(calls).contains(snapshot));
                }
                next.lemma_calls_followed(rest, ledger);
            }
        }
    }
}

} // verus!
