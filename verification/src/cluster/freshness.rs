//! A term stays unknown, through all calls, until somebody is elected in it.
use crate::cluster::calls::law_call_keeps_the_shape;
use crate::cluster::calls::law_call_keeps_votes_single;
use crate::cluster::calls::CallView;
use crate::cluster::elections::law_new_cluster_has_single_votes;
use crate::cluster::elections::law_step_keeps_votes_single;
use crate::cluster::journeys::no_pledge;
use crate::cluster::journeys::other_than;
use crate::cluster::laws::law_new_cluster_is_well_formed;
use crate::cluster::laws::law_step_moves_the_clock_by_a_tick;
use crate::cluster::model::ClusterModel;
use crate::cluster::model::PendingRequestView;
use crate::cluster::plan::FaultPlanView;
use crate::cluster::tenure::law_call_keeps_every_pledge;
use crate::cluster::tenure::law_new_cluster_has_no_bare_snapshot;
use crate::cluster::tenure::law_step_keeps_every_pledge;
use crate::cluster::tenure::Pledge;
use crate::cluster::terms::are_past;
use crate::cluster::terms::law_first_leader_is_ahead;
use crate::cluster::terms::law_new_cluster_is_fresh;
use crate::cluster::terms::leads_in;
use crate::cluster::terms::lemma_own_log_is_past;
use crate::cluster::terms::say_nothing_of;
use crate::cluster::CLIENT_TIMEOUT_MS;
use crate::node::laws::batches::entries_are_past;
use crate::node::laws::batches::law_leader_sends_its_log;
use crate::node::laws::origins::knows_nothing_of;
use crate::node::laws::origins::law_entries_stay_past_by_themselves;
use crate::node::laws::origins::starts_somewhere;
use crate::node::laws::shape::law_clients_keep_the_shape;
use crate::node::model::NodeModel;
use crate::state_machine::MemoryStateMachine;
use crate::types::ClientRequestView;
use crate::types::LogIndex;
use crate::types::MessageView;
use crate::types::NodeId;
use crate::types::Term;
use vstd::prelude::*;

verus! {

/// Compaction leaves only entries that were there.
proof fn lemma_compacted_entries(
    node: NodeModel<MemoryStateMachine>,
    index: LogIndex,
    term: Term,
)
    requires
        node.well_formed(),
        entries_are_past(node),
        starts_somewhere(node),
    ensures
        ({
            let after = node.compact_to(index).0;
            &&& entries_are_past(after)
            &&& starts_somewhere(after)
            &&& knows_nothing_of(node, term) ==> knows_nothing_of(after, term)
            &&& after.role == node.role
            &&& after.current_term == node.current_term
        }),
{
    let (after, result) = node.compact_to(index);
    if result is Ok {
        let kept = node.entries_from(index + 1);
        assert forall|i: int| (#[trigger] after.entry_at(i)) is Some implies after.entry_at(i)
            == node.entry_at(i) by {
            assert(after.log[i - index] == kept[i - index - 1]);
        }
        assert forall|i: int| (#[trigger] after.entry_at(i)) is Some implies after.entry_at(
            i,
        )->0.term <= after.current_term by {
            assert(node.entry_at(i) is Some);
        }
        if knows_nothing_of(node, term) && node.current_term <= term {
            assert forall|i: int| (#[trigger] after.entry_at(i)) is Some implies after.entry_at(
                i,
            )->0.term != term by {
                assert(node.entry_at(i) is Some);
            }
        }
    }
}

impl ClusterModel {
    /// Steps from here, not past the time `until`, lead to a state in which somebody
    /// leads in `term`.
    pub open spec fn elects_by(self, until: u64, term: Term) -> bool {
        exists|count: nat|
            (#[trigger] self.steps(count)) is Some && self.steps(count)->0.now_ms <= until
                && !self.steps(count)->0.has_no_leader_in(term)
    }

    /// On the way of the call somebody comes to lead in `term`.
    pub open spec fn elects_during(self, call: CallView, term: Term) -> bool {
        match (self.called(call), call) {
            (Some((after, _)), CallView::RunFor { .. }) => self.elects_by(after.now_ms, term),
            (Some((after, _)), CallView::RunSteps { .. }) => self.elects_by(after.now_ms, term),
            (Some((after, _)), CallView::Propose { client_id, node, request }) => {
                self.numbered().begin(node, request) matches Some((begun, _))
                    && begun.elects_by(after.now_ms, term)
            },
            _ => false,
        }
    }

    /// The term is as unknown as it was, or a leader of it was elected.
    spec fn keeps_fresh(self, after: Self, term: Term) -> bool {
        &&& after.is_grounded()
        &&& self.is_fresh(term) ==> after.is_fresh(term)
    }

    proof fn lemma_same_is_fresh(self, after: Self, term: Term)
        requires
            self.is_grounded(),
            after.nodes == self.nodes,
            after.messages == self.messages,
        ensures
            self.keeps_fresh(after, term),
    {
        assert(after.under_way() =~= self.under_way());
    }

    proof fn lemma_replaced_is_fresh(
        self,
        id: NodeId,
        next: NodeModel<MemoryStateMachine>,
        sent: Seq<MessageView>,
        after: Self,
        term: Term,
    )
        requires
            self.is_grounded(),
            self.has_node(id),
            after.nodes == self.nodes.update(id as int, next),
            after.messages_come_from(self, sent),
            entries_are_past(next),
            starts_somewhere(next),
            are_past(sent),
            self.is_fresh(term) ==> knows_nothing_of(next, term) && !leads_in(next, term)
                && say_nothing_of(sent, term),
        ensures
            self.keeps_fresh(after, term),
    {
        after.lemma_queue_past(self, sent, term);
        assert forall|i: int| 0 <= i < after.nodes.len() implies entries_are_past(
            #[trigger] after.nodes[i],
        ) && starts_somewhere(after.nodes[i]) by {
            if i != id {
                assert(after.nodes[i] == self.nodes[i]);
            }
        }
        if self.is_fresh(term) {
            assert forall|i: int| 0 <= i < after.nodes.len() implies !leads_in(
                #[trigger] after.nodes[i],
                term,
            ) && knows_nothing_of(after.nodes[i], term) by {
                if i != id {
                    assert(after.nodes[i] == self.nodes[i]);
                }
            }
        }
    }

    proof fn lemma_begun_is_fresh(self, leader: NodeId, request: ClientRequestView, term: Term)
        requires
            self.well_formed(),
            self.is_grounded(),
            self.has_node(leader),
        ensures
            self.begin(leader, request) matches Some((after, _)) ==> self.keeps_fresh(after, term),
    {
        let node = self.nodes[leader as int];
        assert(self.is_at_home(leader as int));
        if let Some((after, _)) = self.begin(leader, request) {
            law_leader_sends_its_log(node, request, 0);
            law_clients_keep_the_shape(node, request);
            law_entries_stay_past_by_themselves(node, request, 0, term);
            assert(self.is_fresh(term) ==> !leads_in(self.nodes[leader as int], term));
            let (next, sent) = if request is Get {
                (
                    node.start_read().0,
                    match node.start_read().1 {
                        Ok((_, messages)) => messages,
                        Err(_) => Seq::empty(),
                    },
                )
            } else {
                (
                    node.start_write(request).0,
                    match node.start_write(request).1 {
                        Ok((_, messages)) => messages,
                        Err(_) => Seq::empty(),
                    },
                )
            };
            let placed = self.with_node(leader, next);
            placed.lemma_same_queue(self);
            placed.lemma_enqueued(sent);
            placed.lemma_enqueue_leaves_nodes(sent);
            assert(Some(after) == placed.enqueue(sent));
            after.lemma_comes_from_more(placed, self, sent);
            if sent.len() > 0 {
                lemma_own_log_is_past(next, sent, term);
            }
            self.lemma_replaced_is_fresh(leader, next, sent, after, term);
        }
    }

    /// A run leaves the term unknown, or elects somebody in it.
    spec fn goes_fresh(self, after: Self, term: Term) -> bool {
        &&& after.is_grounded()
        &&& self.is_fresh(term) ==> after.is_fresh(term) || self.elects_by(after.now_ms, term)
    }

    proof fn lemma_step_is_fresh(self, next: Self, after: Self, term: Term)
        requires
            self.well_formed(),
            self.has_no_bare_snapshot(),
            self.is_grounded(),
            self.step() == Some(next),
            next.now_ms <= after.now_ms,
            next.goes_fresh(after, term),
        ensures
            self.goes_fresh(after, term),
    {
        law_first_leader_is_ahead(self, term);
        if self.is_fresh(term) && !after.is_fresh(term) {
            if next.is_fresh(term) {
                let count = choose|count: nat|
                    (#[trigger] next.steps(count)) is Some && next.steps(count)->0.now_ms
                        <= after.now_ms && !next.steps(count)->0.has_no_leader_in(term);
                assert(self.steps(count + 1) == next.steps(count));
                assert(self.steps((count + 1) as nat) is Some);
            } else {
                assert(next.steps(0) == Some(next));
                assert(self.steps(1) == next.steps(0));
                assert(self.steps(1nat) is Some);
            }
        }
    }

    proof fn lemma_stepped(self)
        requires
            self.well_formed(),
            self.has_no_bare_snapshot(),
            self.is_grounded(),
        ensures
            self.step() matches Some(next) ==> {
                &&& next.well_formed()
                &&& next.has_no_bare_snapshot()
                &&& next.is_grounded()
                &&& self.now_ms <= next.now_ms
            },
    {
        self.lemma_step_frame();
        law_step_keeps_every_pledge(self, no_pledge());
        law_first_leader_is_ahead(self, 0);
        law_step_moves_the_clock_by_a_tick(self);
    }

    proof fn lemma_run_is_fresh(self, deadline: u64, fuel: nat, term: Term)
        requires
            self.well_formed(),
            self.has_no_bare_snapshot(),
            self.is_grounded(),
        ensures
            self.run_past(deadline, fuel) matches Some(after) ==> self.goes_fresh(after, term)
                && self.now_ms <= after.now_ms,
        decreases fuel,
    {
        if self.now_ms <= deadline && fuel > 0 {
            self.lemma_stepped();
            if let Some(next) = self.step() {
                next.lemma_run_is_fresh(deadline, (fuel - 1) as nat, term);
                if let Some(after) = self.run_past(deadline, fuel) {
                    self.lemma_step_is_fresh(next, after, term);
                }
            }
        }
    }

    proof fn lemma_steps_are_fresh(self, count: nat, term: Term)
        requires
            self.well_formed(),
            self.has_no_bare_snapshot(),
            self.is_grounded(),
        ensures
            self.steps(count) matches Some(after) ==> self.goes_fresh(after, term) && self.now_ms
                <= after.now_ms,
        decreases count,
    {
        if count > 0 {
            self.lemma_stepped();
            if let Some(next) = self.step() {
                next.lemma_steps_are_fresh((count - 1) as nat, term);
                if let Some(after) = self.steps(count) {
                    self.lemma_step_is_fresh(next, after, term);
                }
            }
        }
    }

    proof fn lemma_settled_is_fresh(
        self,
        leader: NodeId,
        pending: PendingRequestView,
        deadline: u64,
        fuel: nat,
        term: Term,
    )
        requires
            self.well_formed(),
            self.has_no_bare_snapshot(),
            self.is_grounded(),
        ensures
            self.settle(leader, pending, deadline, fuel) matches Some((after, _))
                ==> self.goes_fresh(after, term) && self.now_ms <= after.now_ms,
        decreases fuel,
    {
        if self.now_ms <= deadline && self.outcome(leader, pending) is None && fuel > 0 {
            self.lemma_stepped();
            if let Some(next) = self.step() {
                next.lemma_settled_is_fresh(leader, pending, deadline, (fuel - 1) as nat, term);
                if let Some((after, _)) = self.settle(leader, pending, deadline, fuel) {
                    self.lemma_step_is_fresh(next, after, term);
                }
            }
        }
    }

    proof fn lemma_proposed_is_fresh(
        self,
        client_id: u64,
        leader: NodeId,
        request: ClientRequestView,
        fuel: nat,
        term: Term,
    )
        requires
            self.well_formed(),
            self.has_no_bare_snapshot(),
            self.is_grounded(),
        ensures
            self.propose_as(client_id, leader, request, fuel) matches Some((after, _)) ==> {
                &&& after.is_grounded()
                &&& self.is_fresh(term) ==> after.is_fresh(term) || (self.numbered().begin(
                    leader,
                    request,
                ) matches Some((begun, _)) && begun.elects_by(after.now_ms, term))
            },
    {
        if let Some((after, _)) = self.propose_as(client_id, leader, request, fuel) {
            let numbered = self.numbered();
            self.lemma_same_nodes_well_formed(numbered);
            self.lemma_same_is_fresh(numbered, term);
            let (served, _) = numbered.serve(leader, request, fuel)->0;
            if self.has_node(leader) && !self.stopped.contains(leader) && request !is LocalGet {
                numbered.lemma_begun_is_fresh(leader, request, term);
                numbered.lemma_begin_frame(leader, request);
                numbered.lemma_begun_tenure(
                    leader,
                    request,
                    Pledge { node: other_than(leader), ..no_pledge() },
                );
                let (begun, result) = numbered.begin(leader, request)->0;
                if let Ok(pending) = result {
                    let deadline = (begun.now_ms + CLIENT_TIMEOUT_MS) as u64;
                    begun.lemma_settled_is_fresh(leader, pending, deadline, fuel, term);
                    begun.lemma_settle_frame(leader, pending, deadline, fuel);
                    let (settled, _) = begun.settle(leader, pending, deadline, fuel)->0;
                    if let PendingRequestView::Read(read, _) = pending {
                        let node = settled.nodes[leader as int];
                        let next = NodeModel {
                            pending_reads: node.pending_reads.remove(read.id),
                            ..node
                        };
                        assert(entries_are_past(settled.nodes[leader as int]));
                        assert forall|i: int| #[trigger] next.entry_at(i) == node.entry_at(i) by {}
                        assert(settled.is_fresh(term) ==> !leads_in(
                            settled.nodes[leader as int],
                            term,
                        ) && knows_nothing_of(settled.nodes[leader as int], term));
                        let released = settled.released(leader, pending);
                        released.lemma_same_queue(settled);
                        settled.lemma_replaced_is_fresh(
                            leader,
                            next,
                            Seq::empty(),
                            released,
                            term,
                        );
                    } else {
                        settled.lemma_same_is_fresh(settled, term);
                    }
                }
            } else {
                numbered.lemma_same_is_fresh(served, term);
            }
            served.lemma_same_is_fresh(after, term);
        }
    }
}

/// No call brings anything of a term that has not been reached into a log or a message,
/// and a term that nobody has led in stays unknown through every call, unless somebody is
/// elected in it on the way.
pub proof fn law_call_keeps_a_term_fresh(cluster: ClusterModel, call: CallView, term: Term)
    requires
        cluster.well_formed(),
        cluster.has_no_bare_snapshot(),
        cluster.is_grounded(),
    ensures
        cluster.called(call) matches Some((after, _)) ==> {
            &&& after.is_grounded()
            &&& cluster.is_fresh(term) && !cluster.elects_during(call, term) ==> after.is_fresh(
                term,
            )
        },
{
    if let Some((after, _)) = cluster.called(call) {
        match call {
            CallView::RunFor { duration_ms } => {
                let deadline = (cluster.now_ms + duration_ms) as u64;
                let fuel = choose|fuel: nat|
                    (#[trigger] cluster.run_past(deadline, fuel)) is Some;
                cluster.lemma_run_is_fresh(deadline, fuel, term);
            },
            CallView::RunSteps { count } => {
                cluster.lemma_steps_are_fresh(count, term);
            },
            CallView::Propose { client_id, node, request } => {
                let fuel = choose|fuel: nat|
                    (#[trigger] cluster.propose_as(client_id, node, request, fuel)) is Some;
                cluster.lemma_proposed_is_fresh(client_id, node, request, fuel, term);
            },
            CallView::Compact { node, index } => {
                if cluster.has_node(node) {
                    let before = cluster.nodes[node as int];
                    assert(cluster.is_at_home(node as int));
                    assert(entries_are_past(cluster.nodes[node as int]));
                    assert(cluster.is_fresh(term) ==> !leads_in(
                        cluster.nodes[node as int],
                        term,
                    ) && knows_nothing_of(cluster.nodes[node as int], term));
                    lemma_compacted_entries(before, index, term);
                    after.lemma_same_queue(cluster);
                    cluster.lemma_replaced_is_fresh(
                        node,
                        before.compact_to(index).0,
                        Seq::empty(),
                        after,
                        term,
                    );
                } else {
                    cluster.lemma_same_is_fresh(after, term);
                }
            },
            _ => {
                cluster.lemma_same_is_fresh(after, term);
            },
        }
    }
}

impl ClusterModel {
    /// On the way of the calls somebody comes to lead in `term`.
    pub open spec fn elects_during_all(self, calls: Seq<CallView>, term: Term) -> bool
        decreases calls.len(),
    {
        calls.len() > 0 && {
            ||| self.elects_during(calls[0], term)
            ||| match self.called(calls[0]) {
                Some((next, _)) => next.elects_during_all(calls.skip(1), term),
                None => false,
            }
        }
    }

    proof fn lemma_calls_keep_fresh(self, calls: Seq<CallView>, term: Term)
        requires
            self.well_formed(),
            self.has_no_bare_snapshot(),
            self.votes_are_single(),
            self.is_grounded(),
            self.is_fresh(term),
            !self.elects_during_all(calls, term),
        ensures
            self.called_all(calls) matches Some(after) ==> {
                &&& after.well_formed()
                &&& after.has_no_bare_snapshot()
                &&& after.votes_are_single()
                &&& after.is_grounded()
                &&& after.is_fresh(term)
            },
        decreases calls.len(),
    {
        if calls.len() > 0 {
            let free = match calls[0] {
                CallView::Propose { client_id, node, request } => Pledge {
                    node: other_than(node),
                    ..no_pledge()
                },
                _ => no_pledge(),
            };
            law_call_keeps_the_shape(self, calls[0]);
            law_call_keeps_votes_single(self, calls[0]);
            law_call_keeps_every_pledge(self, calls[0], free);
            law_call_keeps_a_term_fresh(self, calls[0], term);
            if let Some((next, _)) = self.called(calls[0]) {
                next.lemma_calls_keep_fresh(calls.skip(1), term);
            }
        }
    }
}

/// Nothing is ahead of the first leader of a term: if calls on a new cluster have elected
/// nobody in the term, and a step then elects a node in it that has applied what it has
/// committed, then that node holds the lead.
pub proof fn law_first_leader_holds_the_lead(
    size: nat,
    fault_plan: FaultPlanView,
    calls: Seq<CallView>,
    id: NodeId,
    term: Term,
)
    requires
        size <= usize::MAX,
        !ClusterModel::initial(size, fault_plan).elects_during_all(calls, term),
        ClusterModel::initial(size, fault_plan).called_all(calls) matches Some(cluster) && {
            cluster.step() matches Some(next) && {
                &&& next.has_node(id)
                &&& leads_in(next.nodes[id as int], term)
                &&& next.nodes[id as int].keeps_pace()
            }
        },
    ensures
        ClusterModel::initial(size, fault_plan).called_all(calls)->0.step()->0.holds_lead(id, term),
{
    let start = ClusterModel::initial(size, fault_plan);
    let cluster = start.called_all(calls)->0;
    law_new_cluster_is_well_formed(size, fault_plan);
    law_new_cluster_has_single_votes(size, fault_plan);
    law_new_cluster_has_no_bare_snapshot(size, fault_plan);
    law_new_cluster_is_fresh(size, fault_plan, term);
    start.lemma_calls_keep_fresh(calls, term);
    cluster.lemma_step_frame();
    law_first_leader_is_ahead(cluster, term);
    law_step_keeps_votes_single(cluster);
    law_step_keeps_every_pledge(cluster, no_pledge());
}

} // verus!
