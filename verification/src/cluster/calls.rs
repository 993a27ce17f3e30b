//! Sequences of calls on a cluster.
use crate::cluster::elections::law_management_keeps_votes_single;
use crate::cluster::elections::law_new_cluster_has_single_votes;
use crate::cluster::elections::law_one_leader_per_term;
use crate::cluster::elections::law_request_keeps_votes_single;
use crate::cluster::elections::law_step_keeps_votes_single;
use crate::cluster::laws::history_in_order;
use crate::cluster::laws::law_new_cluster_is_well_formed;
use crate::cluster::laws::law_request_is_recorded;
use crate::cluster::model::ClusterModel;
use crate::cluster::plan::FaultPlanView;
use crate::error::Error;
use crate::history::HistoryOperationView;
use crate::types::ClientReplyView;
use crate::types::ClientRequestView;
use crate::types::LogIndex;
use crate::types::NodeId;
use crate::types::Role;
use crate::types::SnapshotView;
use vstd::prelude::*;

verus! {

/// A call on a cluster that can change it. A run until a predicate holds is a run of
/// some number of steps.
pub enum CallView {
    RunFor { duration_ms: u64 },
    RunSteps { count: nat },
    Propose { client_id: u64, node: NodeId, request: ClientRequestView },
    Stop { node: NodeId },
    Restart { node: NodeId },
    Partition { groups: Seq<Seq<NodeId>> },
    Heal,
    Compact { node: NodeId, index: LogIndex },
    TakeHistory,
}

/// What a call gives back.
pub enum AnswerView {
    Nothing,
    Reply(ClientReplyView),
    Compacted(Result<SnapshotView, Error>),
    Taken(Seq<HistoryOperationView>),
}

impl ClusterModel {
    /// The cluster after the call, and what the call gives back; `None` where a run
    /// does not end or a limit of the machine is in the way.
    pub open spec fn called(self, call: CallView) -> Option<(Self, AnswerView)> {
        match call {
            CallView::RunFor { duration_ms } => {
                let deadline = (self.now_ms + duration_ms) as u64;
                if self.now_ms + duration_ms <= u64::MAX && self.passes(deadline) {
                    Some((self.past(deadline), AnswerView::Nothing))
                } else {
                    None
                }
            },
            CallView::RunSteps { count } => match self.steps(count) {
                Some(after) => Some((after, AnswerView::Nothing)),
                None => None,
            },
            CallView::Propose { client_id, node, request } => {
                if self.answers(client_id, node, request) {
                    let (after, reply) = self.answered(client_id, node, request);
                    Some((after, AnswerView::Reply(reply)))
                } else {
                    None
                }
            },
            CallView::Stop { node } => Some((self.stop(node), AnswerView::Nothing)),
            CallView::Restart { node } => Some((self.restart(node), AnswerView::Nothing)),
            CallView::Partition { groups } => Some(
                (self.partitioned(groups), AnswerView::Nothing),
            ),
            CallView::Heal => Some((self.healed(), AnswerView::Nothing)),
            CallView::Compact { node, index } => {
                if !self.has_node(node) {
                    Some((self, AnswerView::Compacted(Err(Error::UnknownNode))))
                } else if self.nodes[node as int].last_applied == usize::MAX {
                    None
                } else {
                    let (after, result) = self.nodes[node as int].compact_to(index);
                    Some((self.with_node(node, after), AnswerView::Compacted(result)))
                }
            },
            CallView::TakeHistory => Some(
                (
                    ClusterModel { history: Seq::empty(), ..self },
                    AnswerView::Taken(self.history),
                ),
            ),
        }
    }

    /// The cluster after the calls, one after the other.
    pub open spec fn called_all(self, calls: Seq<CallView>) -> Option<Self>
        decreases calls.len(),
    {
        if calls.len() == 0 {
            Some(self)
        } else {
            match self.called(calls[0]) {
                None => None,
                Some((next, _)) => next.called_all(calls.skip(1)),
            }
        }
    }

    proof fn lemma_run_keeps_the_shape(self, deadline: u64, fuel: nat)
        requires
            self.well_formed(),
        ensures
            self.run_past(deadline, fuel) matches Some(after) ==> after.well_formed()
                && self.same_setting(after),
        decreases fuel,
    {
        if self.now_ms <= deadline && fuel > 0 {
            self.lemma_step_frame();
            if let Some(next) = self.step() {
                next.lemma_run_keeps_the_shape(deadline, (fuel - 1) as nat);
            }
        }
    }

    proof fn lemma_steps_keep_the_shape(self, count: nat)
        requires
            self.well_formed(),
        ensures
            self.steps(count) matches Some(after) ==> after.well_formed() && self.same_setting(
                after,
            ),
        decreases count,
    {
        if count > 0 {
            self.lemma_step_frame();
            if let Some(next) = self.step() {
                next.lemma_steps_keep_the_shape((count - 1) as nat);
            }
        }
    }

    proof fn lemma_propose_keeps_the_shape(
        self,
        client_id: u64,
        node: NodeId,
        request: ClientRequestView,
        fuel: nat,
    )
        requires
            self.well_formed(),
        ensures
            self.propose_as(client_id, node, request, fuel) matches Some((after, _))
                ==> after.well_formed() && after.nodes.len() == self.nodes.len(),
    {
        if let Some((after, _)) = self.propose_as(client_id, node, request, fuel) {
            let numbered = ClusterModel {
                next_operation_id: (self.next_operation_id + 1) as u64,
                ..self
            };
            self.lemma_same_nodes_well_formed(numbered);
            numbered.lemma_serve_frame(node, request, fuel);
            let (served, _) = numbered.serve(node, request, fuel)->0;
            served.lemma_same_nodes_well_formed(after);
        }
    }
}

/// Every call leaves a cluster well formed and as large as it was.
pub proof fn law_call_keeps_the_shape(cluster: ClusterModel, call: CallView)
    requires
        cluster.well_formed(),
    ensures
        cluster.called(call) matches Some((after, _)) ==> after.well_formed() && after.nodes.len()
            == cluster.nodes.len(),
{
    if let Some((after, _)) = cluster.called(call) {
        match call {
            CallView::RunFor { duration_ms } => {
                let deadline = (cluster.now_ms + duration_ms) as u64;
                let fuel = choose|fuel: nat|
                    (#[trigger] cluster.run_past(deadline, fuel)) is Some;
                cluster.lemma_run_keeps_the_shape(deadline, fuel);
            },
            CallView::RunSteps { count } => {
                cluster.lemma_steps_keep_the_shape(count);
            },
            CallView::Propose { client_id, node, request } => {
                let fuel = choose|fuel: nat|
                    (#[trigger] cluster.propose_as(client_id, node, request, fuel)) is Some;
                cluster.lemma_propose_keeps_the_shape(client_id, node, request, fuel);
            },
            CallView::Compact { node, index } => {
                if cluster.has_node(node) {
                    let before = cluster.nodes[node as int];
                    assert(cluster.is_at_home(node as int));
                    cluster.lemma_with_node_well_formed(node, before.compact_to(index).0);
                }
            },
            _ => {
                cluster.lemma_same_nodes_well_formed(after);
            },
        }
    }
}

/// `states` are what a cluster becomes, call by call, and `answers` what the calls give
/// back.
pub open spec fn is_run(
    states: Seq<ClusterModel>,
    calls: Seq<CallView>,
    answers: Seq<AnswerView>,
) -> bool {
    &&& states.len() == calls.len() + 1
    &&& answers.len() == calls.len()
    &&& forall|i: int|
        0 <= i < calls.len() ==> states[i].called(#[trigger] calls[i]) == Some(
            (states[i + 1], answers[i]),
        )
}

/// Two clusters of the same size and the same plan, on which the same calls are made,
/// go through the same states and give the same answers: everything random comes from
/// the plan's seed.
pub proof fn law_same_seed_same_run(
    size: nat,
    fault_plan: FaultPlanView,
    calls: Seq<CallView>,
    first: Seq<ClusterModel>,
    second: Seq<ClusterModel>,
    first_answers: Seq<AnswerView>,
    second_answers: Seq<AnswerView>,
)
    requires
        is_run(first, calls, first_answers),
        is_run(second, calls, second_answers),
        first[0] == ClusterModel::initial(size, fault_plan),
        second[0] == ClusterModel::initial(size, fault_plan),
    ensures
        first == second,
        first_answers == second_answers,
{
    assert forall|i: int| 0 <= i < first.len() implies first[i] == second[i] by {
        lemma_same_state(calls, first, second, first_answers, second_answers, i);
    }
    assert(first =~= second);
    assert forall|i: int| 0 <= i < first_answers.len() implies first_answers[i]
        == second_answers[i] by {
        assert(first[i].called(calls[i]) == Some((first[i + 1], first_answers[i])));
        assert(second[i].called(calls[i]) == Some((second[i + 1], second_answers[i])));
    }
    assert(first_answers =~= second_answers);
}

proof fn lemma_same_state(
    calls: Seq<CallView>,
    first: Seq<ClusterModel>,
    second: Seq<ClusterModel>,
    first_answers: Seq<AnswerView>,
    second_answers: Seq<AnswerView>,
    at: int,
)
    requires
        is_run(first, calls, first_answers),
        is_run(second, calls, second_answers),
        first[0] == second[0],
        0 <= at < first.len(),
    ensures
        first[at] == second[at],
    decreases at,
{
    if at > 0 {
        lemma_same_state(calls, first, second, first_answers, second_answers, at - 1);
        assert(first[at - 1].called(calls[at - 1]) == Some((first[at], first_answers[at - 1])));
        assert(second[at - 1].called(calls[at - 1]) == Some((second[at], second_answers[at - 1])));
    }
}

impl ClusterModel {
    proof fn lemma_steps_keep_votes_single(self, count: nat)
        requires
            self.well_formed(),
            self.votes_are_single(),
        ensures
            self.steps(count) matches Some(after) ==> after.votes_are_single(),
        decreases count,
    {
        if count > 0 {
            self.lemma_step_frame();
            law_step_keeps_votes_single(self);
            if let Some(next) = self.step() {
                next.lemma_steps_keep_votes_single((count - 1) as nat);
            }
        }
    }

    proof fn lemma_run_keeps_votes_single(self, deadline: u64, fuel: nat)
        requires
            self.well_formed(),
            self.votes_are_single(),
        ensures
            self.run_past(deadline, fuel) matches Some(after) ==> after.votes_are_single(),
        decreases fuel,
    {
        if self.now_ms <= deadline && fuel > 0 {
            self.lemma_step_frame();
            law_step_keeps_votes_single(self);
            if let Some(next) = self.step() {
                next.lemma_run_keeps_votes_single(deadline, (fuel - 1) as nat);
            }
        }
    }
}

/// No call lets a node vote twice.
pub proof fn law_call_keeps_votes_single(cluster: ClusterModel, call: CallView)
    requires
        cluster.well_formed(),
        cluster.votes_are_single(),
    ensures
        cluster.called(call) matches Some((after, _)) ==> after.votes_are_single(),
{
    if let Some((after, _)) = cluster.called(call) {
        match call {
            CallView::RunFor { duration_ms } => {
                let deadline = (cluster.now_ms + duration_ms) as u64;
                let fuel = choose|fuel: nat|
                    (#[trigger] cluster.run_past(deadline, fuel)) is Some;
                cluster.lemma_run_keeps_votes_single(deadline, fuel);
            },
            CallView::RunSteps { count } => {
                cluster.lemma_steps_keep_votes_single(count);
            },
            CallView::Propose { client_id, node, request } => {
                let fuel = choose|fuel: nat|
                    (#[trigger] cluster.propose_as(client_id, node, request, fuel)) is Some;
                law_request_keeps_votes_single(cluster, client_id, node, request, fuel);
            },
            CallView::Stop { node } => {
                law_management_keeps_votes_single(cluster, node, Seq::empty(), 0);
            },
            CallView::Restart { node } => {
                law_management_keeps_votes_single(cluster, node, Seq::empty(), 0);
            },
            CallView::Partition { groups } => {
                law_management_keeps_votes_single(cluster, 0, groups, 0);
            },
            CallView::Heal => {
                law_management_keeps_votes_single(cluster, 0, Seq::empty(), 0);
            },
            CallView::Compact { node, index } => {
                law_management_keeps_votes_single(cluster, node, Seq::empty(), index);
            },
            CallView::TakeHistory => {
                cluster.lemma_same_votes(after);
            },
        }
    }
}

pub proof fn lemma_calls_keep_votes_single(cluster: ClusterModel, calls: Seq<CallView>)
    requires
        cluster.well_formed(),
        cluster.votes_are_single(),
    ensures
        cluster.called_all(calls) matches Some(after) ==> after.well_formed()
            && after.votes_are_single(),
    decreases calls.len(),
{
    if calls.len() > 0 {
        law_call_keeps_the_shape(cluster, calls[0]);
        law_call_keeps_votes_single(cluster, calls[0]);
        if let Some((next, _)) = cluster.called(calls[0]) {
            lemma_calls_keep_votes_single(next, calls.skip(1));
        }
    }
}

/// Whatever calls are made on a new cluster, whatever its plan, a term has at most one
/// leader at a time.
pub proof fn law_simulation_has_one_leader_per_term(
    size: nat,
    fault_plan: FaultPlanView,
    calls: Seq<CallView>,
    first: NodeId,
    second: NodeId,
)
    requires
        size <= usize::MAX,
        ClusterModel::initial(size, fault_plan).called_all(calls) matches Some(cluster) && {
            &&& cluster.has_node(first)
            &&& cluster.has_node(second)
            &&& cluster.nodes[first as int].role == Role::Leader
            &&& cluster.nodes[second as int].role == Role::Leader
            &&& cluster.nodes[first as int].current_term
                == cluster.nodes[second as int].current_term
        },
    ensures
        first == second,
{
    let start = ClusterModel::initial(size, fault_plan);
    law_new_cluster_has_single_votes(size, fault_plan);
    law_new_cluster_is_well_formed(size, fault_plan);
    lemma_calls_keep_votes_single(start, calls);
    law_one_leader_per_term(start.called_all(calls)->0, first, second);
}

/// The numbers of requests are never used again, also where the history is taken in
/// between: the next request's number is above those of all that were recorded.
pub proof fn law_numbers_are_not_used_again(
    cluster: ClusterModel,
    client_id: u64,
    node: NodeId,
    request: ClientRequestView,
)
    requires
        cluster.well_formed(),
        history_in_order(cluster),
        cluster.called(CallView::TakeHistory) matches Some((emptied, _)) && emptied.answers(
            client_id,
            node,
            request,
        ),
    ensures
        ({
            let (emptied, answer) = cluster.called(CallView::TakeHistory)->0;
            let (after, reply) = emptied.answered(client_id, node, request);
            &&& answer == AnswerView::Taken(cluster.history)
            &&& emptied.history.len() == 0
            &&& emptied.nodes == cluster.nodes
            &&& emptied.messages == cluster.messages
            &&& emptied.now_ms == cluster.now_ms
            &&& after.history.len() == 1
            &&& forall|i: int|
                0 <= i < cluster.history.len() ==> (#[trigger] cluster.history[i]).id
                    < after.history[0].id
        }),
{
    let (emptied, _) = cluster.called(CallView::TakeHistory)->0;
    cluster.lemma_same_nodes_well_formed(emptied);
    let fuel = choose|fuel: nat|
        (#[trigger] emptied.propose_as(client_id, node, request, fuel)) is Some;
    law_request_is_recorded(emptied, client_id, node, request, fuel);
}

} // verus!
