//! What whole simulations promise: one history, and one leader per term.
use crate::cluster::calls::lemma_calls_keep_votes_single;
use crate::cluster::calls::CallView;
use crate::cluster::elections::law_new_cluster_has_single_votes;
use crate::cluster::laws::law_next_message_is_in_the_window;
use crate::cluster::ledger::are_distinct;
use crate::cluster::ledger::Ledger;
use crate::cluster::majorities::is_behind;
use crate::cluster::majorities::law_recorded_write_was_stored_by_a_majority;
use crate::cluster::model::ClusterModel;
use crate::cluster::plan::FaultPlanView;
use crate::node::laws::batches::trails;
use crate::node::laws::histories::contents;
use crate::node::laws::histories::is_in_full;
use crate::node::laws::histories::lemma_agreement_matches;
use crate::node::laws::histories::lemma_full_terms;
use crate::node::laws::tracking::keeps_track;
use crate::node::model::larger;
use crate::node::model::smaller;
use crate::node::model::NodeModel;
use crate::node::MAX_APPEND_ENTRIES;
use crate::state_machine::MemoryStateMachine;
use crate::types::ClientRequestView;
use crate::types::LogEntryView;
use crate::types::MessageView;
use crate::types::NodeId;
use crate::types::Role;
use crate::types::RpcView;
use vstd::prelude::*;

verus! {

/// What the log makes of the snapshot is what the log in full makes of nothing.
proof fn lemma_replayed(
    node: NodeModel<MemoryStateMachine>,
    full: Seq<LogEntryView>,
    index: int,
)
    requires
        is_in_full(node, full),
        node.log_base_index <= index <= full.len(),
        node.origin() == contents(full.take(node.log_base_index as int)),
    ensures
        node.replayed(index) == contents(full.take(index)),
    decreases index,
{
    if index > node.log_base_index {
        lemma_replayed(node, full, index - 1);
        assert(node.entry_at(index) == Some(full[index - 1]));
        assert(full.take(index).drop_last() =~= full.take(index - 1));
    }
}

/// The nodes have committed the same, as far as both have committed: the same entries,
/// and, where they have committed equally far, the same contents.
pub open spec fn share_history(
    first: NodeModel<MemoryStateMachine>,
    second: NodeModel<MemoryStateMachine>,
) -> bool {
    &&& forall|index: int|
        index <= first.commit_index && index <= second.commit_index && (
        #[trigger] first.entry_at(index)) is Some && second.entry_at(index) is Some
            ==> first.entry_at(index) == second.entry_at(index)
    &&& first.commit_index == second.commit_index ==> first.state == second.state
}

impl ClusterModel {
    /// A recorded node is consistent.
    proof fn lemma_recorded_is_consistent(self, held: Ledger, i: int)
        requires
            self.well_formed(),
            self.is_recorded(held),
            0 <= i < self.nodes.len(),
        ensures
            self.nodes[i].is_consistent(),
    {
        let node = self.nodes[i];
        let full = held.fulls[node.id];
        assert(self.is_at_home(i));
        assert(held.node_holds(self.nodes, i));
        lemma_full_terms(node, full);
        let base = node.log_base_index as int;
        if base == 0 {
            assert(full.take(0) =~= Seq::<LogEntryView>::empty());
        }
        lemma_replayed(node, full, node.commit_index as int);
    }

    /// A request that is under way overwrites nothing that is committed.
    proof fn lemma_recorded_spares(self, held: Ledger, k: int)
        requires
            self.well_formed(),
            self.is_recorded(held),
            0 <= k < self.under_way().len(),
        ensures
            self.under_way()[k].rpc matches RpcView::AppendEntries(request)
                ==> self.nodes[self.under_way()[k].to as int].spares_committed(request),
    {
        let message = self.under_way()[k];
        assert(held.message_holds(self.nodes, self.under_way()[k]));
        if let RpcView::AppendEntries(request) = message.rpc {
            let node = self.nodes[message.to as int];
            let full = held.fulls[message.to];
            let term = request.term;
            assert(held.node_holds(self.nodes, message.to as int));
            assert(held.term_holds(self.nodes, term));
                if node.accepts_append(request) {
                let commit = node.commit_index as int;
                let prev = request.prev_log_index as int;
                let source = held.log(term);
                held.lemma_match_up(full, source);
                held.lemma_covered_stays(
                    self.nodes,
                    self.under_way(),
                    full,
                    commit,
                    node.current_term,
                    term,
                );
                lemma_full_terms(node, full);
                if prev > 0 {
                    assert(node.term_at(prev) == Some(full[prev - 1].term));
                    assert(full[prev - 1].term == source[prev - 1].term);
                } else {
                    assert(full.take(0) =~= source.take(0));
                }
                lemma_agreement_matches(node, full, source, prev, request.entries);
                let kept = node.agreement(prev + 1, request.entries) as int;
                if kept < request.entries.len() && prev + 1 + kept <= commit {
                    assert(full.take(commit)[prev + kept] == source.take(commit)[prev + kept]);
                }
            }
        }
    }

    /// Recorded nodes share their history.
    proof fn lemma_recorded_share(self, held: Ledger, a: int, b: int)
        requires
            self.well_formed(),
            self.is_recorded(held),
            0 <= a < self.nodes.len(),
            0 <= b < self.nodes.len(),
        ensures
            share_history(self.nodes[a], self.nodes[b]),
    {
        let first = self.nodes[a];
        let second = self.nodes[b];
        let left = held.fulls[first.id];
        let right = held.fulls[second.id];
        assert(held.node_holds(self.nodes, a));
        assert(held.node_holds(self.nodes, b));
        let count = smaller(first.commit_index as int, second.commit_index as int);
        held.lemma_shape(self.nodes, self.under_way());
        held.lemma_covered_less(left, first.commit_index as int, count, first.current_term);
        held.lemma_covered_less(right, second.commit_index as int, count, second.current_term);
        held.lemma_covered_agree(
            self.nodes,
            self.under_way(),
            left,
            first.current_term,
            right,
            second.current_term,
            count,
        );
        assert forall|index: int|
            index <= first.commit_index && index <= second.commit_index && (
            #[trigger] first.entry_at(index)) is Some && second.entry_at(index) is Some implies
            first.entry_at(index) == second.entry_at(index) by {
            assert(1 <= index);
            assert(first.entry_at(index) == Some(left[index - 1]));
            assert(second.entry_at(index) == Some(right[index - 1]));
            assert(left.take(count)[index - 1] == right.take(count)[index - 1]);
        }
    }
}

/// However a simulation runs, every node stays consistent, no request that is under way
/// overwrites what its addressee has committed, and any two nodes have committed the same
/// as far as both have committed; as long as no node strays and its snapshots can be told
/// apart.
pub proof fn law_simulation_is_consistent(
    size: nat,
    fault_plan: FaultPlanView,
    calls: Seq<CallView>,
)
    requires
        size <= usize::MAX,
        are_distinct(ClusterModel::initial(size, fault_plan).snapshots_taken(calls)),
        ClusterModel::initial(size, fault_plan).stays_vouched(calls),
        ClusterModel::initial(size, fault_plan).called_all(calls) is Some,
    ensures
        ({
            let cluster = ClusterModel::initial(size, fault_plan).called_all(calls)->0;
            &&& forall|i: int|
                0 <= i < cluster.nodes.len() ==> (#[trigger] cluster.nodes[i]).is_consistent()
            &&& forall|k: int|
                0 <= k < cluster.under_way().len() ==> {
                    (#[trigger] cluster.under_way()[k]).rpc matches RpcView::AppendEntries(request)
                        ==> cluster.nodes[cluster.under_way()[k].to as int].spares_committed(
                        request,
                    )
                }
            &&& forall|a: int, b: int|
                0 <= a < cluster.nodes.len() && 0 <= b < cluster.nodes.len()
                    ==> #[trigger] share_history(cluster.nodes[a], cluster.nodes[b])
        }),
{
    let start = ClusterModel::initial(size, fault_plan);
    let cluster = start.called_all(calls)->0;
    let taken = start.snapshots_taken(calls);
    let blank = Ledger::blank(size, taken);
    ClusterModel::lemma_new_is_recorded(size, fault_plan, taken);
    start.lemma_recorded_is_followed(blank);
    start.lemma_calls_followed(calls, blank);
    let held = cluster.lemma_held(blank);
    assert forall|i: int| 0 <= i < cluster.nodes.len() implies (
    #[trigger] cluster.nodes[i]).is_consistent() by {
        cluster.lemma_recorded_is_consistent(held, i);
    }
    assert forall|k: int| 0 <= k < cluster.under_way().len() implies {
        (#[trigger] cluster.under_way()[k]).rpc matches RpcView::AppendEntries(request)
            ==> cluster.nodes[cluster.under_way()[k].to as int].spares_committed(request)
    } by {
        cluster.lemma_recorded_spares(held, k);
    }
    assert forall|a: int, b: int|
        0 <= a < cluster.nodes.len() && 0 <= b < cluster.nodes.len()
            implies #[trigger] share_history(cluster.nodes[a], cluster.nodes[b]) by {
        cluster.lemma_recorded_share(held, a, b);
    }
}

impl ClusterModel {
    /// A node has committed more than fits in one batch.
    pub open spec fn has_passed(self) -> bool {
        exists|i: int|
            0 <= i < self.nodes.len() && (#[trigger] self.nodes[i]).commit_index
                > MAX_APPEND_ENTRIES
    }

    /// Of a recorded cluster, only a batch that was cut short vouches for less than it
    /// lets its addressee commit.
    proof fn lemma_recorded_is_cut(self, held: Ledger, k: int)
        requires
            self.is_recorded(held),
            0 <= k < self.under_way().len(),
        ensures
            is_vouched_or_cut(self.nodes, self.under_way()[k]),
    {
        let message = self.under_way()[k];
        assert(held.message_holds(self.nodes, self.under_way()[k]));
    }
}

/// The request lets its addressee commit no further than it reaches, or is as long as a
/// batch can be and ends before what its sender has committed.
pub open spec fn is_vouched_or_cut(
    nodes: Seq<NodeModel<MemoryStateMachine>>,
    message: MessageView,
) -> bool {
    match message.rpc {
        RpcView::AppendEntries(request) => {
            ||| !nodes[message.to as int].commits_unvouched(request)
            ||| {
                &&& request.entries.len() == MAX_APPEND_ENTRIES
                &&& request.prev_log_index + MAX_APPEND_ENTRIES
                    < nodes[message.from as int].commit_index
            }
        },
        _ => true,
    }
}

/// Only a batch that was cut short can make a node stray: however a simulation runs, a
/// request that is under way lets its addressee commit no further than it reaches, unless
/// it is as long as a batch can be and its sender has committed more than it reaches. So
/// no node strays in the next step as long as none has committed more than fits in one
/// batch. What it asks is that no node strayed before and that the snapshots can be told
/// apart.
pub proof fn law_only_a_cut_batch_can_lead_astray(
    size: nat,
    fault_plan: FaultPlanView,
    calls: Seq<CallView>,
)
    requires
        size <= usize::MAX,
        are_distinct(ClusterModel::initial(size, fault_plan).snapshots_taken(calls)),
        ClusterModel::initial(size, fault_plan).stays_vouched(calls),
        ClusterModel::initial(size, fault_plan).called_all(calls) is Some,
    ensures
        ({
            let cluster = ClusterModel::initial(size, fault_plan).called_all(calls)->0;
            &&& forall|k: int|
                0 <= k < cluster.under_way().len() ==> is_vouched_or_cut(
                    cluster.nodes,
                    #[trigger] cluster.under_way()[k],
                )
            &&& !cluster.has_passed() ==> cluster.step_is_vouched()
        }),
{
    let start = ClusterModel::initial(size, fault_plan);
    let cluster = start.called_all(calls)->0;
    let taken = start.snapshots_taken(calls);
    let blank = Ledger::blank(size, taken);
    ClusterModel::lemma_new_is_recorded(size, fault_plan, taken);
    start.lemma_recorded_is_followed(blank);
    start.lemma_calls_followed(calls, blank);
    let held = cluster.lemma_held(blank);
    assert forall|k: int| 0 <= k < cluster.under_way().len() implies is_vouched_or_cut(
        cluster.nodes,
        #[trigger] cluster.under_way()[k],
    ) by {
        cluster.lemma_recorded_is_cut(held, k);
    }
    if !cluster.has_passed() {
        reveal(ClusterModel::step_is_vouched);
        cluster.lemma_faults_applied();
        cluster.lemma_faults_leave_the_rest();
        let quiet = cluster.faults_applied();
        quiet.lemma_drawn_well_formed();
        law_next_message_is_in_the_window(quiet);
        let (present, position) = quiet.next_ready();
        if let Some(at) = position {
            let message = cluster.under_way()[at];
            assert(present.messages[at].message == message);
            assert(held.message_holds(cluster.nodes, cluster.under_way()[at]));
            assert(is_vouched_or_cut(cluster.nodes, cluster.under_way()[at]));
            assert(cluster.nodes[message.from as int].commit_index <= MAX_APPEND_ENTRIES);
        }
    }
}

/// A term never has two leaders, not even one after the other: who leads in a term at
/// some point of a simulation and who leads in it at a later one are the same; as long as
/// no node strays and the snapshots can be told apart.
pub proof fn law_term_has_one_leader_ever(
    size: nat,
    fault_plan: FaultPlanView,
    earlier: Seq<CallView>,
    calls: Seq<CallView>,
    first: NodeId,
    second: NodeId,
)
    requires
        size <= usize::MAX,
        first < size,
        second < size,
        ClusterModel::initial(size, fault_plan).stays_vouched(earlier),
        ClusterModel::initial(size, fault_plan).called_all(earlier) matches Some(cluster) && {
            &&& cluster.stays_vouched(calls)
            &&& are_distinct(
                ClusterModel::initial(size, fault_plan).snapshots_taken(earlier)
                    + cluster.snapshots_taken(calls),
            )
            &&& cluster.nodes[first as int].role == Role::Leader
            &&& cluster.called_all(calls) matches Some(after) && {
                &&& after.nodes[second as int].role == Role::Leader
                &&& after.nodes[second as int].current_term
                    == cluster.nodes[first as int].current_term
            }
        },
    ensures
        first == second,
{
    let start = ClusterModel::initial(size, fault_plan);
    let cluster = start.called_all(earlier)->0;
    let after = cluster.called_all(calls)->0;
    let taken = start.snapshots_taken(earlier) + cluster.snapshots_taken(calls);
    let blank = Ledger::blank(size, taken);
    ClusterModel::lemma_new_is_recorded(size, fault_plan, taken);
    start.lemma_recorded_is_followed(blank);
    start.lemma_calls_followed(earlier, blank);
    let held = cluster.lemma_held(blank);
    cluster.lemma_recorded_is_followed(held);
    cluster.lemma_calls_followed(calls, held);
    let last = after.lemma_held(held);
    assert(held.node_holds(cluster.nodes, first as int));
    assert(last.node_holds(after.nodes, second as int));
    assert(held.notes_are_sound(cluster.nodes[first as int]));
    assert(last.notes_are_sound(after.nodes[second as int]));
    assert(held.has(cluster.nodes[first as int].current_term));
}

impl ClusterModel {
    /// Nothing is ahead of a recorded leader.
    proof fn lemma_recorded_leader_is_ahead(self, held: Ledger, id: NodeId)
        requires
            self.well_formed(),
            self.is_recorded(held),
            self.has_node(id),
            self.nodes[id as int].role == Role::Leader,
        ensures
            self.is_led_by(id),
    {
        let leader = self.nodes[id as int];
        let term = leader.current_term;
        let log = held.log(term);
        let start = held.terms[term].start;
        assert(held.node_holds(self.nodes, id as int));
        assert(held.notes_are_sound(leader));
        assert(held.term_holds(self.nodes, term));
        held.lemma_shape(self.nodes, self.under_way());
        lemma_full_terms(leader, log);
        assert(keeps_track(leader)) by {
            assert forall|peer: NodeId| #[trigger] leader.matched_by(peer)
                <= leader.last_index() by {
                if leader.match_index.contains_key(peer) {
                    assert(leader.match_index[peer] <= larger(
                        held.acked(term, peer),
                        leader.log_base_index as int,
                    ));
                    assert(0 <= held.acked(term, peer));
                }
            }
            assert forall|i: int|
                leader.term_start_index <= i && (#[trigger] leader.term_at(i)) is Some implies
                leader.term_at(i) == Some(term) by {
                assert(leader.log_base_index <= i);
                assert(leader.term_at(i) == Some(log[i - 1].term));
            }
        }
        assert forall|i: int| 0 <= i < self.nodes.len() && i != id implies trails(
            #[trigger] self.nodes[i],
            term,
            leader.term_start_index as int,
        ) by {
            let node = self.nodes[i];
            let full = held.fulls[node.id];
            assert(held.node_holds(self.nodes, i));
            lemma_full_terms(node, full);
            if node.current_term <= term {
                assert forall|a: int, b: int|
                    start + 1 <= a <= b && (#[trigger] node.term_at(a)) is Some
                        && #[trigger] node.term_at(b) == Some(term) implies node.term_at(a) == Some(
                    term,
                ) by {
                    assert(node.log_base_index <= a && b <= full.len());
                    assert(node.term_at(b) == Some(full[b - 1].term));
                    assert(node.term_at(a) == Some(full[a - 1].term));
                    assert(held.agrees(full, b));
                    assert(full.take(b)[a - 1] == log.take(b)[a - 1]);
                }
                assert forall|a: int| (#[trigger] node.entry_at(a)) is Some implies node.entry_at(
                    a,
                )->0.term <= node.current_term by {
                    assert(node.entry_at(a) == Some(full[a - 1]));
                }
            }
        }
        let queue = self.under_way();
        assert forall|k: int| 0 <= k < queue.len() implies is_behind(#[trigger] queue[k], leader) by {
            assert(held.message_holds(self.nodes, queue[k]));
            if let RpcView::AppendEntries(request) = queue[k].rpc {
                let prev = request.prev_log_index as int;
                let source = held.log(request.term);
                assert(held.term_holds(self.nodes, request.term));
                assert forall|i: int| 0 <= i < request.entries.len() implies (
                #[trigger] request.entries[i]).term <= request.term && (request.term == term
                    && prev + 1 + i >= start + 1 ==> request.entries[i].term == term) by {
                    assert(request.entries[i] == source[prev + i]);
                }
            }
        }
    }
}

/// Nothing is ever ahead of a leader: whatever calls are made on a new cluster, whoever
/// leads then holds the lead, and by [`law_call_keeps_the_lead`] holds it as long as it
/// leads; as long as no node strays before and the snapshots can be told apart.
///
/// [`law_call_keeps_the_lead`]: crate::cluster::leads::law_call_keeps_the_lead
pub proof fn law_every_leader_holds_the_lead(
    size: nat,
    fault_plan: FaultPlanView,
    calls: Seq<CallView>,
    id: NodeId,
)
    requires
        size <= usize::MAX,
        are_distinct(ClusterModel::initial(size, fault_plan).snapshots_taken(calls)),
        ClusterModel::initial(size, fault_plan).stays_vouched(calls),
        ClusterModel::initial(size, fault_plan).called_all(calls) matches Some(cluster) && {
            &&& cluster.has_node(id)
            &&& cluster.nodes[id as int].role == Role::Leader
        },
    ensures
        ({
            let cluster = ClusterModel::initial(size, fault_plan).called_all(calls)->0;
            cluster.holds_lead(id, cluster.nodes[id as int].current_term)
        }),
{
    let start = ClusterModel::initial(size, fault_plan);
    let cluster = start.called_all(calls)->0;
    let taken = start.snapshots_taken(calls);
    let blank = Ledger::blank(size, taken);
    ClusterModel::lemma_new_is_recorded(size, fault_plan, taken);
    start.lemma_recorded_is_followed(blank);
    start.lemma_calls_followed(calls, blank);
    law_new_cluster_has_single_votes(size, fault_plan);
    lemma_calls_keep_votes_single(start, calls);
    let held = cluster.lemma_held(blank);
    cluster.lemma_recorded_leader_is_ahead(held, id);
}

/// A write that is answered in a simulation, by a leader that still leads then, was stored
/// by a majority of the nodes, whatever calls were made before; as long as no node strayed
/// before it and the snapshots can be told apart.
pub proof fn law_simulated_write_was_stored_by_a_majority(
    size: nat,
    fault_plan: FaultPlanView,
    calls: Seq<CallView>,
    client_id: u64,
    leader: NodeId,
    request: ClientRequestView,
    fuel: nat,
)
    requires
        size <= usize::MAX,
        request is Put || request is Delete,
        are_distinct(ClusterModel::initial(size, fault_plan).snapshots_taken(calls)),
        ClusterModel::initial(size, fault_plan).stays_vouched(calls),
        ClusterModel::initial(size, fault_plan).called_all(calls) matches Some(cluster) && {
            &&& cluster.propose_as(client_id, leader, request, fuel) matches Some((after, reply))
                && reply.success && after.nodes[leader as int].role == Role::Leader
        },
    ensures
        ({
            let cluster = ClusterModel::initial(size, fault_plan).called_all(calls)->0;
            cluster.numbered().begin(leader, request) matches Some((begun, Ok(pending))) && {
                &&& pending is Write
                &&& 2 * begun.storing_within(
                    fuel,
                    pending->Write_0.index as int,
                    pending->Write_0.term,
                ).len() > size
            }
        }),
{
    let start = ClusterModel::initial(size, fault_plan);
    let cluster = start.called_all(calls)->0;
    let taken = start.snapshots_taken(calls);
    let blank = Ledger::blank(size, taken);
    ClusterModel::lemma_new_is_recorded(size, fault_plan, taken);
    start.lemma_recorded_is_followed(blank);
    start.lemma_calls_followed(calls, blank);
    law_new_cluster_has_single_votes(size, fault_plan);
    lemma_calls_keep_votes_single(start, calls);
    let held = cluster.lemma_held(blank);
    assert(cluster.nodes[leader as int].role == Role::Leader);
    cluster.lemma_recorded_leader_is_ahead(held, leader);
    law_recorded_write_was_stored_by_a_majority(cluster, client_id, leader, request, fuel);
}

} // verus!
