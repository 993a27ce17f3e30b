//! A lead lasts as long as its leader leads.
use crate::cluster::calls::law_call_keeps_the_shape;
use crate::cluster::calls::law_call_keeps_votes_single;
use crate::cluster::calls::CallView;
use crate::cluster::elections::law_one_leader_per_term;
use crate::cluster::elections::law_step_keeps_votes_single;
use crate::cluster::majorities::are_behind;
use crate::cluster::majorities::is_behind;
use crate::cluster::majorities::law_step_keeps_the_lead;
use crate::cluster::majorities::lemma_others_messages;
use crate::cluster::majorities::lemma_own_messages;
use crate::cluster::model::ClusterModel;
use crate::cluster::model::PendingRequestView;
use crate::cluster::tenure::law_call_keeps_every_pledge;
use crate::cluster::tenure::law_step_keeps_every_pledge;
use crate::cluster::tenure::Pledge;
use crate::cluster::terms::leads_in;
use crate::cluster::CLIENT_TIMEOUT_MS;
use crate::node::laws::batches::law_clients_keep_trailing;
use crate::node::laws::batches::law_leader_sends_its_log;
use crate::node::laws::batches::lemma_same_log_trails;
use crate::node::laws::batches::trails;
use crate::node::laws::shape::law_clients_keep_the_shape;
use crate::node::laws::tenure::is_out_of_office;
use crate::node::laws::tenure::law_begun_write_will_be_found;
use crate::node::laws::tracking::keeps_track;
use crate::node::laws::tracking::law_compacting_leader_keeps_track;
use crate::node::laws::tracking::law_leader_keeps_track_by_itself;
use crate::node::laws::transfers::law_no_node_sends_a_bare_snapshot;
use crate::node::model::NodeModel;
use crate::state_machine::MemoryStateMachine;
use crate::types::ClientRequestView;
use crate::types::LogIndex;
use crate::types::MessageView;
use crate::types::NodeId;
use crate::types::Role;
use crate::types::Term;
use vstd::prelude::*;

verus! {

/// A pledge that binds nobody, where only the node matters.
spec fn no_pledge(id: NodeId) -> Pledge {
    Pledge { node: id, term: 0, index: 0, key: Seq::empty(), value: None }
}

impl ClusterModel {
    /// The node leads in `term` with nothing in the cluster ahead of it, or it no longer
    /// leads in it.
    pub open spec fn holds_lead(self, id: NodeId, term: Term) -> bool {
        &&& self.well_formed()
        &&& self.has_no_bare_snapshot()
        &&& self.votes_are_single()
        &&& self.has_node(id)
        &&& {
            ||| is_out_of_office(self.nodes[id as int], term)
            ||| self.is_led_by(id) && self.nodes[id as int].current_term == term
        }
    }

    proof fn lemma_step_holds(self, id: NodeId, term: Term)
        requires
            self.holds_lead(id, term),
        ensures
            self.step() matches Some(next) ==> next.holds_lead(id, term),
    {
        let leader = self.nodes[id as int];
        self.lemma_step_frame();
        law_step_keeps_votes_single(self);
        law_step_keeps_every_pledge(self, no_pledge(id));
        if !is_out_of_office(leader, term) {
            let index = leader.last_index() + 1;
            let all = Set::<NodeId>::full();
            assert(self.is_at_home(id as int));
            assert(self.credits_only(id, index, all)) by {
                assert(leader.commit_index < index);
                assert forall|peer: NodeId| #[trigger]
                    leader.matched_by(peer) >= index implies all.contains(peer) by {}
            }
            law_step_keeps_the_lead(self, id, index, all);
        }
    }

    /// One node is replaced and sends something; nothing of it is ahead of the leader.
    proof fn lemma_replaced_holds(
        self,
        at: NodeId,
        node: NodeModel<MemoryStateMachine>,
        sent: Seq<MessageView>,
        after: Self,
        id: NodeId,
    )
        requires
            self.is_led_by(id),
            self.has_node(at),
            after.nodes == self.nodes.update(at as int, node),
            after.messages_come_from(self, sent),
            at != id ==> trails(
                node,
                self.nodes[id as int].current_term,
                self.nodes[id as int].term_start_index as int,
            ) && are_behind(sent, self.nodes[id as int]),
            at == id ==> {
                let leader = self.nodes[id as int];
                &&& node.role == Role::Leader
                &&& node.keeps_pace()
                &&& keeps_track(node)
                &&& node.id == leader.id
                &&& node.current_term == leader.current_term
                &&& node.term_start_index == leader.term_start_index
                &&& node.last_index() >= leader.last_index()
                &&& node.log_base_index >= leader.log_base_index
                &&& are_behind(sent, node)
            },
        ensures
            after.is_led_by(id),
    {
        let leader = self.nodes[id as int];
        let later = after.nodes[id as int];
        let queue = after.under_way();
        assert forall|k: int| 0 <= k < queue.len() implies is_behind(#[trigger] queue[k], later) by {
            let message = after.messages[k].message;
            assert(queue[k] == message);
            if sent.contains(message) {
                let i = choose|i: int| 0 <= i < sent.len() && sent[i] == message;
                assert(is_behind(sent[i], later));
            } else {
                let i = choose|i: int|
                    0 <= i < self.messages.len() && (#[trigger] self.messages[i]).message
                        == after.messages[k].message;
                assert(self.under_way()[i] == message);
                assert(is_behind(self.under_way()[i], leader));
            }
        }
        assert forall|i: int| 0 <= i < after.nodes.len() && i != id implies trails(
            #[trigger] after.nodes[i],
            later.current_term,
            later.term_start_index as int,
        ) by {
            if i != at {
                assert(after.nodes[i] == self.nodes[i]);
            }
        }
    }

    proof fn lemma_placed_holds(
        self,
        at: NodeId,
        node: NodeModel<MemoryStateMachine>,
        sent: Seq<MessageView>,
        id: NodeId,
    )
        requires
            self.is_led_by(id),
            self.has_node(at),
            at != id ==> trails(
                node,
                self.nodes[id as int].current_term,
                self.nodes[id as int].term_start_index as int,
            ) && are_behind(sent, self.nodes[id as int]),
            at == id ==> {
                let leader = self.nodes[id as int];
                &&& node.role == Role::Leader
                &&& node.keeps_pace()
                &&& keeps_track(node)
                &&& node.id == leader.id
                &&& node.current_term == leader.current_term
                &&& node.term_start_index == leader.term_start_index
                &&& node.last_index() >= leader.last_index()
                &&& node.log_base_index >= leader.log_base_index
                &&& are_behind(sent, node)
            },
        ensures
            self.with_node(at, node).is_led_by(id),
            self.with_node(at, node).enqueue(sent) matches Some(after) ==> after.is_led_by(id),
    {
        let placed = self.with_node(at, node);
        placed.lemma_same_queue(self);
        assert(are_behind(Seq::empty(), self.nodes[id as int]));
        assert(are_behind(Seq::empty(), node));
        self.lemma_replaced_holds(at, node, Seq::empty(), placed, id);
        if let Some(after) = placed.enqueue(sent) {
            placed.lemma_enqueued(sent);
            placed.lemma_enqueue_leaves_nodes(sent);
            after.lemma_comes_from_more(placed, self, sent);
            self.lemma_replaced_holds(at, node, sent, after, id);
        }
    }

    proof fn lemma_begun_holds(
        self,
        at: NodeId,
        request: ClientRequestView,
        id: NodeId,
        term: Term,
    )
        requires
            self.holds_lead(id, term),
            self.has_node(at),
        ensures
            self.begin(at, request) matches Some((after, _)) ==> after.holds_lead(id, term),
    {
        let leader = self.nodes[id as int];
        let node = self.nodes[at as int];
        assert(self.is_at_home(at as int) && self.is_at_home(id as int));
        self.lemma_begin_frame(at, request);
        self.lemma_begun_votes(at, request);
        law_no_node_sends_a_bare_snapshot(node, at, request, 0);
        law_leader_sends_its_log(node, request, 0);
        law_clients_keep_the_shape(node, request);
        let (reading, started) = node.start_read();
        let (writing, begun) = node.start_write(request);
        let heard = match started {
            Ok((_, messages)) => messages,
            Err(_) => Seq::empty(),
        };
        let sent = match begun {
            Ok((_, messages)) => messages,
            Err(_) => Seq::empty(),
        };
        self.lemma_placed_tenure(at, reading, heard);
        self.lemma_placed_tenure(at, writing, sent);
        if !is_out_of_office(leader, term) {
            let start = leader.term_start_index as int;
            if at == id {
                law_begun_write_will_be_found(node, request, 0, Seq::empty(), None);
                node.lemma_leading_finds(reading, 0, Seq::empty(), None);
                law_leader_keeps_track_by_itself(node, request, 0, 0);
                lemma_own_messages(reading, heard, 0, Set::empty());
                self.lemma_placed_holds(at, reading, heard, id);
                if node.last_index() + 1 < usize::MAX {
                    lemma_own_messages(writing, sent, 0, Set::empty());
                    self.lemma_placed_holds(at, writing, sent, id);
                }
            } else {
                assert(trails(node, term, start));
                if leads_in(node, term) {
                    law_one_leader_per_term(self, id, at);
                }
                law_clients_keep_trailing(node, request, 0, term, start);
                lemma_others_messages(reading, leader, heard, 0, Set::empty());
                self.lemma_placed_holds(at, reading, heard, id);
                if node.last_index() + 1 < usize::MAX {
                    lemma_others_messages(writing, leader, sent, 0, Set::empty());
                    self.lemma_placed_holds(at, writing, sent, id);
                }
            }
        }
    }

    proof fn lemma_settled_holds(
        self,
        at: NodeId,
        pending: PendingRequestView,
        deadline: u64,
        fuel: nat,
        id: NodeId,
        term: Term,
    )
        requires
            self.holds_lead(id, term),
        ensures
            self.settle(at, pending, deadline, fuel) matches Some((after, _)) ==> after.holds_lead(
                id,
                term,
            ),
        decreases fuel,
    {
        if self.now_ms <= deadline && self.outcome(at, pending) is None && fuel > 0 {
            self.lemma_step_holds(id, term);
            if let Some(next) = self.step() {
                next.lemma_settled_holds(at, pending, deadline, (fuel - 1) as nat, id, term);
            }
        }
    }
}

impl ClusterModel {
    /// The part of a lead that depends on the nodes and the queue alone.
    spec fn keeps_lead(self, id: NodeId, term: Term) -> bool {
        ||| is_out_of_office(self.nodes[id as int], term)
        ||| self.is_led_by(id) && self.nodes[id as int].current_term == term
    }

    proof fn lemma_same_lead(self, other: Self, id: NodeId, term: Term)
        requires
            self.keeps_lead(id, term),
            other.nodes == self.nodes,
            other.messages == self.messages,
        ensures
            other.keeps_lead(id, term),
    {
        assert(other.under_way() =~= self.under_way());
    }

    proof fn lemma_released_lead(
        self,
        at: NodeId,
        pending: PendingRequestView,
        id: NodeId,
        term: Term,
    )
        requires
            self.holds_lead(id, term),
            self.has_node(at),
        ensures
            self.released(at, pending).keeps_lead(id, term),
    {
        if let PendingRequestView::Read(read, _) = pending {
            let node = self.nodes[at as int];
            let after = NodeModel { pending_reads: node.pending_reads.remove(read.id), ..node };
            let leader = self.nodes[id as int];
            if !is_out_of_office(leader, term) {
                assert(are_behind(Seq::empty(), leader));
                assert(are_behind(Seq::empty(), after));
                if at == id {
                    assert forall|peer: NodeId| #[trigger]
                        after.matched_by(peer) == node.matched_by(peer) by {}
                    assert forall|peer: NodeId| #[trigger]
                        after.next_for(peer) == node.next_for(peer) by {}
                    assert forall|i: int| #[trigger] after.term_at(i) == node.term_at(i) by {}
                    assert(keeps_track(after));
                } else {
                    let start = leader.term_start_index as int;
                    lemma_same_log_trails(node, after, term, start);
                }
                self.lemma_placed_holds(at, after, Seq::empty(), id);
            }
        }
    }

    proof fn lemma_served_lead(
        self,
        at: NodeId,
        request: ClientRequestView,
        fuel: nat,
        id: NodeId,
        term: Term,
    )
        requires
            self.holds_lead(id, term),
        ensures
            self.serve(at, request, fuel) matches Some((after, _)) ==> after.keeps_lead(id, term),
    {
        if self.has_node(at) {
            self.lemma_begun_holds(at, request, id, term);
            self.lemma_begin_frame(at, request);
            if let Some((begun, Ok(pending))) = self.begin(at, request) {
                let deadline = (begun.now_ms + CLIENT_TIMEOUT_MS) as u64;
                begun.lemma_settled_holds(at, pending, deadline, fuel, id, term);
                begun.lemma_settle_frame(at, pending, deadline, fuel);
                if let Some((settled, _)) = begun.settle(at, pending, deadline, fuel) {
                    settled.lemma_released_lead(at, pending, id, term);
                }
            }
        }
    }

    proof fn lemma_proposed_lead(
        self,
        client_id: u64,
        at: NodeId,
        request: ClientRequestView,
        fuel: nat,
        id: NodeId,
        term: Term,
    )
        requires
            self.holds_lead(id, term),
        ensures
            self.propose_as(client_id, at, request, fuel) matches Some((after, _))
                ==> after.keeps_lead(id, term),
    {
        if let Some((after, _)) = self.propose_as(client_id, at, request, fuel) {
            let numbered = ClusterModel {
                next_operation_id: (self.next_operation_id + 1) as u64,
                ..self
            };
            self.lemma_same_nodes_well_formed(numbered);
            self.lemma_same_votes(numbered);
            self.lemma_same_lead(numbered, id, term);
            numbered.lemma_served_lead(at, request, fuel, id, term);
            let (served, _) = numbered.serve(at, request, fuel)->0;
            served.lemma_same_lead(after, id, term);
        }
    }

    proof fn lemma_steps_lead(self, count: nat, id: NodeId, term: Term)
        requires
            self.holds_lead(id, term),
        ensures
            self.steps(count) matches Some(after) ==> after.holds_lead(id, term),
        decreases count,
    {
        if count > 0 {
            self.lemma_step_holds(id, term);
            if let Some(next) = self.step() {
                next.lemma_steps_lead((count - 1) as nat, id, term);
            }
        }
    }

    proof fn lemma_run_lead(self, deadline: u64, fuel: nat, id: NodeId, term: Term)
        requires
            self.holds_lead(id, term),
        ensures
            self.run_past(deadline, fuel) matches Some(after) ==> after.holds_lead(id, term),
        decreases fuel,
    {
        if self.now_ms <= deadline && fuel > 0 {
            self.lemma_step_holds(id, term);
            if let Some(next) = self.step() {
                next.lemma_run_lead(deadline, (fuel - 1) as nat, id, term);
            }
        }
    }

    proof fn lemma_compacted_lead(self, at: NodeId, index: LogIndex, id: NodeId, term: Term)
        requires
            self.holds_lead(id, term),
            self.has_node(at),
        ensures
            self.with_node(at, self.nodes[at as int].compact_to(index).0).keeps_lead(id, term),
    {
        let node = self.nodes[at as int];
        let leader = self.nodes[id as int];
        let after = node.compact_to(index).0;
        assert(self.is_at_home(at as int));
        if !is_out_of_office(leader, term) {
            assert(are_behind(Seq::empty(), leader));
            assert(are_behind(Seq::empty(), after));
            if at == id {
                law_compacting_leader_keeps_track(node, index);
            } else {
                let start = leader.term_start_index as int;
                law_clients_keep_trailing(
                    node,
                    ClientRequestView::LocalGet { key: Seq::empty() },
                    index,
                    term,
                    start,
                );
            }
            self.lemma_placed_holds(at, after, Seq::empty(), id);
        }
    }
}

/// Whatever call is made, nothing comes to be ahead of a leader as long as it leads in its
/// term.
pub proof fn law_call_keeps_the_lead(
    cluster: ClusterModel,
    call: CallView,
    id: NodeId,
    term: Term,
)
    requires
        cluster.holds_lead(id, term),
    ensures
        cluster.called(call) matches Some((after, _)) ==> after.holds_lead(id, term),
{
    law_call_keeps_the_shape(cluster, call);
    law_call_keeps_votes_single(cluster, call);
    law_call_keeps_every_pledge(cluster, call, no_pledge(id));
    if let Some((after, _)) = cluster.called(call) {
        match call {
            CallView::RunFor { duration_ms } => {
                let deadline = (cluster.now_ms + duration_ms) as u64;
                let fuel = choose|fuel: nat|
                    (#[trigger] cluster.run_past(deadline, fuel)) is Some;
                cluster.lemma_run_lead(deadline, fuel, id, term);
            },
            CallView::RunSteps { count } => {
                cluster.lemma_steps_lead(count, id, term);
            },
            CallView::Propose { client_id, node, request } => {
                let fuel = choose|fuel: nat|
                    (#[trigger] cluster.propose_as(client_id, node, request, fuel)) is Some;
                cluster.lemma_proposed_lead(client_id, node, request, fuel, id, term);
            },
            CallView::Compact { node, index } => {
                if cluster.has_node(node) {
                    cluster.lemma_compacted_lead(node, index, id, term);
                }
            },
            _ => {
                cluster.lemma_same_lead(after, id, term);
            },
        }
    }
}

} // verus!
