//! What a read gives back of a write.
//!
//! A leader that has committed a write owes it to every later read of the key, as long
//! as it leads in the term of the write and no other write of the key reaches it. The
//! debt is written down as a [`Pledge`].
use crate::cluster::calls::law_call_keeps_the_shape;
use crate::cluster::calls::CallView;
use crate::cluster::laws::law_next_message_is_in_the_window;
use crate::cluster::model::ClusterModel;
use crate::cluster::model::PendingRequestView;
use crate::cluster::plan::FaultPlanView;
use crate::cluster::CLIENT_TIMEOUT_MS;
use crate::node::laws::progress::law_handling_moves_forward;
use crate::node::laws::progress::law_ticking_moves_forward;
use crate::node::laws::progress::leads_on;
use crate::node::laws::tenure::is_out_of_office;
use crate::node::laws::tenure::law_begun_write_will_be_found;
use crate::node::laws::tenure::law_compaction_changes_no_read;
use crate::node::laws::tenure::law_leader_keeps_its_log;
use crate::node::laws::tenure::law_no_second_tenure_in_a_term;
use crate::node::laws::tenure::law_ticking_leader_keeps_its_log;
use crate::node::laws::tenure::lemma_role_after;
use crate::node::laws::tenure::touches;
use crate::node::laws::tenure::value_left;
use crate::node::laws::transfers::holds_no_bare_snapshot;
use crate::node::laws::transfers::law_handling_sends_no_bare_snapshot;
use crate::node::laws::transfers::law_no_node_sends_a_bare_snapshot;
use crate::node::model::NodeModel;
use crate::state_machine::MemoryStateMachine;
use crate::types::ClientRequestView;
use crate::types::LogIndex;
use crate::types::MessageView;
use crate::types::NodeId;
use crate::types::Role;
use crate::types::RpcView;
use crate::types::Term;
use crate::types::TimeoutNow;
use vstd::prelude::*;

verus! {

/// As long as `node` leads in `term`, a read of `key` finds `value` there from the
/// commit of `index` on.
pub struct Pledge {
    pub node: NodeId,
    pub term: Term,
    pub index: int,
    pub key: Seq<char>,
    pub value: Option<Seq<char>>,
}

impl Pledge {
    /// The node, if it still leads in the term, will find the value once `index` is
    /// committed.
    pub open spec fn is_kept_by(self, node: NodeModel<MemoryStateMachine>) -> bool {
        ||| is_out_of_office(node, self.term)
        ||| {
            &&& node.role == Role::Leader
            &&& node.current_term == self.term
            &&& node.keeps_pace()
            &&& node.will_find(self.index, self.key, self.value)
        }
    }

    /// The node, if it still leads in the term, has committed `index` and finds the
    /// value.
    pub open spec fn is_paid_by(self, node: NodeModel<MemoryStateMachine>) -> bool {
        &&& self.is_kept_by(node)
        &&& is_out_of_office(node, self.term) || self.index <= node.commit_index
    }

    proof fn lemma_handled(
        self,
        node: NodeModel<MemoryStateMachine>,
        from: NodeId,
        rpc: RpcView,
        now_ms: u64,
    )
        requires
            node.well_formed(),
            node.can_handle(from, rpc, now_ms),
            rpc !is InstallSnapshot,
            self.is_kept_by(node),
        ensures
            self.is_kept_by(node.handle(from, rpc, now_ms).0),
            self.is_paid_by(node) ==> self.is_paid_by(node.handle(from, rpc, now_ms).0),
    {
        let after = node.handle(from, rpc, now_ms).0;
        law_no_second_tenure_in_a_term(node, from, rpc, now_ms, self.term);
        if !is_out_of_office(after, self.term) {
            law_leader_keeps_its_log(node, from, rpc, now_ms);
            node.lemma_leading_finds(after, self.index, self.key, self.value);
        }
    }

    proof fn lemma_ticked(self, node: NodeModel<MemoryStateMachine>, now_ms: u64)
        requires
            node.well_formed(),
            node.can_tick(now_ms),
            self.is_kept_by(node),
        ensures
            self.is_kept_by(node.tick(now_ms).0),
            self.is_paid_by(node) ==> self.is_paid_by(node.tick(now_ms).0),
    {
        let after = node.tick(now_ms).0;
        law_no_second_tenure_in_a_term(
            node,
            0,
            RpcView::TimeoutNow(TimeoutNow { term: 0, leader_id: 0 }),
            now_ms,
            self.term,
        );
        if !is_out_of_office(after, self.term) {
            law_ticking_leader_keeps_its_log(node, now_ms);
            node.lemma_leading_finds(after, self.index, self.key, self.value);
        }
    }
}

proof fn lemma_leads_on_itself(node: NodeModel<MemoryStateMachine>)
    ensures
        leads_on(node, node),
{
    assert(node.log.is_prefix_of(node.log));
}

proof fn lemma_leads_on_further(
    first: NodeModel<MemoryStateMachine>,
    second: NodeModel<MemoryStateMachine>,
    third: NodeModel<MemoryStateMachine>,
)
    requires
        leads_on(first, second),
        leads_on(second, third),
    ensures
        leads_on(first, third),
{
    assert(third.log.take(first.log.len() as int) =~= third.log.take(
        second.log.len() as int,
    ).take(first.log.len() as int));
}

impl ClusterModel {
    /// No snapshot is under way without the term of a leader.
    pub open spec fn has_no_bare_snapshot(self) -> bool {
        forall|k: int|
            0 <= k < self.messages.len() ==> (#[trigger] self.messages[k]).message.rpc
                !is InstallSnapshot
    }

    /// The pledge is kept here, and no bare snapshot is under way.
    pub open spec fn keeps(self, pledge: Pledge) -> bool {
        &&& self.has_no_bare_snapshot()
        &&& self.has_node(pledge.node)
        &&& pledge.is_kept_by(self.nodes[pledge.node as int])
    }

    /// If the node leads both here and in `other`, then in one term and with the log
    /// that it had, to which it may have added.
    pub open spec fn leads_on_in(self, other: Self, id: NodeId) -> bool {
        let before = self.nodes[id as int];
        let after = other.nodes[id as int];
        before.role == Role::Leader && after.role == Role::Leader ==> leads_on(before, after)
    }

    /// The node, if it leads here, leads on in `other` or is out of office there; and
    /// once out of office it stays so.
    pub open spec fn ends_tenure_once(self, other: Self, id: NodeId) -> bool {
        let before = self.nodes[id as int];
        let after = other.nodes[id as int];
        &&& before.role == Role::Leader && after.role != Role::Leader ==> is_out_of_office(
            after,
            before.current_term,
        )
        &&& forall|term: Term| #[trigger]
            is_out_of_office(before, term) ==> is_out_of_office(after, term)
    }

    /// The pledge is paid here, and no bare snapshot is under way.
    pub open spec fn pays(self, pledge: Pledge) -> bool {
        &&& self.keeps(pledge)
        &&& pledge.is_paid_by(self.nodes[pledge.node as int])
    }

    proof fn lemma_sent_no_bare_snapshot(self, before: Self, sent: Seq<MessageView>)
        requires
            before.has_no_bare_snapshot(),
            holds_no_bare_snapshot(sent),
            self.messages_come_from(before, sent),
        ensures
            self.has_no_bare_snapshot(),
    {
        assert forall|k: int| 0 <= k < self.messages.len() implies (
        #[trigger] self.messages[k]).message.rpc !is InstallSnapshot by {
            let message = self.messages[k].message;
            if sent.contains(message) {
                let i = choose|i: int| 0 <= i < sent.len() && sent[i] == message;
                assert(sent[i].rpc !is InstallSnapshot);
            } else {
                let i = choose|i: int|
                    0 <= i < before.messages.len() && (#[trigger] before.messages[i]).message
                        == self.messages[k].message;
                assert(before.messages[i].message.rpc !is InstallSnapshot);
            }
        }
    }

    proof fn lemma_enqueued_no_bare_snapshot(self, sent: Seq<MessageView>)
        requires
            self.has_no_bare_snapshot(),
            holds_no_bare_snapshot(sent),
        ensures
            self.enqueue(sent) matches Some(after) ==> after.has_no_bare_snapshot() && after.nodes
                == self.nodes,
    {
        if let Some(after) = self.enqueue(sent) {
            self.lemma_enqueued(sent);
            self.lemma_enqueue_leaves_nodes(sent);
            after.lemma_sent_no_bare_snapshot(self, sent);
        }
    }

    proof fn lemma_delivered_tenure(self, position: int, pledge: Pledge)
        requires
            self.well_formed(),
            self.has_no_bare_snapshot(),
            0 <= position < self.messages.len(),
        ensures
            self.deliver(position) matches Some(after) ==> {
                &&& after.has_no_bare_snapshot()
                &&& self.has_node(pledge.node) ==> self.leads_on_in(after, pledge.node)
                    && self.ends_tenure_once(after, pledge.node)
                &&& self.keeps(pledge) ==> after.keeps(pledge)
                &&& self.pays(pledge) ==> after.pays(pledge)
            },
    {
        let message = self.messages[position].message;
        let to = message.to;
        let removed = ClusterModel { messages: self.messages.remove(position), ..self };
        let node = self.nodes[to as int];
        assert(self.is_addressed(message));
        assert(self.is_at_home(to as int));
        assert(message.rpc !is InstallSnapshot);
        removed.lemma_shorter_queue(self, position);
        removed.lemma_sent_no_bare_snapshot(self, Seq::empty());
        if !self.is_connected(message.from, to) {
            assert(self.deliver(position) == Some(removed)) by {
                reveal(ClusterModel::deliver);
            }
            lemma_leads_on_itself(self.nodes[pledge.node as int]);
        } else if node.can_handle(message.from, message.rpc, self.now_ms) {
            let (next, replies) = node.handle(message.from, message.rpc, self.now_ms);
            let placed = removed.with_node(to, next);
            assert(self.deliver(position) == placed.enqueue(replies)) by {
                reveal(ClusterModel::deliver);
            }
            law_handling_sends_no_bare_snapshot(node, message.from, message.rpc, self.now_ms);
            placed.lemma_enqueued_no_bare_snapshot(replies);
            if pledge.node == to {
                lemma_leads_on_itself(node);
                law_handling_moves_forward(node, message.from, message.rpc, self.now_ms);
                lemma_role_after(node, message.from, message.rpc, self.now_ms);
            } else if self.has_node(pledge.node) {
                lemma_leads_on_itself(self.nodes[pledge.node as int]);
            }
            if self.keeps(pledge) && pledge.node == to {
                pledge.lemma_handled(node, message.from, message.rpc, self.now_ms);
            }
        } else {
            assert(self.deliver(position) is None) by {
                reveal(ClusterModel::deliver);
            }
        }
    }

    proof fn lemma_ticked_tenure(self, id: NodeId, pledge: Pledge)
        requires
            self.well_formed(),
            self.has_no_bare_snapshot(),
            self.has_node(id),
        ensures
            self.ticked(id) matches Some(after) ==> {
                &&& after.has_no_bare_snapshot()
                &&& self.has_node(pledge.node) && pledge.node != id ==> after.nodes[pledge.node as int]
                    == self.nodes[pledge.node as int]
                &&& self.has_node(pledge.node) ==> self.leads_on_in(after, pledge.node)
                    && self.ends_tenure_once(after, pledge.node)
                &&& self.keeps(pledge) ==> after.keeps(pledge)
                &&& self.pays(pledge) ==> after.pays(pledge)
            },
    {
        let node = self.nodes[id as int];
        assert(self.is_at_home(id as int));
        if node.can_tick(self.now_ms) {
            let (next, messages) = node.tick(self.now_ms);
            let placed = self.with_node(id, next);
            assert(self.ticked(id) == placed.enqueue(messages)) by {
                reveal(ClusterModel::ticked);
            }
            law_no_node_sends_a_bare_snapshot(
                node,
                id,
                ClientRequestView::LocalGet { key: Seq::empty() },
                self.now_ms,
            );
            placed.lemma_enqueued_no_bare_snapshot(messages);
            lemma_leads_on_itself(self.nodes[pledge.node as int]);
            law_ticking_moves_forward(node, self.now_ms);
            if self.keeps(pledge) && pledge.node == id {
                pledge.lemma_ticked(node, self.now_ms);
            }
        } else {
            assert(self.ticked(id) is None) by {
                reveal(ClusterModel::ticked);
            }
        }
    }

    pub proof fn lemma_all_ticked_tenure(self, count: nat, pledge: Pledge)
        requires
            self.well_formed(),
            self.has_no_bare_snapshot(),
            count <= self.nodes.len(),
        ensures
            self.ticked_first(count) matches Some(after) ==> {
                &&& after.has_no_bare_snapshot()
                &&& self.has_node(pledge.node) ==> self.leads_on_in(after, pledge.node)
                    && self.ends_tenure_once(after, pledge.node)
                &&& self.keeps(pledge) ==> after.keeps(pledge)
                &&& self.pays(pledge) ==> after.pays(pledge)
            },
        decreases count,
    {
        lemma_leads_on_itself(self.nodes[pledge.node as int]);
        if count > 0 {
            self.lemma_all_ticked_tenure((count - 1) as nat, pledge);
            self.lemma_ticked_first_frame((count - 1) as nat);
            self.lemma_size();
            if let Some(after) = self.ticked_first((count - 1) as nat) {
                after.lemma_ticked_tenure((count - 1) as NodeId, pledge);
            }
        }
    }
}

/// No step puts a bare snapshot on its way, and every step keeps every pledge.
pub proof fn law_step_keeps_every_pledge(cluster: ClusterModel, pledge: Pledge)
    requires
        cluster.well_formed(),
        cluster.has_no_bare_snapshot(),
    ensures
        cluster.step() matches Some(next) ==> {
            &&& next.has_no_bare_snapshot()
            &&& cluster.has_node(pledge.node) ==> cluster.leads_on_in(next, pledge.node)
                && cluster.ends_tenure_once(next, pledge.node)
            &&& cluster.keeps(pledge) ==> next.keeps(pledge)
            &&& cluster.pays(pledge) ==> next.pays(pledge)
        },
{
    reveal(ClusterModel::step);
    cluster.lemma_faults_applied();
    let quiet = cluster.faults_applied();
    quiet.lemma_drawn_well_formed();
    law_next_message_is_in_the_window(quiet);
    let (present, position) = quiet.next_ready();
    match position {
        Some(at) => {
            present.lemma_delivered_tenure(at, pledge);
        },
        None => {
            if present.now_ms < u64::MAX {
                let later = ClusterModel { now_ms: (present.now_ms + 1) as u64, ..present };
                present.lemma_same_nodes_well_formed(later);
                later.lemma_faults_applied();
                later.faults_applied().lemma_all_ticked_tenure(cluster.nodes.len(), pledge);
            }
        },
    }
}

/// The key that a request is about.
pub open spec fn key_of(request: ClientRequestView) -> Seq<char> {
    match request {
        ClientRequestView::Put { key, value } => key,
        ClientRequestView::Delete { key } => key,
        ClientRequestView::Get { key } => key,
        ClientRequestView::LocalGet { key } => key,
    }
}

/// What a write leaves at its key.
pub open spec fn value_of(request: ClientRequestView) -> Option<Seq<char>> {
    match request {
        ClientRequestView::Put { key, value } => Some(value),
        _ => None,
    }
}

/// The request is to write or delete `key`.
pub open spec fn writes(request: ClientRequestView, key: Seq<char>) -> bool {
    (request is Put || request is Delete) && key_of(request) == key
}

impl ClusterModel {
    /// What a leader that takes the write owes to later reads.
    pub open spec fn pledge_for(self, leader: NodeId, request: ClientRequestView) -> Pledge {
        Pledge {
            node: leader,
            term: self.nodes[leader as int].current_term,
            index: self.nodes[leader as int].last_index() + 1,
            key: key_of(request),
            value: value_of(request),
        }
    }

    pub proof fn lemma_placed_tenure(
        self,
        id: NodeId,
        node: NodeModel<MemoryStateMachine>,
        sent: Seq<MessageView>,
    )
        requires
            self.has_no_bare_snapshot(),
            holds_no_bare_snapshot(sent),
        ensures
            self.with_node(id, node).has_no_bare_snapshot(),
            self.with_node(id, node).enqueue(sent) matches Some(after)
                ==> after.has_no_bare_snapshot() && after.nodes == self.with_node(id, node).nodes,
    {
        self.with_node(id, node).lemma_enqueued_no_bare_snapshot(sent);
    }

    pub proof fn lemma_begun_tenure(self, id: NodeId, request: ClientRequestView, pledge: Pledge)
        requires
            self.well_formed(),
            self.has_no_bare_snapshot(),
            self.has_node(id),
            !(pledge.node == id && writes(request, pledge.key)),
        ensures
            self.begin(id, request) matches Some((after, _)) ==> {
                &&& after.has_no_bare_snapshot()
                &&& self.keeps(pledge) ==> after.keeps(pledge)
                &&& self.pays(pledge) ==> after.pays(pledge)
            },
    {
        let node = self.nodes[id as int];
        assert(self.is_at_home(id as int));
        law_no_node_sends_a_bare_snapshot(node, id, request, 0);
        let (reading, started) = node.start_read();
        let (writing, begun) = node.start_write(request);
        if self.keeps(pledge) && pledge.node == id && node.role == Role::Leader && node.keeps_pace() {
            law_begun_write_will_be_found(node, request, pledge.index, pledge.key, pledge.value);
            node.lemma_leading_finds(reading, pledge.index, pledge.key, pledge.value);
        }
        match started {
            Ok((_, messages)) => {
                self.lemma_placed_tenure(id, reading, messages);
            },
            Err(_) => {
                self.lemma_placed_tenure(id, reading, Seq::empty());
            },
        }
        match begun {
            Ok((_, messages)) => {
                self.lemma_placed_tenure(id, writing, messages);
            },
            Err(_) => {
                self.lemma_placed_tenure(id, writing, Seq::empty());
            },
        }
    }

    pub proof fn lemma_settled_tenure(
        self,
        id: NodeId,
        pending: PendingRequestView,
        deadline: u64,
        fuel: nat,
        pledge: Pledge,
    )
        requires
            self.well_formed(),
            self.has_no_bare_snapshot(),
        ensures
            self.settle(id, pending, deadline, fuel) matches Some((after, _)) ==> {
                &&& after.has_no_bare_snapshot()
                &&& self.keeps(pledge) ==> after.keeps(pledge)
                &&& self.has_node(id) && pledge.node == id && self.nodes[id as int].role
                    == Role::Leader ==> self.leads_on_in(after, id)
                &&& self.pays(pledge) ==> after.pays(pledge)
            },
        decreases fuel,
    {
        lemma_leads_on_itself(self.nodes[id as int]);
        if self.now_ms <= deadline && self.outcome(id, pending) is None && fuel > 0 {
            self.lemma_step_frame();
            law_step_keeps_every_pledge(self, pledge);
            if let Some(next) = self.step() {
                next.lemma_settled_tenure(id, pending, deadline, (fuel - 1) as nat, pledge);
                if self.has_node(id) && pledge.node == id && self.nodes[id as int].role
                    == Role::Leader {
                    let left = (fuel - 1) as nat;
                    if next.nodes[id as int].role != Role::Leader {
                        assert(next.settle(id, pending, deadline, left) matches Some((after, _))
                            ==> after == next);
                    } else if let Some((after, _)) = next.settle(id, pending, deadline, left) {
                        if after.nodes[id as int].role == Role::Leader {
                            lemma_leads_on_further(
                                self.nodes[id as int],
                                next.nodes[id as int],
                                after.nodes[id as int],
                            );
                        }
                    }
                }
            }
        }
    }

    proof fn lemma_served_tenure(
        self,
        id: NodeId,
        request: ClientRequestView,
        fuel: nat,
        pledge: Pledge,
    )
        requires
            self.well_formed(),
            self.has_no_bare_snapshot(),
            !(pledge.node == id && writes(request, pledge.key)),
        ensures
            self.serve(id, request, fuel) matches Some((after, _)) ==> {
                &&& after.has_no_bare_snapshot()
                &&& self.keeps(pledge) ==> after.keeps(pledge)
                &&& self.pays(pledge) ==> after.pays(pledge)
            },
    {
        if self.has_node(id) {
            self.lemma_begin_frame(id, request);
            self.lemma_begun_tenure(id, request, pledge);
            if let Some((begun, Ok(pending))) = self.begin(id, request) {
                let deadline = (begun.now_ms + CLIENT_TIMEOUT_MS) as u64;
                begun.lemma_settled_tenure(id, pending, deadline, fuel, pledge);
                begun.lemma_settle_frame(id, pending, deadline, fuel);
                if let Some((settled, _)) = begun.settle(id, pending, deadline, fuel) {
                    settled.lemma_released_tenure(id, pending, pledge);
                }
            }
        }
    }

    proof fn lemma_released_tenure(self, id: NodeId, pending: PendingRequestView, pledge: Pledge)
        requires
            self.has_node(id),
        ensures
            self.has_no_bare_snapshot() ==> self.released(id, pending).has_no_bare_snapshot(),
            self.keeps(pledge) ==> self.released(id, pending).keeps(pledge),
            self.pays(pledge) ==> self.released(id, pending).pays(pledge),
    {
        let node = self.nodes[id as int];
        let after = self.released(id, pending).nodes[id as int];
        assert(after.log == node.log && after.first_index() == node.first_index());
        assert(after.last_index() == node.last_index());
        if self.keeps(pledge) && pledge.node == id {
            assert(pledge.is_kept_by(after));
        }
    }

    /// A leader that answers a write with success owes its value to later reads, and
    /// pays.
    proof fn lemma_written(self, leader: NodeId, request: ClientRequestView, fuel: nat)
        requires
            self.well_formed(),
            self.has_no_bare_snapshot(),
            self.has_node(leader),
            self.nodes[leader as int].keeps_pace(),
            request is Put || request is Delete,
            self.serve(leader, request, fuel) matches Some((_, reply)) && reply.success,
        ensures
            ({
                let (after, _) = self.serve(leader, request, fuel)->0;
                let pledge = self.pledge_for(leader, request);
                &&& after.pays(pledge)
                &&& after.nodes[leader as int].role == Role::Leader ==> after.nodes[leader as int]
                    .current_term == pledge.term
            }),
    {
        let node = self.nodes[leader as int];
        let pledge = self.pledge_for(leader, request);
        let command = NodeModel::<MemoryStateMachine>::command_of(request)->0;
        assert(self.is_at_home(leader as int));
        self.lemma_begin_frame(leader, request);
        let (writing, started) = node.start_write(request);
        let (begun, taken) = self.begin(leader, request)->0;
        assert(taken is Ok);
        let pending = taken->Ok_0;
        assert(node.role == Role::Leader);
        law_begun_write_will_be_found(node, request, pledge.index, pledge.key, pledge.value);
        assert(touches(command, pledge.key) && value_left(command) == pledge.value);
        law_no_node_sends_a_bare_snapshot(node, leader, request, 0);
        let (_, messages) = started->Ok_0;
        self.lemma_placed_tenure(leader, writing, messages);
        assert(begun.nodes[leader as int] == writing);
        assert(begun.keeps(pledge));
        let deadline = (begun.now_ms + CLIENT_TIMEOUT_MS) as u64;
        begun.lemma_settled_tenure(leader, pending, deadline, fuel, pledge);
        begun.lemma_settle_frame(leader, pending, deadline, fuel);
    }

    /// A read of a leader that pays finds what it owes.
    proof fn lemma_read(self, key: Seq<char>, fuel: nat, pledge: Pledge)
        requires
            self.well_formed(),
            self.pays(pledge),
            pledge.key == key,
            self.nodes[pledge.node as int].current_term == pledge.term,
            self.serve(pledge.node, ClientRequestView::Get { key }, fuel) matches Some((_, reply))
                && reply.success,
        ensures
            self.serve(pledge.node, ClientRequestView::Get { key }, fuel) matches Some((_, reply))
                && reply.response == pledge.value,
    {
        let leader = pledge.node;
        let request = ClientRequestView::Get { key };
        self.lemma_begin_frame(leader, request);
        self.lemma_begun_tenure(leader, request, pledge);
        let (begun, taken) = self.begin(leader, request)->0;
        assert(taken is Ok);
        let pending = taken->Ok_0;
        let deadline = (begun.now_ms + CLIENT_TIMEOUT_MS) as u64;
        begun.lemma_settled_tenure(leader, pending, deadline, fuel, pledge);
        begun.lemma_settle_frame(leader, pending, deadline, fuel);
        let (settled, reply) = begun.settle(leader, pending, deadline, fuel)->0;
        assert(!is_out_of_office(settled.nodes[leader as int], pledge.term));
    }
}

/// A read that follows a write gives the write back: where a leader answers a write
/// with success, and right after it a read of the same key, the answer to the read is
/// the value written, or that there is none if the key was deleted. The leader has to
/// have applied what it has committed, and no bare snapshot may be under way; no node
/// ever sends one.
pub proof fn law_read_gives_back_the_write(
    cluster: ClusterModel,
    leader: NodeId,
    request: ClientRequestView,
    fuel: nat,
    more: nat,
)
    requires
        cluster.well_formed(),
        cluster.has_no_bare_snapshot(),
        cluster.has_node(leader),
        cluster.nodes[leader as int].keeps_pace(),
        request is Put || request is Delete,
        cluster.serve(leader, request, fuel) matches Some((written, first)) && {
            let get = ClientRequestView::Get { key: key_of(request) };
            &&& first.success
            &&& written.serve(leader, get, more) matches Some((_, second)) && second.success
        },
    ensures
        ({
            let (written, _) = cluster.serve(leader, request, fuel)->0;
            let get = ClientRequestView::Get { key: key_of(request) };
            let (_, second) = written.serve(leader, get, more)->0;
            second.response == value_of(request)
        }),
{
    let pledge = cluster.pledge_for(leader, request);
    let get = ClientRequestView::Get { key: key_of(request) };
    cluster.lemma_written(leader, request, fuel);
    cluster.lemma_serve_frame(leader, request, fuel);
    let (written, _) = cluster.serve(leader, request, fuel)->0;
    assert(written.nodes[leader as int].role == Role::Leader);
    written.lemma_read(key_of(request), more, pledge);
}

/// No bare snapshot is under way in a new cluster.
pub proof fn law_new_cluster_has_no_bare_snapshot(size: nat, fault_plan: FaultPlanView)
    ensures
        ClusterModel::initial(size, fault_plan).has_no_bare_snapshot(),
{
}

/// The call asks `node` to write or delete `key`.
pub open spec fn overwrites(call: CallView, node: NodeId, key: Seq<char>) -> bool {
    call matches CallView::Propose { client_id, node: asked, request } && asked == node && writes(
        request,
        key,
    )
}

impl ClusterModel {
    proof fn lemma_steps_tenure(self, count: nat, pledge: Pledge)
        requires
            self.well_formed(),
            self.has_no_bare_snapshot(),
        ensures
            self.steps(count) matches Some(after) ==> {
                &&& after.has_no_bare_snapshot()
                &&& self.pays(pledge) ==> after.pays(pledge)
            },
        decreases count,
    {
        if count > 0 {
            self.lemma_step_frame();
            law_step_keeps_every_pledge(self, pledge);
            if let Some(next) = self.step() {
                next.lemma_steps_tenure((count - 1) as nat, pledge);
            }
        }
    }

    proof fn lemma_run_tenure(self, deadline: u64, fuel: nat, pledge: Pledge)
        requires
            self.well_formed(),
            self.has_no_bare_snapshot(),
        ensures
            self.run_past(deadline, fuel) matches Some(after) ==> {
                &&& after.has_no_bare_snapshot()
                &&& self.pays(pledge) ==> after.pays(pledge)
            },
        decreases fuel,
    {
        if self.now_ms <= deadline && fuel > 0 {
            self.lemma_step_frame();
            law_step_keeps_every_pledge(self, pledge);
            if let Some(next) = self.step() {
                next.lemma_run_tenure(deadline, (fuel - 1) as nat, pledge);
            }
        }
    }

    proof fn lemma_proposed_tenure(
        self,
        client_id: u64,
        id: NodeId,
        request: ClientRequestView,
        fuel: nat,
        pledge: Pledge,
    )
        requires
            self.well_formed(),
            self.has_no_bare_snapshot(),
            !(pledge.node == id && writes(request, pledge.key)),
        ensures
            self.propose_as(client_id, id, request, fuel) matches Some((after, _)) ==> {
                &&& after.has_no_bare_snapshot()
                &&& self.pays(pledge) ==> after.pays(pledge)
            },
    {
        if self.next_operation_id < u64::MAX {
            let numbered = ClusterModel {
                next_operation_id: (self.next_operation_id + 1) as u64,
                ..self
            };
            self.lemma_same_nodes_well_formed(numbered);
            assert(self.pays(pledge) ==> numbered.pays(pledge));
            numbered.lemma_served_tenure(id, request, fuel, pledge);
        }
    }

    proof fn lemma_compacted_tenure(self, id: NodeId, index: LogIndex, pledge: Pledge)
        requires
            self.well_formed(),
            self.has_node(id),
            self.pays(pledge),
        ensures
            self.with_node(id, self.nodes[id as int].compact_to(index).0).pays(pledge),
    {
        let node = self.nodes[id as int];
        assert(self.is_at_home(id as int));
        if pledge.node == id && !is_out_of_office(node, pledge.term) {
            law_compaction_changes_no_read(node, index, pledge.index, pledge.key, pledge.value);
        }
    }
}

/// No call puts a bare snapshot on its way. Every call keeps what is owed to reads paid,
/// unless it asks the same node to write the same key.
pub proof fn law_call_keeps_every_pledge(cluster: ClusterModel, call: CallView, pledge: Pledge)
    requires
        cluster.well_formed(),
        cluster.has_no_bare_snapshot(),
    ensures
        cluster.called(call) matches Some((after, _)) ==> {
            &&& after.has_no_bare_snapshot()
            &&& cluster.pays(pledge) && !overwrites(call, pledge.node, pledge.key) ==> after.pays(
                pledge,
            )
        },
{
    match call {
        CallView::RunFor { duration_ms } => {
            let deadline = (cluster.now_ms + duration_ms) as u64;
            let fuel = choose|fuel: nat| (#[trigger] cluster.run_past(deadline, fuel)) is Some;
            cluster.lemma_run_tenure(deadline, fuel, pledge);
        },
        CallView::RunSteps { count } => {
            cluster.lemma_steps_tenure(count, pledge);
        },
        CallView::Propose { client_id, node, request } => {
            let fuel = choose|fuel: nat|
                (#[trigger] cluster.propose_as(client_id, node, request, fuel)) is Some;
            if overwrites(call, pledge.node, pledge.key) {
                let other = Pledge {
                    node: if node == 0 {
                        1
                    } else {
                        0
                    },
                    ..pledge
                };
                cluster.lemma_proposed_tenure(client_id, node, request, fuel, other);
            } else {
                cluster.lemma_proposed_tenure(client_id, node, request, fuel, pledge);
            }
        },
        CallView::Compact { node, index } => {
            if cluster.has_node(node) && cluster.pays(pledge) {
                cluster.lemma_compacted_tenure(node, index, pledge);
            }
        },
        _ => {},
    }
}

/// No bare snapshot is ever under way in a simulation, whatever calls are made.
pub proof fn law_simulation_has_no_bare_snapshot(cluster: ClusterModel, calls: Seq<CallView>)
    requires
        cluster.well_formed(),
        cluster.has_no_bare_snapshot(),
    ensures
        cluster.called_all(calls) matches Some(after) ==> after.well_formed()
            && after.has_no_bare_snapshot(),
    decreases calls.len(),
{
    if calls.len() > 0 {
        let any = Pledge { node: 0, term: 0, index: 0, key: Seq::empty(), value: None };
        law_call_keeps_the_shape(cluster, calls[0]);
        law_call_keeps_every_pledge(cluster, calls[0], any);
        if let Some((next, _)) = cluster.called(calls[0]) {
            law_simulation_has_no_bare_snapshot(next, calls.skip(1));
        }
    }
}

proof fn lemma_calls_tenure(cluster: ClusterModel, calls: Seq<CallView>, pledge: Pledge)
    requires
        cluster.well_formed(),
        cluster.pays(pledge),
        forall|i: int|
            0 <= i < calls.len() ==> !overwrites(#[trigger] calls[i], pledge.node, pledge.key),
    ensures
        cluster.called_all(calls) matches Some(after) ==> after.well_formed() && after.pays(pledge),
    decreases calls.len(),
{
    if calls.len() > 0 {
        law_call_keeps_the_shape(cluster, calls[0]);
        assert(!overwrites(calls[0], pledge.node, pledge.key));
        law_call_keeps_every_pledge(cluster, calls[0], pledge);
        if let Some((next, _)) = cluster.called(calls[0]) {
            let rest = calls.skip(1);
            assert forall|i: int| 0 <= i < rest.len() implies !overwrites(
                #[trigger] rest[i],
                pledge.node,
                pledge.key,
            ) by {
                assert(rest[i] == calls[i + 1]);
            }
            lemma_calls_tenure(next, rest, pledge);
        }
    }
}

impl ClusterModel {
    proof fn lemma_proposed_write(
        self,
        client_id: u64,
        leader: NodeId,
        request: ClientRequestView,
        fuel: nat,
    )
        requires
            self.well_formed(),
            self.has_no_bare_snapshot(),
            self.has_node(leader),
            self.nodes[leader as int].keeps_pace(),
            request is Put || request is Delete,
            self.propose_as(client_id, leader, request, fuel) matches Some((_, reply))
                && reply.success,
        ensures
            ({
                let (after, _) = self.propose_as(client_id, leader, request, fuel)->0;
                let pledge = self.pledge_for(leader, request);
                &&& after.well_formed()
                &&& after.pays(pledge)
                &&& after.nodes[leader as int].role == Role::Leader ==> after.nodes[leader as int]
                    .current_term == pledge.term
            }),
    {
        let numbered = ClusterModel {
            next_operation_id: (self.next_operation_id + 1) as u64,
            ..self
        };
        self.lemma_same_nodes_well_formed(numbered);
        numbered.lemma_written(leader, request, fuel);
        numbered.lemma_serve_frame(leader, request, fuel);
        let (served, _) = numbered.serve(leader, request, fuel)->0;
        let (after, _) = self.propose_as(client_id, leader, request, fuel)->0;
        served.lemma_same_nodes_well_formed(after);
        assert(numbered.pledge_for(leader, request) == self.pledge_for(leader, request));
        assert(served.pays(self.pledge_for(leader, request)));
    }

    proof fn lemma_proposed_read(
        self,
        client_id: u64,
        key: Seq<char>,
        fuel: nat,
        pledge: Pledge,
    )
        requires
            self.well_formed(),
            self.pays(pledge),
            pledge.key == key,
            self.nodes[pledge.node as int].role == Role::Leader ==> self.nodes[pledge.node as int]
                .current_term == pledge.term,
            self.propose_as(
                client_id,
                pledge.node,
                ClientRequestView::Get { key },
                fuel,
            ) matches Some((_, reply)) && reply.success,
        ensures
            self.propose_as(
                client_id,
                pledge.node,
                ClientRequestView::Get { key },
                fuel,
            ) matches Some((_, reply)) && reply.response == pledge.value,
    {
        let numbered = ClusterModel {
            next_operation_id: (self.next_operation_id + 1) as u64,
            ..self
        };
        self.lemma_same_nodes_well_formed(numbered);
        assert(numbered.pays(pledge));
        assert(numbered.nodes[pledge.node as int].role == Role::Leader);
        numbered.lemma_read(key, fuel, pledge);
    }
}

/// A read that follows a write gives the write back, for requests that are recorded as
/// well, whichever clients send them.
pub proof fn law_proposed_read_gives_back_the_write(
    cluster: ClusterModel,
    writer: u64,
    reader: u64,
    leader: NodeId,
    request: ClientRequestView,
    fuel: nat,
    more: nat,
)
    requires
        cluster.well_formed(),
        cluster.has_no_bare_snapshot(),
        cluster.has_node(leader),
        cluster.nodes[leader as int].keeps_pace(),
        request is Put || request is Delete,
        cluster.propose_as(writer, leader, request, fuel) matches Some((written, first)) && {
            let get = ClientRequestView::Get { key: key_of(request) };
            &&& first.success
            &&& written.propose_as(reader, leader, get, more) matches Some((_, second))
                && second.success
        },
    ensures
        ({
            let (written, _) = cluster.propose_as(writer, leader, request, fuel)->0;
            let get = ClientRequestView::Get { key: key_of(request) };
            let (_, second) = written.propose_as(reader, leader, get, more)->0;
            second.response == value_of(request)
        }),
{
    let pledge = cluster.pledge_for(leader, request);
    cluster.lemma_proposed_write(writer, leader, request, fuel);
    let (written, _) = cluster.propose_as(writer, leader, request, fuel)->0;
    written.lemma_proposed_read(reader, key_of(request), more, pledge);
}

/// A read gives back the last write before it: between the two there may be any calls,
/// runs, faults, partitions, compactions, reads and writes of other keys among them, as
/// long as none asks the same node to write the same key, and the node is still in the
/// term of the write.
pub proof fn law_read_gives_back_the_last_write(
    cluster: ClusterModel,
    writer: u64,
    reader: u64,
    leader: NodeId,
    request: ClientRequestView,
    calls: Seq<CallView>,
)
    requires
        cluster.well_formed(),
        cluster.has_no_bare_snapshot(),
        cluster.has_node(leader),
        cluster.nodes[leader as int].keeps_pace(),
        request is Put || request is Delete,
        forall|i: int|
            0 <= i < calls.len() ==> !overwrites(#[trigger] calls[i], leader, key_of(request)),
        cluster.answers(writer, leader, request),
        cluster.answered(writer, leader, request).1.success,
        cluster.answered(writer, leader, request).0.called_all(calls) matches Some(between) && {
            let get = ClientRequestView::Get { key: key_of(request) };
            &&& between.nodes[leader as int].current_term
                == cluster.nodes[leader as int].current_term
            &&& between.answers(reader, leader, get)
            &&& between.answered(reader, leader, get).1.success
        },
    ensures
        ({
            let between = cluster.answered(writer, leader, request).0.called_all(calls)->0;
            let get = ClientRequestView::Get { key: key_of(request) };
            between.answered(reader, leader, get).1.response == value_of(request)
        }),
{
    let pledge = cluster.pledge_for(leader, request);
    let get = ClientRequestView::Get { key: key_of(request) };
    let fuel = choose|fuel: nat|
        (#[trigger] cluster.propose_as(writer, leader, request, fuel)) is Some;
    cluster.lemma_proposed_write(writer, leader, request, fuel);
    let (written, _) = cluster.answered(writer, leader, request);
    lemma_calls_tenure(written, calls, pledge);
    let between = written.called_all(calls)->0;
    let more = choose|fuel: nat| (#[trigger] between.propose_as(reader, leader, get, fuel)) is Some;
    between.lemma_proposed_read(reader, key_of(request), more, pledge);
}

} // verus!
