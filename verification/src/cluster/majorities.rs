//! A write that is acknowledged was stored by a majority.
use crate::cluster::elections::law_one_leader_per_term;
use crate::cluster::elections::law_step_keeps_votes_single;
use crate::cluster::laws::law_next_message_is_in_the_window;
use crate::cluster::model::ClusterModel;
use crate::cluster::model::PendingRequestView;
use crate::cluster::tenure::law_step_keeps_every_pledge;
use crate::cluster::tenure::Pledge;
use crate::cluster::CLIENT_TIMEOUT_MS;
use crate::node::laws::batches::has_stored;
use crate::node::laws::batches::is_batch_within;
use crate::node::laws::batches::law_acknowledged_entry_is_stored;
use crate::node::laws::batches::law_answered_leader_sends_its_log;
use crate::node::laws::batches::law_handling_keeps_trailing;
use crate::node::laws::batches::law_leader_sends_its_log;
use crate::node::laws::batches::law_ticking_keeps_trailing;
use crate::node::laws::batches::sends_own_log;
use crate::node::laws::batches::trails;
use crate::node::laws::law_every_request_is_answered;
use crate::node::laws::law_handling_is_addressed;
use crate::node::laws::law_ticking_is_addressed;
use crate::node::laws::logs::law_write_is_appended;
use crate::node::laws::shape::law_handling_keeps_the_shape;
use crate::node::laws::shape::law_ticking_keeps_the_shape;
use crate::node::laws::tenure::law_begun_write_will_be_found;
use crate::node::laws::tenure::law_leader_keeps_its_log;
use crate::node::laws::tenure::law_ticking_leader_keeps_its_log;
use crate::node::laws::tracking::acknowledges;
use crate::node::laws::tracking::keeps_track;
use crate::node::laws::tracking::law_batch_is_past;
use crate::node::laws::tracking::law_leader_keeps_track;
use crate::node::laws::tracking::law_leader_keeps_track_by_itself;
use crate::node::laws::tracking::law_own_batch_is_within;
use crate::node::laws::tracking::tells_no_more;
use crate::node::laws::transfers::law_no_node_sends_a_bare_snapshot;
use crate::node::model::NodeModel;
use crate::node::replication::lemma_apply_committed_frame;
use crate::state_machine::MemoryStateMachine;
use crate::types::ClientRequestView;
use crate::types::MessageView;
use crate::types::NodeId;
use crate::types::Role;
use crate::types::RpcView;
use crate::types::Term;
use vstd::prelude::*;

verus! {

/// The message brings nobody, and tells the leader of nobody, more than the leader has.
pub open spec fn is_behind(
    message: MessageView,
    leader: NodeModel<MemoryStateMachine>,
) -> bool {
    match message.rpc {
        RpcView::AppendEntries(request) => is_batch_within(
            request,
            leader.current_term,
            leader.term_start_index as int,
            leader.last_index(),
        ),
        RpcView::InstallSnapshotRequest(request) => request.term == leader.current_term
            ==> request.snapshot.last_included_index <= leader.log_base_index,
        _ => message.to == leader.id ==> tells_no_more(leader, message.from, message.rpc),
    }
}

/// All the messages are behind the leader.
pub open spec fn are_behind(
    messages: Seq<MessageView>,
    leader: NodeModel<MemoryStateMachine>,
) -> bool {
    forall|i: int| 0 <= i < messages.len() ==> is_behind(#[trigger] messages[i], leader)
}

/// None of the messages acknowledges `index` to the leader, but those from `held`.
pub open spec fn acknowledge_only(
    messages: Seq<MessageView>,
    leader: NodeModel<MemoryStateMachine>,
    index: int,
    held: Set<NodeId>,
) -> bool {
    forall|i: int|
        0 <= i < messages.len() && (#[trigger] messages[i]).to == leader.id && acknowledges(
            leader,
            messages[i].rpc,
            index,
        ) ==> held.contains(messages[i].from)
}

/// Another moment of the same leader: what messages say of it stays as true.
proof fn lemma_same_leader(
    message: MessageView,
    leader: NodeModel<MemoryStateMachine>,
    later: NodeModel<MemoryStateMachine>,
)
    requires
        is_behind(message, leader),
        later.role == Role::Leader,
        leader.role == Role::Leader,
        later.id == leader.id,
        later.current_term == leader.current_term,
        later.term_start_index == leader.term_start_index,
        later.last_index() >= leader.last_index(),
        later.log_base_index == leader.log_base_index,
    ensures
        is_behind(message, later),
{
}

impl ClusterModel {
    /// The messages under way.
    pub open spec fn under_way(self) -> Seq<MessageView> {
        Seq::new(self.messages.len(), |k: int| self.messages[k].message)
    }

    /// The node leads, and nothing in the cluster is ahead of it: it keeps track of the
    /// others, none of them holds more of its term than it has sent, and no message
    /// says so.
    pub open spec fn is_led_by(self, id: NodeId) -> bool {
        let leader = self.nodes[id as int];
        &&& self.has_node(id)
        &&& leader.role == Role::Leader
        &&& leader.keeps_pace()
        &&& keeps_track(leader)
        &&& forall|i: int|
            0 <= i < self.nodes.len() && i != id ==> trails(
                #[trigger] self.nodes[i],
                leader.current_term,
                leader.term_start_index as int,
            )
        &&& are_behind(self.under_way(), leader)
    }

    /// The leader credits only nodes from `held`, and itself, with `index`, nobody else
    /// claims to have it, and once it is committed a majority is credited with it.
    pub open spec fn credits_only(self, id: NodeId, index: int, held: Set<NodeId>) -> bool {
        let leader = self.nodes[id as int];
        &&& leader.log_base_index < index
        &&& leader.term_start_index <= index
        &&& forall|peer: NodeId| #[trigger]
            leader.matched_by(peer) >= index ==> peer == id || held.contains(peer)
        &&& acknowledge_only(self.under_way(), leader, index, held)
        &&& leader.commit_index >= index ==> leader.holders(index).len() >= leader.majority()
    }

    /// The nodes that have the entry of `term` at `index`, or a snapshot past it.
    pub open spec fn storing(self, index: int, term: Term) -> Set<NodeId> {
        Set::new(
            |id: NodeId| self.has_node(id) && has_stored(self.nodes[id as int], index, term),
        )
    }

    proof fn lemma_queue_behind(
        self,
        before: Self,
        sent: Seq<MessageView>,
        leader: NodeModel<MemoryStateMachine>,
        later: NodeModel<MemoryStateMachine>,
        index: int,
        held: Set<NodeId>,
        more: Set<NodeId>,
    )
        requires
            self.messages_come_from(before, sent),
            are_behind(before.under_way(), leader),
            acknowledge_only(before.under_way(), leader, index, held),
            are_behind(sent, later),
            acknowledge_only(sent, later, index, more),
            held.subset_of(more),
            later.role == Role::Leader,
            leader.role == Role::Leader,
            later.id == leader.id,
            later.current_term == leader.current_term,
            later.term_start_index == leader.term_start_index,
            later.last_index() >= leader.last_index(),
            later.log_base_index == leader.log_base_index,
        ensures
            are_behind(self.under_way(), later),
            acknowledge_only(self.under_way(), later, index, more),
    {
        let queue = self.under_way();
        assert forall|k: int| 0 <= k < queue.len() implies is_behind(#[trigger] queue[k], later)
            && (queue[k].to == later.id && acknowledges(later, queue[k].rpc, index)
            ==> more.contains(queue[k].from)) by {
            let message = self.messages[k].message;
            assert(queue[k] == message);
            if sent.contains(message) {
                let i = choose|i: int| 0 <= i < sent.len() && sent[i] == message;
                assert(is_behind(sent[i], later));
            } else {
                let i = choose|i: int|
                    0 <= i < before.messages.len() && (#[trigger] before.messages[i]).message
                        == self.messages[k].message;
                assert(before.under_way()[i] == message);
                assert(is_behind(before.under_way()[i], leader));
                lemma_same_leader(message, leader, later);
            }
        }
    }
}

/// What a leader sends by itself is behind it, and acknowledges nothing.
pub proof fn lemma_own_messages(
    leader: NodeModel<MemoryStateMachine>,
    messages: Seq<MessageView>,
    index: int,
    held: Set<NodeId>,
)
    requires
        leader.well_formed(),
        leader.keeps_pace(),
        keeps_track(leader),
        sends_own_log(leader, messages),
    ensures
        are_behind(messages, leader),
        acknowledge_only(messages, leader, index, held),
{
    assert forall|i: int| 0 <= i < messages.len() implies is_behind(#[trigger] messages[i], leader) by {
        law_own_batch_is_within(leader, messages[i].to);
    }
}

/// What another node sends by itself is behind the leader, and acknowledges nothing.
pub proof fn lemma_others_messages(
    node: NodeModel<MemoryStateMachine>,
    leader: NodeModel<MemoryStateMachine>,
    messages: Seq<MessageView>,
    index: int,
    held: Set<NodeId>,
)
    requires
        node.well_formed(),
        trails(node, leader.current_term, leader.term_start_index as int),
        !(node.role == Role::Leader && node.current_term == leader.current_term),
        sends_own_log(node, messages),
    ensures
        are_behind(messages, leader),
        acknowledge_only(messages, leader, index, held),
{
    assert forall|i: int| 0 <= i < messages.len() implies is_behind(#[trigger] messages[i], leader) by {
        let message = messages[i];
        if message.rpc is AppendEntries && node.current_term < leader.current_term {
            law_batch_is_past(node, message.to);
        }
    }
}

/// A leader that still leads has refused what it was asked, so its answer acknowledges
/// nothing.
proof fn lemma_leader_answers(
    leader: NodeModel<MemoryStateMachine>,
    later: NodeModel<MemoryStateMachine>,
    from: NodeId,
    rpc: RpcView,
    now_ms: u64,
    index: int,
    held: Set<NodeId>,
)
    requires
        leader.role == Role::Leader,
        leader.keeps_pace(),
        leader.well_formed(),
        rpc !is InstallSnapshot,
        rpc is RequestVote || rpc is PreVote || rpc is ReadIndex || rpc is AppendEntries
            || rpc is InstallSnapshotRequest || rpc is InstallSnapshotChunk,
        later == leader.handle(from, rpc, now_ms).0,
        later.role == Role::Leader,
    ensures
        are_behind(leader.handle(from, rpc, now_ms).1, later),
        acknowledge_only(leader.handle(from, rpc, now_ms).1, later, index, held),
{
    let messages = leader.handle(from, rpc, now_ms).1;
    law_every_request_is_answered(leader, from, rpc, now_ms);
    law_leader_keeps_its_log(leader, from, rpc, now_ms);
    assert(messages.len() == 1);
    match rpc {
        RpcView::AppendEntries(request) => {
            if request.term >= leader.current_term {
                let led = leader.following(request.term, now_ms).led_by(
                    request.leader_id,
                    now_ms,
                );
                lemma_apply_committed_frame(led.appended(request));
                assert(false);
            }
        },
        RpcView::InstallSnapshotRequest(request) => {
            if request.term >= leader.current_term {
                let present = leader.following(request.term, now_ms);
                assert(present.install_snapshot(request.snapshot).0.role == present.role);
                assert(false);
            }
        },
        _ => {},
    }
}

/// A follower that acknowledges to the leader has what it acknowledges, and acknowledges
/// no more than the leader has.
proof fn lemma_follower_answers(
    node: NodeModel<MemoryStateMachine>,
    leader: NodeModel<MemoryStateMachine>,
    from: NodeId,
    to: NodeId,
    rpc: RpcView,
    now_ms: u64,
    index: int,
    held: Set<NodeId>,
)
    requires
        node.well_formed(),
        node.id == to,
        node.can_handle(from, rpc, now_ms),
        keeps_track(leader),
        leader.role == Role::Leader,
        leader.term_start_index <= index,
        trails(node, leader.current_term, leader.term_start_index as int),
        is_behind(MessageView { from, to, rpc }, leader),
        rpc !is InstallSnapshot,
        rpc is RequestVote || rpc is PreVote || rpc is ReadIndex || rpc is AppendEntries
            || rpc is InstallSnapshotRequest || rpc is InstallSnapshotChunk,
        has_stored(node.handle(from, rpc, now_ms).0, index, leader.current_term) ==> held.contains(
            to,
        ),
    ensures
        are_behind(node.handle(from, rpc, now_ms).1, leader),
        acknowledge_only(node.handle(from, rpc, now_ms).1, leader, index, held),
{
    let term = leader.current_term;
    let start = leader.term_start_index as int;
    let last = leader.last_index();
    let messages = node.handle(from, rpc, now_ms).1;
    law_every_request_is_answered(node, from, rpc, now_ms);
    assert(messages.len() == 1);
    match rpc {
        RpcView::AppendEntries(request) => {
            let reply = node.on_append_entries(request, now_ms).1;
            if reply.success && reply.term == term {
                assert(node.accepts_append(request));
                assert(request.term == term);
                assert(reply.match_index == request.prev_log_index + request.entries.len());
                if reply.match_index >= index {
                    law_acknowledged_entry_is_stored(
                        node,
                        request,
                        now_ms,
                        term,
                        start,
                        last,
                        index,
                    );
                }
            }
        },
        RpcView::InstallSnapshotRequest(request) => {
            let reply = node.on_install_request(from, request, now_ms).1;
            if reply.accepted && reply.term == term {
                assert(request.term == term);
            }
        },
        _ => {},
    }
}

impl ClusterModel {
    /// What a cluster that the node leads, and that credits only `held`, is.
    pub open spec fn is_sound(self, id: NodeId, index: int, held: Set<NodeId>) -> bool {
        &&& self.well_formed()
        &&& self.has_no_bare_snapshot()
        &&& self.votes_are_single()
        &&& self.is_led_by(id)
        &&& self.credits_only(id, index, held)
    }

    /// The leader has heard a message and leads on.
    proof fn lemma_leader_heard(
        self,
        position: int,
        after: Self,
        id: NodeId,
        index: int,
        held: Set<NodeId>,
    )
        requires
            self.is_sound(id, index, held),
            0 <= position < self.messages.len(),
            self.messages[position].message.to == id,
            ({
                let message = self.messages[position].message;
                let node = self.nodes[id as int];
                let (next, replies) = node.handle(message.from, message.rpc, self.now_ms);
                &&& node.can_handle(message.from, message.rpc, self.now_ms)
                &&& next.role == Role::Leader
                &&& after.nodes == self.nodes.update(id as int, next)
                &&& after.messages_come_from(self, replies)
            }),
        ensures
            after.is_led_by(id),
            after.credits_only(id, index, held),
    {
        let message = self.messages[position].message;
        let node = self.nodes[id as int];
        let (next, replies) = node.handle(message.from, message.rpc, self.now_ms);
        assert(self.is_at_home(id as int));
        assert(self.under_way()[position] == message);
        assert(is_behind(self.under_way()[position], node));
        assert(message.rpc !is InstallSnapshot);
        assert(tells_no_more(node, message.from, message.rpc));
        law_leader_keeps_its_log(node, message.from, message.rpc, self.now_ms);
        law_leader_keeps_track(node, message.from, message.rpc, self.now_ms, index);
        law_handling_keeps_the_shape(node, message.from, message.rpc, self.now_ms);
        law_handling_is_addressed(node, message.from, message.rpc, self.now_ms);
        let rpc = message.rpc;
        if rpc is RequestVote || rpc is PreVote || rpc is ReadIndex || rpc is AppendEntries
            || rpc is InstallSnapshotRequest || rpc is InstallSnapshotChunk {
            lemma_leader_answers(node, next, message.from, rpc, self.now_ms, index, held);
        } else {
            law_answered_leader_sends_its_log(node, message.from, rpc, self.now_ms);
            lemma_own_messages(next, replies, index, held);
        }
        after.lemma_queue_behind(self, replies, node, next, index, held, held);
        assert forall|i: int| 0 <= i < after.nodes.len() && i != id implies trails(
            #[trigger] after.nodes[i],
            next.current_term,
            next.term_start_index as int,
        ) by {
            assert(after.nodes[i] == self.nodes[i]);
        }
        assert forall|peer: NodeId| #[trigger]
            next.matched_by(peer) >= index implies peer == id || held.contains(peer) by {
            if node.matched_by(peer) < index {
                assert(peer == message.from && acknowledges(node, rpc, index));
                assert(self.under_way()[position].to == node.id);
            }
        }
    }

    /// Another node has heard a message, and is not elected in the leader's term.
    proof fn lemma_follower_heard(
        self,
        position: int,
        after: Self,
        id: NodeId,
        index: int,
        held: Set<NodeId>,
    )
        requires
            self.is_sound(id, index, held),
            0 <= position < self.messages.len(),
            self.messages[position].message.to != id,
            after.well_formed(),
            after.votes_are_single(),
            ({
                let message = self.messages[position].message;
                let node = self.nodes[message.to as int];
                let (next, replies) = node.handle(message.from, message.rpc, self.now_ms);
                &&& node.can_handle(message.from, message.rpc, self.now_ms)
                &&& after.nodes == self.nodes.update(message.to as int, next)
                &&& after.messages_come_from(self, replies)
            }),
        ensures
            after.is_led_by(id),
            after.credits_only(
                id,
                index,
                held.union(after.storing(index, self.nodes[id as int].current_term)),
            ),
    {
        let message = self.messages[position].message;
        let to = message.to;
        let rpc = message.rpc;
        let leader = self.nodes[id as int];
        let term = leader.current_term;
        let start = leader.term_start_index as int;
        let node = self.nodes[to as int];
        let (next, replies) = node.handle(message.from, rpc, self.now_ms);
        let more = held.union(after.storing(index, term));
        assert(self.is_addressed(message));
        assert(self.is_at_home(to as int) && self.is_at_home(id as int));
        assert(self.under_way()[position] == message);
        assert(is_behind(self.under_way()[position], leader));
        assert(message.rpc !is InstallSnapshot);
        assert(trails(node, term, start));
        assert(after.nodes[id as int] == leader);
        assert(after.nodes[to as int] == next);
        law_handling_keeps_trailing(
            node,
            message.from,
            rpc,
            self.now_ms,
            term,
            start,
            leader.last_index(),
        );
        law_handling_keeps_the_shape(node, message.from, rpc, self.now_ms);
        if next.role == Role::Leader && next.current_term == term {
            law_one_leader_per_term(after, id, to);
        }
        if rpc is RequestVote || rpc is PreVote || rpc is ReadIndex || rpc is AppendEntries
            || rpc is InstallSnapshotRequest || rpc is InstallSnapshotChunk {
            assert(message == (MessageView { from: message.from, to, rpc }));
            assert(has_stored(next, index, term) ==> more.contains(to));
            lemma_follower_answers(
                node,
                leader,
                message.from,
                to,
                rpc,
                self.now_ms,
                index,
                more,
            );
        } else {
            law_answered_leader_sends_its_log(node, message.from, rpc, self.now_ms);
            lemma_others_messages(next, leader, replies, index, more);
        }
        after.lemma_queue_behind(self, replies, leader, leader, index, held, more);
        assert forall|i: int| 0 <= i < after.nodes.len() && i != id implies trails(
            #[trigger] after.nodes[i],
            term,
            start,
        ) by {
            if i != to {
                assert(after.nodes[i] == self.nodes[i]);
            }
        }
    }

    proof fn lemma_delivered_sound(
        self,
        position: int,
        id: NodeId,
        index: int,
        held: Set<NodeId>,
    )
        requires
            self.is_sound(id, index, held),
            0 <= position < self.messages.len(),
        ensures
            self.deliver(position) matches Some(after) ==> {
                after.nodes[id as int].role == Role::Leader ==> {
                    &&& after.is_led_by(id)
                    &&& after.credits_only(
                        id,
                        index,
                        held.union(after.storing(index, self.nodes[id as int].current_term)),
                    )
                }
            },
    {
        let message = self.messages[position].message;
        let to = message.to;
        let leader = self.nodes[id as int];
        let removed = ClusterModel { messages: self.messages.remove(position), ..self };
        let node = self.nodes[to as int];
        assert(self.is_addressed(message));
        assert(self.is_at_home(to as int));
        removed.lemma_shorter_queue(self, position);
        self.lemma_deliver_frame(position);
        self.lemma_delivered(position);
        if !self.is_connected(message.from, to) {
            assert(self.deliver(position) == Some(removed)) by {
                reveal(ClusterModel::deliver);
            }
            let more = held.union(removed.storing(index, leader.current_term));
            removed.lemma_queue_behind(
                self,
                Seq::empty(),
                leader,
                leader,
                index,
                held,
                more,
            );
        } else if node.can_handle(message.from, message.rpc, self.now_ms) {
            let (next, replies) = node.handle(message.from, message.rpc, self.now_ms);
            let placed = removed.with_node(to, next);
            assert(self.deliver(position) == placed.enqueue(replies)) by {
                reveal(ClusterModel::deliver);
            }
            if let Some(after) = placed.enqueue(replies) {
                placed.lemma_same_queue(removed);
                placed.lemma_comes_from_more(removed, self, Seq::empty());
                placed.lemma_enqueued(replies);
                after.lemma_comes_from_more(placed, self, replies);
                placed.lemma_enqueue_leaves_nodes(replies);
                if to != id {
                    self.lemma_follower_heard(position, after, id, index, held);
                } else if next.role == Role::Leader {
                    self.lemma_leader_heard(position, after, id, index, held);
                    after.lemma_credit_more(
                        id,
                        index,
                        held,
                        held.union(after.storing(index, leader.current_term)),
                    );
                }
            }
        } else {
            assert(self.deliver(position) is None) by {
                reveal(ClusterModel::deliver);
            }
        }
    }

    proof fn lemma_credit_more(
        self,
        id: NodeId,
        index: int,
        held: Set<NodeId>,
        more: Set<NodeId>,
    )
        requires
            self.credits_only(id, index, held),
            held.subset_of(more),
        ensures
            self.credits_only(id, index, more),
    {
    }

    proof fn lemma_ticked_sound(
        self,
        ticking: NodeId,
        id: NodeId,
        index: int,
        held: Set<NodeId>,
    )
        requires
            self.is_sound(id, index, held),
            self.has_node(ticking),
        ensures
            self.ticked(ticking) matches Some(after) ==> {
                &&& ticking != id ==> after.nodes[id as int] == self.nodes[id as int]
                &&& after.nodes[id as int].role == Role::Leader ==> after.is_led_by(id)
                    && after.credits_only(id, index, held)
            },
    {
        let leader = self.nodes[id as int];
        let node = self.nodes[ticking as int];
        let term = leader.current_term;
        let start = leader.term_start_index as int;
        assert(self.is_at_home(ticking as int) && self.is_at_home(id as int));
        if node.can_tick(self.now_ms) {
            let (next, messages) = node.tick(self.now_ms);
            let placed = self.with_node(ticking, next);
            assert(self.ticked(ticking) == placed.enqueue(messages)) by {
                reveal(ClusterModel::ticked);
            }
            if let Some(after) = placed.enqueue(messages) {
                placed.lemma_same_queue(self);
                placed.lemma_enqueued(messages);
                after.lemma_comes_from_more(placed, self, messages);
                placed.lemma_enqueue_leaves_nodes(messages);
                let any = ClientRequestView::LocalGet { key: Seq::empty() };
                law_leader_sends_its_log(node, any, self.now_ms);
                law_ticking_keeps_the_shape(node, self.now_ms);
                law_ticking_is_addressed(node, self.now_ms);
                if ticking == id {
                    if next.role == Role::Leader {
                        law_leader_keeps_track_by_itself(node, any, self.now_ms, index);
                        law_ticking_leader_keeps_its_log(node, self.now_ms);
                        lemma_own_messages(next, messages, index, held);
                        after.lemma_queue_behind(self, messages, leader, next, index, held, held);
                        assert forall|i: int| 0 <= i < after.nodes.len() && i != id implies trails(
                            #[trigger] after.nodes[i],
                            next.current_term,
                            next.term_start_index as int,
                        ) by {
                            assert(after.nodes[i] == self.nodes[i]);
                        }
                        assert forall|peer: NodeId| #[trigger]
                            next.matched_by(peer) >= index implies peer == id || held.contains(
                            peer,
                        ) by {
                            assert(node.matched_by(peer) >= index);
                        }
                    }
                } else {
                    assert(trails(node, term, start));
                    law_ticking_keeps_trailing(node, self.now_ms, term, start);
                    self.lemma_ticked_votes(ticking);
                    self.lemma_ticked_frame(ticking);
                    assert(after.nodes[id as int] == leader);
                    assert(after.nodes[ticking as int] == next);
                    if next.role == Role::Leader && next.current_term == term {
                        law_one_leader_per_term(after, id, ticking);
                    }
                    lemma_others_messages(next, leader, messages, index, held);
                    after.lemma_queue_behind(self, messages, leader, leader, index, held, held);
                    assert forall|i: int| 0 <= i < after.nodes.len() && i != id implies trails(
                        #[trigger] after.nodes[i],
                        term,
                        start,
                    ) by {
                        if i != ticking {
                            assert(after.nodes[i] == self.nodes[i]);
                        }
                    }
                }
            }
        } else {
            assert(self.ticked(ticking) is None) by {
                reveal(ClusterModel::ticked);
            }
        }
    }

    proof fn lemma_all_ticked_sound(
        self,
        count: nat,
        id: NodeId,
        index: int,
        held: Set<NodeId>,
    )
        requires
            self.is_sound(id, index, held),
            count <= self.nodes.len(),
        ensures
            self.ticked_first(count) matches Some(after) ==> {
                &&& after.nodes[id as int].role == Role::Leader ==> after.is_led_by(id)
                    && after.credits_only(id, index, held)
                &&& after.nodes.len() == self.nodes.len()
                &&& count <= id ==> after.nodes[id as int] == self.nodes[id as int]
            },
        decreases count,
    {
        if count > 0 {
            let ticking = (count - 1) as NodeId;
            self.lemma_all_ticked_sound((count - 1) as nat, id, index, held);
            self.lemma_ticked_first_frame((count - 1) as nat);
            self.lemma_all_ticked_votes((count - 1) as nat);
            self.lemma_size();
            if let Some(before) = self.ticked_first((count - 1) as nat) {
                let any = Pledge {
                    node: id,
                    term: 0,
                    index: 0,
                    key: Seq::empty(),
                    value: None,
                };
                self.lemma_all_ticked_tenure((count - 1) as nat, any);
                if before.nodes[id as int].role == Role::Leader {
                    before.lemma_ticked_sound(ticking, id, index, held);
                } else {
                    before.lemma_ticked_frame(ticking);
                    assert(id < count - 1);
                }
                before.lemma_ticked_frame(ticking);
            }
        }
    }
}

/// Each step of a cluster that a node leads, and after which it still leads, leaves it
/// led by the node; whom the leader comes to credit with `index` has stored it.
pub proof fn law_step_keeps_the_lead(
    cluster: ClusterModel,
    id: NodeId,
    index: int,
    held: Set<NodeId>,
)
    requires
        cluster.is_sound(id, index, held),
    ensures
        cluster.step() matches Some(next) ==> {
            next.nodes[id as int].role == Role::Leader ==> next.is_sound(
                id,
                index,
                held.union(next.storing(index, cluster.nodes[id as int].current_term)),
            )
        },
{
    let any = Pledge { node: id, term: 0, index: 0, key: Seq::empty(), value: None };
    cluster.lemma_step_frame();
    law_step_keeps_every_pledge(cluster, any);
    law_step_keeps_votes_single(cluster);
    reveal(ClusterModel::step);
    cluster.lemma_faults_applied();
    let quiet = cluster.faults_applied();
    cluster.lemma_same_votes(quiet);
    quiet.lemma_drawn_well_formed();
    law_next_message_is_in_the_window(quiet);
    let (present, position) = quiet.next_ready();
    quiet.lemma_same_votes(present);
    assert(present.under_way() =~= cluster.under_way());
    assert(present.is_sound(id, index, held));
    match position {
        Some(at) => {
            present.lemma_delivered_sound(at, id, index, held);
        },
        None => {
            if present.now_ms < u64::MAX {
                let later = ClusterModel { now_ms: (present.now_ms + 1) as u64, ..present };
                present.lemma_same_nodes_well_formed(later);
                present.lemma_same_votes(later);
                later.lemma_faults_applied();
                let due = later.faults_applied();
                later.lemma_same_votes(due);
                assert(due.under_way() =~= present.under_way());
                assert(due.is_sound(id, index, held));
                due.lemma_all_ticked_sound(cluster.nodes.len(), id, index, held);
                if let Some(next) = cluster.step() {
                    if next.nodes[id as int].role == Role::Leader {
                        next.lemma_credit_more(
                            id,
                            index,
                            held,
                            held.union(next.storing(index, cluster.nodes[id as int].current_term)),
                        );
                    }
                }
            }
        },
    }
}

impl ClusterModel {
    /// After `count` steps from here the node has the entry of `term` at `index`, or a
    /// snapshot past it.
    pub open spec fn stores_after(self, count: nat, id: NodeId, index: int, term: Term) -> bool {
        self.steps(count) matches Some(then) && then.storing(index, term).contains(id)
    }

    /// The nodes that have the entry of `term` at `index` at one time or another within
    /// `count` steps from here.
    pub open spec fn storing_within(self, count: nat, index: int, term: Term) -> Set<NodeId> {
        Set::new(
            |id: NodeId|
                exists|taken: nat|
                    taken <= count && #[trigger] self.stores_after(taken, id, index, term),
        )
    }

    proof fn lemma_storing_later(self, taken: nat, index: int, term: Term)
        requires
            self.steps(taken) is Some,
        ensures
            self.steps(taken)->0.step() matches Some(next) ==> self.storing_within(
                taken,
                index,
                term,
            ).union(next.storing(index, term)).subset_of(
                self.storing_within(taken + 1, index, term),
            ),
    {
        self.lemma_one_more_step(taken);
        if let Some(next) = self.steps(taken)->0.step() {
            let sofar = self.storing_within(taken, index, term);
            let later = self.storing_within(taken + 1, index, term);
            assert forall|id: NodeId|
                sofar.union(next.storing(index, term)).contains(id) implies later.contains(id) by {
                if next.storing(index, term).contains(id) {
                    assert(self.stores_after(taken + 1, id, index, term));
                } else {
                    let n = choose|n: nat|
                        n <= taken && #[trigger] self.stores_after(n, id, index, term);
                    assert(self.stores_after(n, id, index, term));
                }
            }
        }
    }

    proof fn lemma_storing_longer(self, count: nat, more: nat, index: int, term: Term)
        requires
            count <= more,
        ensures
            self.storing_within(count, index, term).subset_of(
                self.storing_within(more, index, term),
            ),
    {
        assert forall|id: NodeId|
            self.storing_within(count, index, term).contains(id) implies self.storing_within(
            more,
            index,
            term,
        ).contains(id) by {
            let n = choose|n: nat|
                n <= count && #[trigger] self.stores_after(n, id, index, term);
            assert(self.stores_after(n, id, index, term));
        }
    }

    /// While a client waits, whom the leader comes to credit has stored the entry.
    proof fn lemma_settled_sound(
        self,
        start: Self,
        taken: nat,
        id: NodeId,
        pending: PendingRequestView,
        deadline: u64,
        fuel: nat,
        index: int,
    )
        requires
            start.steps(taken) == Some(self),
            self.is_sound(
                id,
                index,
                start.storing_within(taken, index, self.nodes[id as int].current_term),
            ),
        ensures
            self.settle(id, pending, deadline, fuel) matches Some((after, _)) ==> {
                after.nodes[id as int].role == Role::Leader ==> {
                    let term = self.nodes[id as int].current_term;
                    &&& after.nodes[id as int].current_term == term
                    &&& after.is_sound(
                        id,
                        index,
                        start.storing_within(taken + fuel, index, term),
                    )
                }
            },
        decreases fuel,
    {
        let term = self.nodes[id as int].current_term;
        let held = start.storing_within(taken, index, term);
        if self.now_ms <= deadline && self.outcome(id, pending) is None && fuel > 0 {
            let left = (fuel - 1) as nat;
            let any = Pledge { node: id, term: 0, index: 0, key: Seq::empty(), value: None };
            law_step_keeps_the_lead(self, id, index, held);
            law_step_keeps_every_pledge(self, any);
            self.lemma_step_frame();
            if let Some(next) = self.step() {
                start.lemma_one_more_step(taken);
                start.lemma_storing_later(taken, index, term);
                if next.nodes[id as int].role == Role::Leader {
                    assert(next.nodes[id as int].current_term == term);
                    next.lemma_credit_more(
                        id,
                        index,
                        held.union(next.storing(index, term)),
                        start.storing_within(taken + 1, index, term),
                    );
                    next.lemma_settled_sound(
                        start,
                        taken + 1,
                        id,
                        pending,
                        deadline,
                        left,
                        index,
                    );
                } else {
                    assert(next.settle(id, pending, deadline, left) matches Some((after, _))
                        ==> after == next);
                }
            }
        } else {
            start.lemma_storing_longer(taken, taken + fuel, index, term);
            self.lemma_credit_more(
                id,
                index,
                held,
                start.storing_within(taken + fuel, index, term),
            );
        }
    }

    /// The leader takes a write: nothing is ahead of it still, and nobody is credited
    /// with the new entry.
    proof fn lemma_write_begun_sound(self, id: NodeId, request: ClientRequestView)
        requires
            self.well_formed(),
            self.has_no_bare_snapshot(),
            self.votes_are_single(),
            self.is_led_by(id),
            request is Put || request is Delete,
        ensures
            self.begin(id, request) matches Some((after, _)) ==> {
                let index = self.nodes[id as int].last_index() + 1;
                let term = self.nodes[id as int].current_term;
                &&& after.is_sound(id, index, after.storing_within(0, index, term))
                &&& after.nodes[id as int].current_term == term
            },
    {
        let leader = self.nodes[id as int];
        let index = leader.last_index() + 1;
        let term = leader.current_term;
        assert(self.is_at_home(id as int));
        if let Some((after, _)) = self.begin(id, request) {
            let (writing, started) = leader.start_write(request);
            let (_, messages) = started->Ok_0;
            let held = after.storing_within(0, index, term);
            let placed = self.with_node(id, writing);
            assert(placed.enqueue(messages) == Some(after));
            self.lemma_begin_frame(id, request);
            self.lemma_begun_votes(id, request);
            law_no_node_sends_a_bare_snapshot(leader, id, request, 0);
            self.lemma_placed_tenure(id, writing, messages);
            law_write_is_appended(leader, request);
            law_begun_write_will_be_found(leader, request, 0, Seq::empty(), None);
            law_leader_keeps_track_by_itself(leader, request, 0, index);
            law_leader_sends_its_log(leader, request, 0);
            assert(after.is_at_home(id as int));
            lemma_own_messages(writing, messages, index, held);
            placed.lemma_same_queue(self);
            placed.lemma_enqueued(messages);
            after.lemma_comes_from_more(placed, self, messages);
            assert(acknowledge_only(self.under_way(), leader, index, Set::empty())) by {
                assert forall|i: int|
                    0 <= i < self.under_way().len() && (#[trigger] self.under_way()[i]).to
                        == leader.id implies !acknowledges(
                    leader,
                    self.under_way()[i].rpc,
                    index,
                ) by {
                    assert(is_behind(self.under_way()[i], leader));
                }
            }
            after.lemma_queue_behind(
                self,
                messages,
                leader,
                writing,
                index,
                Set::empty(),
                held,
            );
            assert forall|i: int| 0 <= i < after.nodes.len() && i != id implies trails(
                #[trigger] after.nodes[i],
                term,
                writing.term_start_index as int,
            ) by {
                assert(after.nodes[i] == self.nodes[i]);
            }
            assert(after.nodes[id as int] == writing);
            assert(after.is_led_by(id));
            assert(after.credits_only(id, index, held));
        }
    }

    /// A set of nodes of the cluster is finite.
    proof fn lemma_members_are_finite(self, members: Set<NodeId>)
        requires
            self.well_formed(),
            forall|id: NodeId| members.contains(id) ==> self.has_node(id),
        ensures
            members.finite(),
    {
        self.lemma_size();
        let ids = Seq::new(self.nodes.len(), |i: int| i as NodeId);
        assert(members.subset_of(ids.to_set())) by {
            assert forall|id: NodeId| members.contains(id) implies ids.to_set().contains(id) by {
                assert(ids[id as int] == id);
            }
        }
        vstd::set_lib::lemma_set_subset_finite(ids.to_set(), members);
    }

    proof fn lemma_steps_keep_size(self, count: nat)
        requires
            self.well_formed(),
        ensures
            self.steps(count) matches Some(after) ==> after.nodes.len() == self.nodes.len(),
        decreases count,
    {
        if count > 0 {
            self.lemma_step_frame();
            if let Some(next) = self.step() {
                next.lemma_steps_keep_size((count - 1) as nat);
            }
        }
    }
}

/// A write that is answered with success was stored by a majority: where the leader, of
/// which nothing in the cluster is ahead, still leads, more than half of the nodes had
/// the entry in their logs, or a snapshot past it, at one time or another while the
/// client waited. They need not all have it still: a node that has moved on to a later
/// term answers to another leader.
pub proof fn law_acknowledged_write_was_stored_by_a_majority(
    cluster: ClusterModel,
    leader: NodeId,
    request: ClientRequestView,
    fuel: nat,
)
    requires
        cluster.well_formed(),
        cluster.has_no_bare_snapshot(),
        cluster.votes_are_single(),
        cluster.is_led_by(leader),
        request is Put || request is Delete,
        cluster.serve(leader, request, fuel) matches Some((after, reply)) && reply.success
            && after.nodes[leader as int].role == Role::Leader,
    ensures
        cluster.begin(leader, request) matches Some((begun, Ok(pending))) && {
            &&& pending is Write
            &&& 2 * begun.storing_within(
                fuel,
                pending->Write_0.index as int,
                pending->Write_0.term,
            ).len() > cluster.nodes.len()
        },
{
    let node = cluster.nodes[leader as int];
    let index = node.last_index() + 1;
    let term = node.current_term;
    assert(cluster.is_at_home(leader as int));
    assert(cluster.is_honest(leader as int));
    let (begun, taken) = cluster.begin(leader, request)->0;
    let pending = taken->Ok_0;
    cluster.lemma_begin_frame(leader, request);
    law_write_is_appended(node, request);
    cluster.lemma_write_begun_sound(leader, request);
    let deadline = (begun.now_ms + CLIENT_TIMEOUT_MS) as u64;
    begun.lemma_settled_sound(begun, 0, leader, pending, deadline, fuel, index);
    begun.lemma_settle_frame(leader, pending, deadline, fuel);
    let (after, _) = begun.settle(leader, pending, deadline, fuel)->0;
    let later = after.nodes[leader as int];
    let members = begun.storing_within(fuel, index, term);
    assert(later.commit_index >= index);
    assert(later.holders(index).len() >= later.majority());
    assert(begun.stores_after(0, leader, index, term)) by {
        assert(begun.steps(0) == Some(begun));
        let writing = begun.nodes[leader as int];
        assert(writing == node.start_write(request).0) by {
            let (_, messages) = node.start_write(request).1->Ok_0;
            let placed = cluster.with_node(leader, node.start_write(request).0);
            placed.lemma_enqueue_leaves_nodes(messages);
        }
        assert(writing.entry_at(index) is Some);
    }
    assert(later.holders(index).subset_of(members)) by {
        assert forall|id: NodeId| later.holders(index).contains(id) implies members.contains(id) by {
            assert(later.matched_by(id) >= index);
        }
    }
    assert forall|id: NodeId| members.contains(id) implies cluster.has_node(id) by {
        let n = choose|n: nat| n <= fuel && #[trigger] begun.stores_after(n, id, index, term);
        begun.lemma_steps_keep_size(n);
    }
    cluster.lemma_members_are_finite(members);
    vstd::set_lib::lemma_len_subset(later.holders(index), members);
    assert(after.is_honest(leader as int));
}

/// The same of a write that is recorded.
pub proof fn law_recorded_write_was_stored_by_a_majority(
    cluster: ClusterModel,
    client_id: u64,
    leader: NodeId,
    request: ClientRequestView,
    fuel: nat,
)
    requires
        cluster.well_formed(),
        cluster.has_no_bare_snapshot(),
        cluster.votes_are_single(),
        cluster.is_led_by(leader),
        request is Put || request is Delete,
        cluster.propose_as(client_id, leader, request, fuel) matches Some((after, reply))
            && reply.success && after.nodes[leader as int].role == Role::Leader,
    ensures
        ({
            let numbered = ClusterModel {
                next_operation_id: (cluster.next_operation_id + 1) as u64,
                ..cluster
            };
            numbered.begin(leader, request) matches Some((begun, Ok(pending))) && {
                &&& pending is Write
                &&& 2 * begun.storing_within(
                    fuel,
                    pending->Write_0.index as int,
                    pending->Write_0.term,
                ).len() > cluster.nodes.len()
            }
        }),
{
    let numbered = ClusterModel {
        next_operation_id: (cluster.next_operation_id + 1) as u64,
        ..cluster
    };
    cluster.lemma_same_nodes_well_formed(numbered);
    cluster.lemma_same_votes(numbered);
    assert(numbered.under_way() =~= cluster.under_way());
    assert(numbered.is_led_by(leader));
    law_acknowledged_write_was_stored_by_a_majority(numbered, leader, request, fuel);
}

} // verus!
