//! The first leader of a term.
use crate::cluster::laws::law_next_message_is_in_the_window;
use crate::cluster::majorities::is_behind;
use crate::cluster::majorities::lemma_own_messages;
use crate::cluster::model::ClusterModel;
use crate::cluster::plan::FaultPlanView;
use crate::node::laws::batches::entries_are_past;
use crate::node::laws::batches::is_run_of;
use crate::node::laws::batches::law_answered_leader_sends_its_log;
use crate::node::laws::batches::law_leader_sends_its_log;
use crate::node::laws::batches::sends_own_log;
use crate::node::laws::batches::trails;
use crate::node::laws::law_every_request_is_answered;
use crate::node::laws::law_handling_is_addressed;
use crate::node::laws::origins::batch_is_past;
use crate::node::laws::origins::knows_nothing_of;
use crate::node::laws::origins::law_entries_stay_past;
use crate::node::laws::origins::law_entries_stay_past_by_themselves;
use crate::node::laws::origins::law_every_entry_has_an_origin;
use crate::node::laws::origins::starts_somewhere;
use crate::node::laws::shape::law_handling_keeps_the_shape;
use crate::node::laws::shape::law_ticking_keeps_the_shape;
use crate::node::laws::tenure::lemma_role_after;
use crate::node::laws::tracking::keeps_track;
use crate::node::laws::tracking::law_batch_is_past;
use crate::node::model::NodeModel;
use crate::node::replication::lemma_apply_committed_frame;
use crate::state_machine::MemoryStateMachine;
use crate::types::ClientRequestView;
use crate::types::LogIndex;
use crate::types::MessageView;
use crate::types::NodeId;
use crate::types::Role;
use crate::types::RpcView;
use crate::types::Term;
use vstd::prelude::*;

verus! {

/// The message is part of the replication of a leader of `term`.
pub open spec fn speaks_of(rpc: RpcView, term: Term) -> bool {
    match rpc {
        RpcView::AppendEntries(request) => request.term == term,
        RpcView::InstallSnapshotRequest(request) => request.term == term,
        RpcView::AppendEntriesReply(reply) => reply.success && reply.term == term,
        RpcView::InstallSnapshotReply(reply) => reply.accepted && reply.term == term,
        _ => false,
    }
}

/// The node leads in `term`.
pub open spec fn leads_in(node: NodeModel<MemoryStateMachine>, term: Term) -> bool {
    node.role == Role::Leader && node.current_term == term
}

/// The messages hold nothing of terms that their senders have not reached.
pub open spec fn are_past(messages: Seq<MessageView>) -> bool {
    forall|i: int| 0 <= i < messages.len() ==> batch_is_past((#[trigger] messages[i]).rpc)
}

/// None of the messages is part of the replication of a leader of `term`.
pub open spec fn say_nothing_of(messages: Seq<MessageView>, term: Term) -> bool {
    forall|i: int| 0 <= i < messages.len() ==> !speaks_of((#[trigger] messages[i]).rpc, term)
}

impl ClusterModel {
    /// No log and no message holds anything of a term that has not been reached, and
    /// every log starts at its beginning or at a snapshot.
    pub open spec fn is_grounded(self) -> bool {
        &&& forall|i: int|
            0 <= i < self.nodes.len() ==> entries_are_past(#[trigger] self.nodes[i])
                && starts_somewhere(self.nodes[i])
        &&& are_past(self.under_way())
    }

    /// Nobody leads in `term`.
    pub open spec fn has_no_leader_in(self, term: Term) -> bool {
        forall|i: int| 0 <= i < self.nodes.len() ==> !leads_in(#[trigger] self.nodes[i], term)
    }

    /// Nobody has led in `term` yet: nobody does, no log and no message knows of it.
    pub open spec fn is_fresh(self, term: Term) -> bool {
        &&& self.has_no_leader_in(term)
        &&& forall|i: int| 0 <= i < self.nodes.len() ==> knows_nothing_of(
            #[trigger] self.nodes[i],
            term,
        )
        &&& say_nothing_of(self.under_way(), term)
    }

    pub proof fn lemma_queue_past(self, before: Self, sent: Seq<MessageView>, term: Term)
        requires
            self.messages_come_from(before, sent),
            are_past(before.under_way()),
            are_past(sent),
        ensures
            are_past(self.under_way()),
            say_nothing_of(before.under_way(), term) && say_nothing_of(sent, term)
                ==> say_nothing_of(self.under_way(), term),
    {
        let queue = self.under_way();
        assert forall|k: int| 0 <= k < queue.len() implies batch_is_past(
            (#[trigger] queue[k]).rpc,
        ) && (say_nothing_of(before.under_way(), term) && say_nothing_of(sent, term)
            ==> !speaks_of(queue[k].rpc, term)) by {
            let message = self.messages[k].message;
            assert(queue[k] == message);
            if sent.contains(message) {
                let i = choose|i: int| 0 <= i < sent.len() && sent[i] == message;
                assert(batch_is_past(sent[i].rpc));
            } else {
                let i = choose|i: int|
                    0 <= i < before.messages.len() && (#[trigger] before.messages[i]).message
                        == self.messages[k].message;
                assert(before.under_way()[i] == message);
                assert(batch_is_past(before.under_way()[i].rpc));
            }
        }
    }
}

/// What a node sends by itself holds nothing of a term that it has not reached, and
/// nothing of one that it does not lead in.
pub proof fn lemma_own_log_is_past(
    node: NodeModel<MemoryStateMachine>,
    messages: Seq<MessageView>,
    term: Term,
)
    requires
        node.well_formed(),
        entries_are_past(node),
        sends_own_log(node, messages),
    ensures
        are_past(messages),
        !leads_in(node, term) ==> say_nothing_of(messages, term),
{
    assert forall|i: int| 0 <= i < messages.len() implies batch_is_past(
        (#[trigger] messages[i]).rpc,
    ) && (!leads_in(node, term) ==> !speaks_of(messages[i].rpc, term)) by {
        law_batch_is_past(node, messages[i].to);
    }
}

proof fn lemma_sent_is_past(
    node: NodeModel<MemoryStateMachine>,
    from: NodeId,
    rpc: RpcView,
    now_ms: u64,
    term: Term,
)
    requires
        node.well_formed(),
        node.can_handle(from, rpc, now_ms),
        entries_are_past(node),
        batch_is_past(rpc),
        rpc !is InstallSnapshot,
    ensures
        ({
            let (after, messages) = node.handle(from, rpc, now_ms);
            &&& are_past(messages)
            &&& !speaks_of(rpc, term) && !leads_in(after, term) ==> say_nothing_of(messages, term)
        }),
{
    let (after, messages) = node.handle(from, rpc, now_ms);
    if rpc is RequestVote || rpc is PreVote || rpc is ReadIndex || rpc is AppendEntries
        || rpc is InstallSnapshotRequest || rpc is InstallSnapshotChunk {
        law_every_request_is_answered(node, from, rpc, now_ms);
        match rpc {
            RpcView::AppendEntries(request) => {
                let reply = node.on_append_entries(request, now_ms).1;
                assert(reply.success ==> reply.term == request.term);
            },
            RpcView::InstallSnapshotRequest(request) => {
                let reply = node.on_install_request(from, request, now_ms).1;
                assert(reply.accepted ==> reply.term == request.term);
            },
            _ => {},
        }
    } else {
        law_answered_leader_sends_its_log(node, from, rpc, now_ms);
        law_entries_stay_past(node, from, rpc, now_ms, term);
        law_handling_keeps_the_shape(node, from, rpc, now_ms);
        lemma_own_log_is_past(after, messages, term);
    }
}

/// A node comes to lead by an election only: it opens its term behind all that it has,
/// and credits itself alone.
proof fn lemma_elected(
    node: NodeModel<MemoryStateMachine>,
    from: NodeId,
    rpc: RpcView,
    now_ms: u64,
)
    requires
        node.well_formed(),
        node.can_handle(from, rpc, now_ms),
        node.role != Role::Leader,
        node.handle(from, rpc, now_ms).0.role == Role::Leader,
        starts_somewhere(node),
        node.log_base_index <= node.last_index(),
    ensures
        ({
            let after = node.handle(from, rpc, now_ms).0;
            &&& rpc is RequestVoteReply
            &&& keeps_track(after)
            &&& after.id == node.id
            &&& after.term_start_index == after.last_index()
        }),
{
    let after = node.handle(from, rpc, now_ms).0;
    match rpc {
        RpcView::RequestVoteReply(reply) => {
            assert(after.last_index() == node.last_index() + 1);
            assert(after.log.last().term == after.current_term);
            let peers = node.peers.to_set();
            assert(after.match_index.dom() =~= peers.insert(node.id)) by {
                assert forall|peer: NodeId| #[trigger]
                    after.match_index.dom().contains(peer) <==> peers.insert(node.id).contains(
                        peer,
                    ) by {}
            }
            assert(after.match_index.dom().finite());
            assert forall|peer: NodeId| 1 <= #[trigger] after.next_for(peer) <= after.last_index()
                + 1 by {}
            assert forall|i: int|
                after.term_start_index <= i && (#[trigger] after.term_at(i)) is Some implies
                after.term_at(i) == Some(after.current_term) by {
                assert(i == after.last_index());
                assert(after.log[i - after.first_index()] == after.log.last());
            }
        },
        RpcView::AppendEntries(request) => {
            let led = node.following(request.term, now_ms).led_by(request.leader_id, now_ms);
            lemma_apply_committed_frame(led.appended(request));
        },
        RpcView::AppendEntriesReply(reply) => {
            let acknowledged = node.contacted(from, now_ms).acknowledged(from, reply.match_index);
            let point = acknowledged.commit_point(acknowledged.last_index()) as LogIndex;
            lemma_apply_committed_frame(NodeModel { commit_index: point, ..acknowledged });
        },
        RpcView::InstallSnapshot(snapshot) => {
            assert(node.install_snapshot(snapshot).0.role == node.role);
        },
        RpcView::InstallSnapshotRequest(request) => {
            let present = node.following(request.term, now_ms);
            assert(present.install_snapshot(request.snapshot).0.role == present.role);
        },
        RpcView::InstallSnapshotChunk(chunk) => {
            let ready = node.receiving(chunk, now_ms);
            let finished = ready.finish_transfer(from, ready.arrived(chunk), now_ms).0;
            assert(finished.role == ready.role);
            assert(ready.storing(chunk).role == ready.role);
        },
        _ => {},
    }
}

/// Who knows nothing of a term trails its first leader.
proof fn lemma_ignorant_trails(
    node: NodeModel<MemoryStateMachine>,
    term: Term,
    start: int,
)
    requires
        node.well_formed(),
        1 <= start,
        entries_are_past(node),
        knows_nothing_of(node, term),
    ensures
        trails(node, term, start),
{
    if node.current_term <= term {
        assert forall|i: int, j: int|
            start <= i <= j && (#[trigger] node.term_at(i)) is Some && #[trigger] node.term_at(j)
                == Some(term) implies node.term_at(i) == Some(term) by {
            if j > node.log_base_index {
                assert(node.entry_at(j) is Some);
            }
        }
        assert(is_run_of(node, start, term));
    }
}

impl ClusterModel {
    /// What a step does to a term that nobody has led in.
    spec fn goes_on(self, after: Self, term: Term) -> bool {
        &&& after.is_grounded()
        &&& self.is_fresh(term) && after.has_no_leader_in(term) ==> after.is_fresh(term)
        &&& forall|id: NodeId|
            self.is_fresh(term) && after.has_node(id) && leads_in(
                #[trigger] after.nodes[id as int],
                term,
            ) && after.nodes[id as int].keeps_pace() ==> after.is_led_by(id)
    }

    proof fn lemma_heard_goes_on(self, position: int, after: Self, term: Term)
        requires
            self.well_formed(),
            self.has_no_bare_snapshot(),
            self.is_grounded(),
            0 <= position < self.messages.len(),
            ({
                let message = self.messages[position].message;
                let node = self.nodes[message.to as int];
                let (next, replies) = node.handle(message.from, message.rpc, self.now_ms);
                &&& node.can_handle(message.from, message.rpc, self.now_ms)
                &&& after.nodes == self.nodes.update(message.to as int, next)
                &&& after.messages_come_from(self, replies)
            }),
        ensures
            self.goes_on(after, term),
    {
        let message = self.messages[position].message;
        let to = message.to;
        let from = message.from;
        let rpc = message.rpc;
        let node = self.nodes[to as int];
        let (next, replies) = node.handle(from, rpc, self.now_ms);
        assert(self.is_addressed(message));
        assert(self.is_at_home(to as int));
        assert(self.under_way()[position] == message);
        assert(batch_is_past(self.under_way()[position].rpc));
        assert(rpc !is InstallSnapshot);
        assert(after.nodes[to as int] == next);
        law_entries_stay_past(node, from, rpc, self.now_ms, term);
        law_every_entry_has_an_origin(node, from, rpc, self.now_ms);
        law_handling_keeps_the_shape(node, from, rpc, self.now_ms);
        law_handling_is_addressed(node, from, rpc, self.now_ms);
        lemma_sent_is_past(node, from, rpc, self.now_ms, term);
        after.lemma_queue_past(self, replies, term);
        assert forall|i: int| 0 <= i < after.nodes.len() implies entries_are_past(
            #[trigger] after.nodes[i],
        ) && starts_somewhere(after.nodes[i]) by {
            if i != to {
                assert(after.nodes[i] == self.nodes[i]);
            }
        }
        if self.is_fresh(term) {
            assert(!speaks_of(self.under_way()[position].rpc, term));
            if after.has_no_leader_in(term) {
                assert(!leads_in(after.nodes[to as int], term));
                assert forall|i: int| 0 <= i < after.nodes.len() implies knows_nothing_of(
                    #[trigger] after.nodes[i],
                    term,
                ) by {
                    if i != to {
                        assert(after.nodes[i] == self.nodes[i]);
                    }
                }
            }
            assert forall|id: NodeId|
                after.has_node(id) && leads_in(#[trigger] after.nodes[id as int], term)
                    && after.nodes[id as int].keeps_pace() implies after.is_led_by(id) by {
                if id != to {
                    assert(after.nodes[id as int] == self.nodes[id as int]);
                    assert(!leads_in(self.nodes[id as int], term));
                }
                self.lemma_first_leader(position, after, term);
            }
        }
    }

    proof fn lemma_first_leader(self, position: int, after: Self, term: Term)
        requires
            self.well_formed(),
            self.has_no_bare_snapshot(),
            self.is_grounded(),
            self.is_fresh(term),
            0 <= position < self.messages.len(),
            ({
                let message = self.messages[position].message;
                let node = self.nodes[message.to as int];
                let (next, replies) = node.handle(message.from, message.rpc, self.now_ms);
                &&& node.can_handle(message.from, message.rpc, self.now_ms)
                &&& after.nodes == self.nodes.update(message.to as int, next)
                &&& after.messages_come_from(self, replies)
                &&& leads_in(next, term)
                &&& next.keeps_pace()
            }),
        ensures
            after.is_led_by(self.messages[position].message.to),
    {
        let message = self.messages[position].message;
        let id = message.to;
        let node = self.nodes[id as int];
        let (next, replies) = node.handle(message.from, message.rpc, self.now_ms);
        assert(self.is_addressed(message));
        assert(self.is_at_home(id as int));
        assert(!leads_in(node, term));
        lemma_role_after(
            node,
            message.from,
            message.rpc,
            self.now_ms,
        );
        assert(node.role != Role::Leader);
        lemma_elected(node, message.from, message.rpc, self.now_ms);
        law_handling_keeps_the_shape(node, message.from, message.rpc, self.now_ms);
        law_answered_leader_sends_its_log(node, message.from, message.rpc, self.now_ms);
        let start = next.term_start_index as int;
        lemma_own_messages(next, replies, 0, Set::empty());
        assert(after.nodes[id as int] == next);
        assert forall|i: int| 0 <= i < after.nodes.len() && i != id implies trails(
            #[trigger] after.nodes[i],
            term,
            start,
        ) by {
            assert(after.nodes[i] == self.nodes[i]);
            assert(self.is_at_home(i));
            lemma_ignorant_trails(self.nodes[i], term, start);
        }
        let queue = after.under_way();
        assert forall|k: int| 0 <= k < queue.len() implies is_behind(#[trigger] queue[k], next) by {
            let sent = after.messages[k].message;
            assert(queue[k] == sent);
            if replies.contains(sent) {
                let i = choose|i: int| 0 <= i < replies.len() && replies[i] == sent;
                assert(is_behind(replies[i], next));
            } else {
                let i = choose|i: int|
                    0 <= i < self.messages.len() && (#[trigger] self.messages[i]).message
                        == after.messages[k].message;
                assert(self.under_way()[i] == sent);
                assert(!speaks_of(self.under_way()[i].rpc, term));
                assert(batch_is_past(self.under_way()[i].rpc));
            }
        }
    }

    proof fn lemma_same_queue_goes_on(self, after: Self, term: Term)
        requires
            self.is_grounded(),
            after.nodes == self.nodes,
            after.messages_come_from(self, Seq::empty()),
        ensures
            self.goes_on(after, term),
    {
        after.lemma_queue_past(self, Seq::empty(), term);
        if self.is_fresh(term) {
            assert forall|id: NodeId| after.has_node(id) implies !leads_in(
                #[trigger] after.nodes[id as int],
                term,
            ) by {
                assert(!leads_in(self.nodes[id as int], term));
            }
        }
    }

    proof fn lemma_delivered_goes_on(self, position: int, term: Term)
        requires
            self.well_formed(),
            self.has_no_bare_snapshot(),
            self.is_grounded(),
            0 <= position < self.messages.len(),
        ensures
            self.deliver(position) matches Some(after) ==> self.goes_on(after, term),
    {
        let message = self.messages[position].message;
        let to = message.to;
        let removed = ClusterModel { messages: self.messages.remove(position), ..self };
        let node = self.nodes[to as int];
        removed.lemma_shorter_queue(self, position);
        if !self.is_connected(message.from, to) {
            assert(self.deliver(position) == Some(removed)) by {
                reveal(ClusterModel::deliver);
            }
            self.lemma_same_queue_goes_on(removed, term);
        } else if node.can_handle(message.from, message.rpc, self.now_ms) {
            let (next, replies) = node.handle(message.from, message.rpc, self.now_ms);
            let placed = removed.with_node(to, next);
            assert(self.deliver(position) == placed.enqueue(replies)) by {
                reveal(ClusterModel::deliver);
            }
            if let Some(after) = placed.enqueue(replies) {
                placed.lemma_same_queue(removed);
                placed.lemma_comes_from_more(removed, self, Seq::empty());
                placed.lemma_enqueued(replies);
                after.lemma_comes_from_more(placed, self, replies);
                placed.lemma_enqueue_leaves_nodes(replies);
                self.lemma_heard_goes_on(position, after, term);
            }
        } else {
            assert(self.deliver(position) is None) by {
                reveal(ClusterModel::deliver);
            }
        }
    }

    /// A tick elects nobody.
    proof fn lemma_ticked_goes_on(self, id: NodeId, term: Term)
        requires
            self.well_formed(),
            self.is_grounded(),
            self.has_node(id),
        ensures
            self.ticked(id) matches Some(after) ==> {
                &&& after.is_grounded()
                &&& self.is_fresh(term) ==> after.is_fresh(term)
            },
    {
        let node = self.nodes[id as int];
        assert(self.is_at_home(id as int));
        if node.can_tick(self.now_ms) {
            let (next, messages) = node.tick(self.now_ms);
            let placed = self.with_node(id, next);
            assert(self.ticked(id) == placed.enqueue(messages)) by {
                reveal(ClusterModel::ticked);
            }
            if let Some(after) = placed.enqueue(messages) {
                let any = ClientRequestView::LocalGet { key: Seq::empty() };
                placed.lemma_same_queue(self);
                placed.lemma_enqueued(messages);
                after.lemma_comes_from_more(placed, self, messages);
                placed.lemma_enqueue_leaves_nodes(messages);
                law_leader_sends_its_log(node, any, self.now_ms);
                law_ticking_keeps_the_shape(node, self.now_ms);
                law_entries_stay_past_by_themselves(node, any, self.now_ms, term);
                lemma_own_log_is_past(next, messages, term);
                after.lemma_queue_past(self, messages, term);
                assert(after.nodes[id as int] == next);
                assert forall|i: int| 0 <= i < after.nodes.len() implies entries_are_past(
                    #[trigger] after.nodes[i],
                ) && starts_somewhere(after.nodes[i]) by {
                    if i != id {
                        assert(after.nodes[i] == self.nodes[i]);
                    }
                }
                if self.is_fresh(term) {
                    assert(!leads_in(self.nodes[id as int], term));
                    assert(!leads_in(next, term));
                    assert forall|i: int| 0 <= i < after.nodes.len() implies !leads_in(
                        #[trigger] after.nodes[i],
                        term,
                    ) && knows_nothing_of(after.nodes[i], term) by {
                        if i != id {
                            assert(after.nodes[i] == self.nodes[i]);
                        }
                    }
                }
            }
        } else {
            assert(self.ticked(id) is None) by {
                reveal(ClusterModel::ticked);
            }
        }
    }

    proof fn lemma_all_ticked_goes_on(self, count: nat, term: Term)
        requires
            self.well_formed(),
            self.is_grounded(),
            count <= self.nodes.len(),
        ensures
            self.ticked_first(count) matches Some(after) ==> {
                &&& after.is_grounded()
                &&& self.is_fresh(term) ==> after.is_fresh(term)
            },
        decreases count,
    {
        if count > 0 {
            self.lemma_all_ticked_goes_on((count - 1) as nat, term);
            self.lemma_ticked_first_frame((count - 1) as nat);
            self.lemma_size();
            if let Some(after) = self.ticked_first((count - 1) as nat) {
                after.lemma_ticked_goes_on((count - 1) as NodeId, term);
            }
        }
    }
}

/// In a new cluster nobody has led in any term.
pub proof fn law_new_cluster_is_fresh(size: nat, fault_plan: FaultPlanView, term: Term)
    ensures
        ClusterModel::initial(size, fault_plan).is_grounded(),
        ClusterModel::initial(size, fault_plan).is_fresh(term),
{
}

/// A term that nobody has led in stays so until a step elects a leader of it. Nothing in
/// the cluster is ahead of that first leader, if it has applied what it has committed.
pub proof fn law_first_leader_is_ahead(cluster: ClusterModel, term: Term)
    requires
        cluster.well_formed(),
        cluster.has_no_bare_snapshot(),
        cluster.is_grounded(),
    ensures
        cluster.step() matches Some(next) ==> {
            &&& next.is_grounded()
            &&& cluster.is_fresh(term) && next.has_no_leader_in(term) ==> next.is_fresh(term)
            &&& forall|id: NodeId|
                cluster.is_fresh(term) && next.has_node(id) && leads_in(
                    #[trigger] next.nodes[id as int],
                    term,
                ) && next.nodes[id as int].keeps_pace() ==> next.is_led_by(id)
        },
{
    reveal(ClusterModel::step);
    cluster.lemma_faults_applied();
    let quiet = cluster.faults_applied();
    quiet.lemma_drawn_well_formed();
    law_next_message_is_in_the_window(quiet);
    let (present, position) = quiet.next_ready();
    assert(present.under_way() =~= cluster.under_way());
    assert(present.is_grounded());
    assert(cluster.is_fresh(term) ==> present.is_fresh(term));
    match position {
        Some(at) => {
            present.lemma_delivered_goes_on(at, term);
        },
        None => {
            if present.now_ms < u64::MAX {
                let later = ClusterModel { now_ms: (present.now_ms + 1) as u64, ..present };
                present.lemma_same_nodes_well_formed(later);
                later.lemma_faults_applied();
                let due = later.faults_applied();
                assert(due.under_way() =~= present.under_way());
                assert(due.is_grounded());
                assert(cluster.is_fresh(term) ==> due.is_fresh(term));
                due.lemma_all_ticked_goes_on(cluster.nodes.len(), term);
                if let Some(next) = cluster.step() {
                    if cluster.is_fresh(term) {
                        assert forall|id: NodeId| next.has_node(id) implies !leads_in(
                            #[trigger] next.nodes[id as int],
                            term,
                        ) by {}
                    }
                }
            }
        },
    }
}

} // verus!
