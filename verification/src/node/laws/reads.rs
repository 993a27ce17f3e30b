//! What holds of reads and writes that a leader works on.
use crate::node::laws::law_handling_is_addressed;
use crate::node::laws::law_ticking_is_addressed;
use crate::node::laws::shape::law_clients_keep_the_shape;
use crate::node::laws::shape::law_handling_keeps_the_shape;
use crate::node::laws::shape::law_ticking_keeps_the_shape;
use crate::node::laws::tenure::is_out_of_office;
use crate::node::laws::tenure::law_no_second_tenure_in_a_term;
use crate::node::model::NodeModel;
use crate::node::model::PendingReadModel;
use crate::node::replication::lemma_apply_committed_frame;
use crate::node::PendingRead;
use crate::node::PendingWrite;
use crate::state_machine::StateMachine;
use crate::types::ClientRequestView;
use crate::types::LogIndex;
use crate::types::NodeId;
use crate::types::ReadIndexReply;
use crate::types::Role;
use crate::types::RpcView;
use crate::types::Term;
use vstd::prelude::*;

verus! {

/// A read that is ready sees all that was committed when it began: whatever the
/// leader has become in between, a majority has confirmed it in the read's term and
/// the state has reached the read's barrier, which is no less than the commit index
/// and the start of the term at that time.
pub proof fn law_ready_read_sees_what_was_committed<S: StateMachine>(
    before: NodeModel<S>,
    read: PendingRead,
    later: NodeModel<S>,
)
    requires
        before.start_read().1 matches Ok((started, _)) && started == read,
        later.read_ready(read),
    ensures
        later.role == Role::Leader,
        later.current_term == before.current_term,
        later.last_applied >= before.commit_index,
        later.last_applied >= before.term_start_index,
        later.pending_reads[read.id].acknowledgements.len() >= later.majority(),
{
}

/// In a cluster of more than one, a read that has just begun is not ready: a
/// majority has to confirm the leader first.
pub proof fn law_new_read_waits_for_a_majority<S: StateMachine>(node: NodeModel<S>)
    requires
        node.role == Role::Leader,
        node.peers.len() > 0,
    ensures
        node.start_read().1 matches Ok((read, _)) && !node.start_read().0.read_ready(read),
{
}

/// A read is confirmed only by replies of the leader's term from its peers, each
/// counted once.
pub proof fn law_read_counts_peers_once<S: StateMachine>(
    node: NodeModel<S>,
    from: NodeId,
    reply: ReadIndexReply,
    now_ms: u64,
    id: u64,
)
    requires
        reply.term <= node.current_term,
        node.pending_reads.contains_key(id),
    ensures
        ({
            let after = node.on_read_reply(from, reply, now_ms).0;
            let confirms = {
                &&& node.role == Role::Leader
                &&& reply.term == node.current_term
                &&& node.peers.contains(from)
                &&& reply.request_id == id
                &&& node.pending_reads[id].term == node.current_term
            };
            &&& after.pending_reads.contains_key(id)
            &&& after.pending_reads[id].barrier_index == node.pending_reads[id].barrier_index
            &&& after.pending_reads[id].acknowledgements == (if confirms {
                node.pending_reads[id].acknowledgements.insert(from)
            } else {
                node.pending_reads[id].acknowledgements
            })
        }),
{
}

/// A node that steps down serves no read that it had begun.
pub proof fn law_stepping_down_drops_reads<S: StateMachine>(
    node: NodeModel<S>,
    term: Term,
    now_ms: u64,
    read: PendingRead,
)
    ensures
        !node.stepped_down(term, now_ms).read_ready(read),
{
}

/// Only the leader begins a read or a write; another node refuses and points to the
/// leader it knows.
pub proof fn law_only_the_leader_serves<S: StateMachine>(
    node: NodeModel<S>,
    request: ClientRequestView,
)
    requires
        node.role != Role::Leader,
    ensures
        node.start_read().0 == node,
        node.start_write(request).0 == node,
        node.start_read().1 matches Err(reply) && !reply.success && reply.leader_id
            == node.leader_id,
        node.start_write(request).1 matches Err(reply) && !reply.success && reply.leader_id
            == node.leader_id,
{
}

/// A write that has just begun is not done: it has to be committed first.
pub proof fn law_new_write_is_not_done<S: StateMachine>(
    node: NodeModel<S>,
    request: ClientRequestView,
    write: PendingWrite,
)
    requires
        node.well_formed(),
        node.commit_index <= node.last_index(),
        node.last_index() + 1 < usize::MAX,
        node.start_write(request).1 matches Ok((started, _)) && started == write,
    ensures
        !node.start_write(request).0.write_done(write),
{
}

/// Something that happens to a node.
pub enum EventView {
    Message { from: NodeId, rpc: RpcView, now_ms: u64 },
    Tick { now_ms: u64 },
    BeginRead,
    BeginWrite { request: ClientRequestView },
    FinishRead { id: u64 },
    Compact { index: LogIndex },
    Transfer { target: NodeId, now_ms: u64 },
}

impl<S: StateMachine> NodeModel<S> {
    /// The event stays within what the machine can count.
    pub open spec fn can_meet(self, event: EventView) -> bool {
        match event {
            EventView::Message { from, rpc, now_ms } => self.can_handle(from, rpc, now_ms),
            EventView::Tick { now_ms } => self.can_tick(now_ms),
            EventView::BeginWrite { request } => self.last_index() + 1 < usize::MAX,
            EventView::Compact { index } => self.last_applied < usize::MAX,
            _ => true,
        }
    }

    pub open spec fn after_event(self, event: EventView) -> Self {
        match event {
            EventView::Message { from, rpc, now_ms } => self.handle(from, rpc, now_ms).0,
            EventView::Tick { now_ms } => self.tick(now_ms).0,
            EventView::BeginRead => self.start_read().0,
            EventView::BeginWrite { request } => self.start_write(request).0,
            EventView::FinishRead { id } => NodeModel {
                pending_reads: self.pending_reads.remove(id),
                ..self
            },
            EventView::Compact { index } => self.compact_to(index).0,
            EventView::Transfer { target, now_ms } => self.transfer_leadership(target, now_ms).0,
        }
    }

    /// The node after the events, one after the other, if each stays within what the
    /// machine can count.
    pub open spec fn after_events(self, events: Seq<EventView>) -> Option<Self>
        decreases events.len(),
    {
        if events.len() == 0 {
            Some(self)
        } else {
            match self.after_events(events.drop_last()) {
                Some(before) if before.can_meet(events.last()) => Some(
                    before.after_event(events.last()),
                ),
                _ => None,
            }
        }
    }
}

/// The event is `peer`'s answer to the question that goes with the read.
pub open spec fn confirms(event: EventView, read: PendingRead, peer: NodeId) -> bool {
    event matches EventView::Message { from, rpc: RpcView::ReadIndexReply(reply), now_ms }
        && from == peer && reply.term == read.term && reply.request_id == read.id
}

/// Those who confirm the leader for the read: the leader itself and its peers whose
/// answers are among the events.
pub open spec fn confirmers<S: StateMachine>(
    node: NodeModel<S>,
    read: PendingRead,
    events: Seq<EventView>,
) -> Set<NodeId> {
    Set::new(
        |peer: NodeId|
            peer == node.id || node.peers.contains(peer) && exists|k: int|
                0 <= k < events.len() && confirms(#[trigger] events[k], read, peer),
    )
}

/// What becomes of the reads of a leader that leads on.
spec fn reads_after<S: StateMachine>(node: NodeModel<S>, event: EventView) -> Map<
    u64,
    PendingReadModel,
> {
    match event {
        EventView::Message { from, rpc: RpcView::ReadIndexReply(reply), now_ms } => {
            if node.hears_peer(from, reply.term) && node.pending_reads.contains_key(
                reply.request_id,
            ) && node.pending_reads[reply.request_id].term == node.current_term {
                let read = node.pending_reads[reply.request_id];
                node.pending_reads.insert(
                    reply.request_id,
                    PendingReadModel {
                        acknowledgements: read.acknowledgements.insert(from),
                        ..read
                    },
                )
            } else {
                node.pending_reads
            }
        },
        EventView::BeginRead => node.pending_reads.insert(
            node.next_read_id,
            PendingReadModel {
                term: node.current_term,
                barrier_index: node.read_barrier(),
                acknowledgements: Set::empty().insert(node.id),
            },
        ),
        EventView::FinishRead { id } => node.pending_reads.remove(id),
        _ => node.pending_reads,
    }
}

proof fn lemma_reads_after_message<S: StateMachine>(
    node: NodeModel<S>,
    from: NodeId,
    rpc: RpcView,
    now_ms: u64,
)
    requires
        node.role == Role::Leader,
        node.handle(from, rpc, now_ms).0.role == Role::Leader,
    ensures
        ({
            let after = node.handle(from, rpc, now_ms).0;
            &&& after.pending_reads == reads_after(node, EventView::Message { from, rpc, now_ms })
            &&& after.next_read_id == node.next_read_id
        }),
{
    match rpc {
        RpcView::AppendEntries(request) => {
            let led = node.following(request.term, now_ms).led_by(request.leader_id, now_ms);
            lemma_apply_committed_frame(led.appended(request));
        },
        RpcView::AppendEntriesReply(reply) => {
            let acknowledged = node.contacted(from, now_ms).acknowledged(from, reply.match_index);
            let point = acknowledged.commit_point(acknowledged.last_index()) as LogIndex;
            lemma_apply_committed_frame(NodeModel { commit_index: point, ..acknowledged });
        },
        RpcView::InstallSnapshotRequest(request) => {
            let present = node.following(request.term, now_ms);
            assert(present.install_snapshot(request.snapshot).0.role == present.role);
        },
        RpcView::InstallSnapshotChunk(chunk) => {
            let ready = node.receiving(chunk, now_ms);
            let finished = ready.finish_transfer(from, ready.arrived(chunk), now_ms).0;
            assert(finished.role == ready.role);
            assert(ready.storing(chunk).role == ready.role);
        },
        _ => {},
    }
}

proof fn lemma_after_event<S: StateMachine>(node: NodeModel<S>, event: EventView, term: Term)
    requires
        node.well_formed(),
        node.can_meet(event),
        is_out_of_office(node, term) || node.role == Role::Leader && node.current_term == term,
    ensures
        ({
            let after = node.after_event(event);
            &&& after.well_formed()
            &&& after.id == node.id
            &&& after.peers == node.peers
            &&& {
                ||| is_out_of_office(after, term)
                ||| {
                    &&& node.role == Role::Leader
                    &&& node.current_term == term
                    &&& after.role == Role::Leader
                    &&& after.current_term == term
                    &&& after.pending_reads == reads_after(node, event)
                    &&& after.next_read_id == (if event is BeginRead {
                        node.next_read_id.wrapping_add(1)
                    } else {
                        node.next_read_id
                    })
                }
            }
        }),
{
    let after = node.after_event(event);
    match event {
        EventView::Message { from, rpc, now_ms } => {
            law_handling_keeps_the_shape(node, from, rpc, now_ms);
            law_handling_is_addressed(node, from, rpc, now_ms);
            law_no_second_tenure_in_a_term(node, from, rpc, now_ms, term);
            if !is_out_of_office(after, term) {
                lemma_reads_after_message(node, from, rpc, now_ms);
            }
        },
        EventView::Tick { now_ms } => {
            law_ticking_keeps_the_shape(node, now_ms);
            law_ticking_is_addressed(node, now_ms);
        },
        EventView::BeginWrite { request } => {
            law_clients_keep_the_shape(node, request);
        },
        _ => {},
    }
}

/// A read is confirmed by exactly those who answered its question: as long as the
/// leader leads in the read's term and has not finished the read, the read is there with
/// its barrier, and its acknowledgements are the leader itself and the peers whose
/// answers, for this read and this term, it has received since the read began. Numbers
/// of reads come round again after more reads than can be counted here.
pub proof fn law_read_is_confirmed_by_its_repliers<S: StateMachine>(
    node: NodeModel<S>,
    read: PendingRead,
    events: Seq<EventView>,
)
    requires
        node.well_formed(),
        node.start_read().1 matches Ok((started, _)) && started == read,
        node.start_read().0.after_events(events) is Some,
        events.len() < u64::MAX,
        forall|k: int|
            0 <= k < events.len() ==> (#[trigger] events[k]) != (EventView::FinishRead {
                id: read.id,
            }),
    ensures
        ({
            let later = node.start_read().0.after_events(events)->0;
            &&& later.role == Role::Leader && later.current_term == read.term ==> {
                &&& later.pending_reads.contains_key(read.id)
                &&& later.pending_reads[read.id] == (PendingReadModel {
                    term: read.term,
                    barrier_index: read.barrier_index,
                    acknowledgements: confirmers(node, read, events),
                })
            }
            &&& later.read_ready(read) <==> {
                &&& later.role == Role::Leader
                &&& later.current_term == read.term
                &&& later.commit_index >= read.barrier_index
                &&& later.last_applied >= read.barrier_index
                &&& confirmers(node, read, events).len() >= node.majority()
            }
        }),
{
    law_clients_keep_the_shape(node, ClientRequestView::LocalGet { key: Seq::empty() });
    lemma_confirmed(node, read, events);
}

proof fn lemma_confirmed<S: StateMachine>(
    node: NodeModel<S>,
    read: PendingRead,
    events: Seq<EventView>,
)
    requires
        node.well_formed(),
        node.start_read().0.well_formed(),
        node.start_read().1 matches Ok((started, _)) && started == read,
        node.start_read().0.after_events(events) is Some,
        events.len() < u64::MAX,
        forall|k: int|
            0 <= k < events.len() ==> (#[trigger] events[k]) != (EventView::FinishRead {
                id: read.id,
            }),
    ensures
        ({
            let later = node.start_read().0.after_events(events)->0;
            &&& later.well_formed()
            &&& later.id == node.id
            &&& later.peers == node.peers
            &&& {
                ||| is_out_of_office(later, read.term)
                ||| {
                    &&& later.role == Role::Leader
                    &&& later.current_term == read.term
                    &&& later.pending_reads.contains_key(read.id)
                    &&& later.pending_reads[read.id] == (PendingReadModel {
                        term: read.term,
                        barrier_index: read.barrier_index,
                        acknowledgements: confirmers(node, read, events),
                    })
                    &&& read_id_is_past(later.next_read_id, read.id, events.len())
                }
            }
        }),
    decreases events.len(),
{
    let begun = node.start_read().0;
    if events.len() == 0 {
        assert(confirmers(node, read, events) =~= Set::empty().insert(node.id));
        assert(read_id_is_past(begun.next_read_id, read.id, 0));
    } else {
        let earlier = events.drop_last();
        let event = events.last();
        assert forall|k: int| 0 <= k < earlier.len() implies (#[trigger] earlier[k]) != (
        EventView::FinishRead { id: read.id }) by {
            assert(earlier[k] == events[k]);
        }
        lemma_confirmed(node, read, earlier);
        let before = begun.after_events(earlier)->0;
        let later = begun.after_events(events)->0;
        lemma_after_event(before, event, read.term);
        lemma_confirmers_grow(node, read, events);
        assert(events[events.len() - 1] == event);
        if !is_out_of_office(later, read.term) {
            assert(before.next_read_id != read.id);
            assert(later.pending_reads[read.id].acknowledgements =~= confirmers(
                node,
                read,
                events,
            ));
        }
    }
}

proof fn lemma_no_read_comes_by_message<S: StateMachine>(
    node: NodeModel<S>,
    from: NodeId,
    rpc: RpcView,
    now_ms: u64,
    id: u64,
)
    requires
        !node.pending_reads.contains_key(id),
    ensures
        !node.handle(from, rpc, now_ms).0.pending_reads.contains_key(id),
{
    match rpc {
        RpcView::AppendEntries(request) => {
            let led = node.following(request.term, now_ms).led_by(request.leader_id, now_ms);
            lemma_apply_committed_frame(led.appended(request));
        },
        RpcView::AppendEntriesReply(reply) => {
            let acknowledged = node.contacted(from, now_ms).acknowledged(from, reply.match_index);
            let point = acknowledged.commit_point(acknowledged.last_index()) as LogIndex;
            lemma_apply_committed_frame(NodeModel { commit_index: point, ..acknowledged });
        },
        RpcView::InstallSnapshotRequest(request) => {
            let present = node.following(request.term, now_ms);
            assert(present.install_snapshot(request.snapshot).0.pending_reads
                == present.pending_reads);
        },
        RpcView::InstallSnapshotChunk(chunk) => {
            let ready = node.receiving(chunk, now_ms);
            let finished = ready.finish_transfer(from, ready.arrived(chunk), now_ms).0;
            assert(finished.pending_reads == ready.pending_reads);
            assert(ready.storing(chunk).pending_reads == ready.pending_reads);
        },
        _ => {},
    }
}

/// A read that is not there, finished or never begun, does not come back by itself:
/// whatever happens to the node, it is there again only once a read begins, and so is
/// never ready before.
pub proof fn law_finished_read_does_not_come_back<S: StateMachine>(
    node: NodeModel<S>,
    id: u64,
    events: Seq<EventView>,
)
    requires
        !node.pending_reads.contains_key(id),
        node.after_events(events) is Some,
        forall|k: int| 0 <= k < events.len() ==> (#[trigger] events[k]) !is BeginRead,
    ensures
        ({
            let later = node.after_events(events)->0;
            &&& !later.pending_reads.contains_key(id)
            &&& forall|read: PendingRead| read.id == id ==> !#[trigger] later.read_ready(read)
        }),
    decreases events.len(),
{
    if events.len() > 0 {
        let earlier = events.drop_last();
        let event = events.last();
        assert forall|k: int| 0 <= k < earlier.len() implies (
        #[trigger] earlier[k]) !is BeginRead by {
            assert(earlier[k] == events[k]);
        }
        law_finished_read_does_not_come_back(node, id, earlier);
        assert(events[events.len() - 1] == event);
        let before = node.after_events(earlier)->0;
        if let EventView::Message { from, rpc, now_ms } = event {
            lemma_no_read_comes_by_message(before, from, rpc, now_ms, id);
        }
    }
}

/// A read that was finished is never ready again, whatever happens to the node, other
/// reads that begin included. Numbers of reads come round again after more reads than can
/// be counted here.
pub proof fn law_finished_read_is_never_ready<S: StateMachine>(
    node: NodeModel<S>,
    read: PendingRead,
    before: Seq<EventView>,
    events: Seq<EventView>,
)
    requires
        node.well_formed(),
        node.start_read().1 matches Ok((started, _)) && started == read,
        before.len() + events.len() + 1 < u64::MAX,
        node.start_read().0.after_events(
            before.push((EventView::FinishRead { id: read.id })) + events,
        ) is Some,
    ensures
        ({
            let finish = EventView::FinishRead { id: read.id };
            let later = node.start_read().0.after_events(before.push(finish) + events)->0;
            !later.read_ready(read)
        }),
{
    assert(node.start_read().0.well_formed()) by {
        law_clients_keep_the_shape(node, ClientRequestView::LocalGet { key: Seq::empty() });
    }
    lemma_finished(node, read, before, events);
}

/// The read's number is not given again, and a read that is finished is not there.
proof fn lemma_number_is_past<S: StateMachine>(
    node: NodeModel<S>,
    read: PendingRead,
    events: Seq<EventView>,
)
    requires
        node.start_read().0.well_formed(),
        node.start_read().1 matches Ok((started, _)) && started == read,
        node.start_read().0.after_events(events) is Some,
        events.len() < u64::MAX,
    ensures
        ({
            let later = node.start_read().0.after_events(events)->0;
            &&& later.well_formed()
            &&& {
                ||| is_out_of_office(later, read.term)
                ||| {
                    &&& later.role == Role::Leader
                    &&& later.current_term == read.term
                    &&& read_id_is_past(later.next_read_id, read.id, events.len())
                }
            }
        }),
    decreases events.len(),
{
    let begun = node.start_read().0;
    if events.len() == 0 {
        assert(read_id_is_past(begun.next_read_id, read.id, 0));
    } else {
        let earlier = events.drop_last();
        lemma_number_is_past(node, read, earlier);
        lemma_after_event(begun.after_events(earlier)->0, events.last(), read.term);
    }
}

proof fn lemma_finished<S: StateMachine>(
    node: NodeModel<S>,
    read: PendingRead,
    before: Seq<EventView>,
    events: Seq<EventView>,
)
    requires
        node.start_read().0.well_formed(),
        node.start_read().1 matches Ok((started, _)) && started == read,
        before.len() + events.len() + 1 < u64::MAX,
        ({
            let finish = EventView::FinishRead { id: read.id };
            node.start_read().0.after_events(before.push(finish) + events) is Some
        }),
    ensures
        ({
            let finish = EventView::FinishRead { id: read.id };
            let later = node.start_read().0.after_events(before.push(finish) + events)->0;
            is_out_of_office(later, read.term) || !later.pending_reads.contains_key(read.id)
        }),
    decreases events.len(),
{
    let finish = EventView::FinishRead { id: read.id };
    let all = before.push(finish) + events;
    if events.len() == 0 {
        assert(all =~= before.push(finish));
        assert(all.drop_last() =~= before);
    } else {
        let earlier = events.drop_last();
        assert(all.drop_last() =~= before.push(finish) + earlier);
        lemma_finished(node, read, before, earlier);
        lemma_number_is_past(node, read, all.drop_last());
        let last = node.start_read().0.after_events(all.drop_last())->0;
        lemma_after_event(last, all.last(), read.term);
        assert(last.next_read_id != read.id || is_out_of_office(last, read.term));
    }
}

/// `next` comes after `id` by at least one and at most `count` and one, counted round.
spec fn read_id_is_past(next: u64, id: u64, count: nat) -> bool {
    ||| id < next <= id + count + 1
    ||| next + u64::MAX + 1 <= id + count + 1
}

proof fn lemma_confirmers_grow<S: StateMachine>(
    node: NodeModel<S>,
    read: PendingRead,
    events: Seq<EventView>,
)
    requires
        events.len() > 0,
    ensures
        forall|peer: NodeId| #[trigger]
            confirmers(node, read, events).contains(peer) <==> confirmers(
                node,
                read,
                events.drop_last(),
            ).contains(peer) || node.peers.contains(peer) && confirms(events.last(), read, peer),
{
    let earlier = events.drop_last();
    assert forall|peer: NodeId| #[trigger]
        confirmers(node, read, events).contains(peer) <==> confirmers(
            node,
            read,
            earlier,
        ).contains(peer) || node.peers.contains(peer) && confirms(events.last(), read, peer) by {
        if confirmers(node, read, events).contains(peer) && peer != node.id {
            let k = choose|k: int|
                0 <= k < events.len() && confirms(#[trigger] events[k], read, peer);
            if k < earlier.len() {
                assert(confirms(earlier[k], read, peer));
            }
        }
        if confirmers(node, read, earlier).contains(peer) && peer != node.id {
            let k = choose|k: int|
                0 <= k < earlier.len() && confirms(#[trigger] earlier[k], read, peer);
            assert(confirms(events[k], read, peer));
        }
        if confirms(events.last(), read, peer) {
            assert(confirms(events[events.len() - 1], read, peer));
        }
    }
}

} // verus!
