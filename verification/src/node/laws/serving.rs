//! What a node answers its clients, and how it serves their reads and writes.
use crate::error::Error;
use crate::node::laws::replicating::known_of;
use crate::node::laws::slots::end_of;
use crate::node::laws::slots::is_most_of;
use crate::node::laws::slots::is_sole;
use crate::node::laws::slots::law_log_is_counted_by_its_slots;
use crate::node::laws::slots::law_majority_is_more_than_half;
use crate::node::laws::slots::reaches_peers;
use crate::node::laws::slots::slot_of;
use crate::node::laws::voting::is_timed;
use crate::node::laws::voting::starts_over;
use crate::node::model::clock_has_room;
use crate::node::model::NodeModel;
use crate::node::model::PendingReadModel;
use crate::node::PendingRead;
use crate::node::PendingWrite;
use crate::state_machine::MemoryStateMachine;
use crate::state_machine::StateMachine;
use crate::types::ClientReplyView;
use crate::types::ClientRequestView;
use crate::types::CommandView;
use crate::types::LogEntryView;
use crate::types::LogIndex;
use crate::types::MessageView;
use crate::types::NodeId;
use crate::types::ReadIndex;
use crate::types::ReadIndexReply;
use crate::types::Role;
use crate::types::RpcView;
use crate::types::TimeoutNow;
use vstd::prelude::*;

verus! {

/// A local read gives what the node's own state holds, whatever the node's role: a value
/// or nothing where the state has none, and a refusal only where the state cannot be
/// read. It points to the leader that the node knows.
pub proof fn law_local_read_gives_what_the_state_holds<S: StateMachine>(
    node: NodeModel<S>,
    key: Seq<char>,
)
    ensures
        ({
            let reply = node.direct_reply(ClientRequestView::LocalGet { key });
            &&& reply.leader_id == node.leader_id
            &&& S::lookup(node.state, key) matches Ok(value) ==> reply.success && reply.response
                == value
            &&& S::lookup(node.state, key) is Err ==> !reply.success && reply.response is None
        }),
{
}

/// What a sequence of log entries leaves at a key: what the last of them that names the
/// key put there, or nothing if it deleted it; what was there before if none names it.
pub open spec fn left_at(
    entries: Seq<LogEntryView>,
    key: Seq<char>,
    before: Option<Seq<char>>,
) -> Option<Seq<char>>
    decreases entries.len(),
{
    if entries.len() == 0 {
        before
    } else {
        match entries.last().command {
            CommandView::Put { key: other, value } if other == key => Some(value),
            CommandView::Delete { key: other } if other == key => None,
            _ => left_at(entries.drop_last(), key, before),
        }
    }
}

/// The committed entries behind the snapshot.
pub open spec fn committed_entries(node: NodeModel<MemoryStateMachine>) -> Seq<LogEntryView> {
    if node.log_base_index == 0 {
        node.log.take(node.commit_index as int)
    } else {
        node.log.subrange(1, node.commit_index - node.log_base_index + 1)
    }
}

/// What the snapshot holds at a key.
pub open spec fn kept_at(node: NodeModel<MemoryStateMachine>, key: Seq<char>) -> Option<Seq<char>> {
    if node.origin().contains_key(key) {
        Some(node.origin()[key])
    } else {
        None
    }
}

proof fn lemma_replayed_leaves(node: NodeModel<MemoryStateMachine>, index: int, key: Seq<char>)
    requires
        node.is_consistent(),
        node.log_base_index <= index <= node.commit_index,
    ensures
        ({
            let data = node.replayed(index);
            let count = index - node.log_base_index;
            let entries = committed_entries(node).take(count);
            left_at(entries, key, kept_at(node, key)) == (if data.contains_key(key) {
                Some(data[key])
            } else {
                None
            })
        }),
    decreases index - node.log_base_index,
{
    let count = index - node.log_base_index;
    let all = committed_entries(node);
    let entries = all.take(count);
    if count > 0 {
        lemma_replayed_leaves(node, index - 1, key);
        assert(entries.drop_last() =~= all.take(count - 1));
        assert(entries.last() == node.log[index - node.first_index()]);
    }
}

/// In a node whose state is what its committed log makes of its snapshot, a local read
/// gives what the last committed write of the key left there, or what the snapshot holds
/// if no entry behind it writes the key.
pub proof fn law_local_read_gives_the_last_committed_write(
    node: NodeModel<MemoryStateMachine>,
    key: Seq<char>,
)
    requires
        node.is_consistent(),
    ensures
        ({
            let reply = node.direct_reply(ClientRequestView::LocalGet { key });
            &&& reply.success
            &&& reply.leader_id == node.leader_id
            &&& reply.response == left_at(committed_entries(node), key, kept_at(node, key))
        }),
{
    let all = committed_entries(node);
    lemma_replayed_leaves(node, node.commit_index as int, key);
    assert(all.take(all.len() as int) =~= all);
}

/// Every other request is refused by the direct way: a node that does not lead points to
/// the leader it knows, and the leader says what is missing.
pub proof fn law_other_requests_are_refused_directly<S: StateMachine>(
    node: NodeModel<S>,
    request: ClientRequestView,
)
    requires
        request !is LocalGet,
    ensures
        ({
            let reply = node.direct_reply(request);
            &&& !reply.success
            &&& node.role != Role::Leader ==> reply.leader_id == node.leader_id && reply.response
                is None
            &&& node.role == Role::Leader ==> reply.leader_id == Some(node.id)
            &&& node.role == Role::Leader && request is Get ==> reply.response == Some(
                "read requires a ReadIndex lifecycle"@,
            )
            &&& node.role == Role::Leader && request !is Get ==> reply.response == Some(
                "pending write requires proposal lifecycle"@,
            )
        }),
{
}

/// A leader begins every read: under the next number, in its term, behind what it has
/// committed and where its term starts, with itself as the first to confirm it; and asks
/// its peers to confirm. Any other node refuses and points to the leader it knows.
pub proof fn law_leader_begins_a_read<S: StateMachine>(node: NodeModel<S>)
    requires
        node.well_formed(),
    ensures
        ({
            let (after, result) = node.start_read();
            let barrier = if node.commit_index > node.term_start_index {
                node.commit_index
            } else {
                node.term_start_index
            };
            &&& node.role == Role::Leader ==> {
                &&& result matches Ok((read, sent))
                &&& read == (PendingRead {
                    id: node.next_read_id,
                    term: node.current_term,
                    barrier_index: barrier,
                })
                &&& reaches_peers(
                    node,
                    sent,
                    RpcView::ReadIndex(
                        (ReadIndex {
                            term: node.current_term,
                            leader_id: node.id,
                            request_id: node.next_read_id,
                            commit_index: barrier,
                        }),
                    ),
                )
                &&& after == (NodeModel {
                    next_read_id: node.next_read_id.wrapping_add(1),
                    pending_reads: node.pending_reads.insert(
                        node.next_read_id,
                        (PendingReadModel {
                            term: node.current_term,
                            barrier_index: barrier,
                            acknowledgements: Set::empty().insert(node.id),
                        }),
                    ),
                    ..node
                })
            }
            &&& node.role != Role::Leader ==> after == node && result == Err::<
                (PendingRead, Seq<MessageView>),
                ClientReplyView,
            >((ClientReplyView { success: false, leader_id: node.leader_id, response: None }))
        }),
{
}

/// A read is ready exactly if the node leads in the read's term, has committed and
/// applied all up to the read's barrier, still has the read, and more than half of the
/// cluster have confirmed it.
pub proof fn law_read_is_ready_once_confirmed_and_applied<S: StateMachine>(
    node: NodeModel<S>,
    read: PendingRead,
)
    ensures
        node.read_ready(read) <==> {
            &&& node.role == Role::Leader
            &&& node.current_term == read.term
            &&& node.commit_index >= read.barrier_index
            &&& node.last_applied >= read.barrier_index
            &&& node.pending_reads.contains_key(read.id)
            &&& node.pending_reads[read.id].term == read.term
            &&& node.pending_reads[read.id].barrier_index == read.barrier_index
            &&& is_most_of(node, node.pending_reads[read.id].acknowledgements.len())
        },
{
    law_majority_is_more_than_half(node, node.pending_reads[read.id].acknowledgements.len());
}

/// A node that is asked to confirm a leader follows it, if the leader asks itself and its
/// term is not behind, and answers with its term then, which confirms the leader only if
/// it is the leader's.
pub proof fn law_node_confirms_its_leader<S: StateMachine>(
    node: NodeModel<S>,
    from: NodeId,
    request: ReadIndex,
    now_ms: u64,
)
    requires
        node.well_formed(),
        clock_has_room(now_ms),
    ensures
        ({
            let (after, sent) = node.handle(from, RpcView::ReadIndex(request), now_ms);
            let follows = request.term >= node.current_term && request.leader_id == from;
            &&& is_sole(
                node,
                sent,
                from,
                RpcView::ReadIndexReply(
                    (ReadIndexReply {
                        term: if follows {
                            request.term
                        } else {
                            node.current_term
                        },
                        request_id: request.request_id,
                        applied_index: node.last_applied,
                    }),
                ),
            )
            &&& !follows ==> after == node
            &&& follows ==> {
                &&& after.role == Role::Follower
                &&& after.current_term == request.term
                &&& is_timed(after, now_ms)
                &&& after == (NodeModel {
                    leader_id: Some(from),
                    last_leader_contact: now_ms,
                    rng_state: after.rng_state,
                    election_deadline: after.election_deadline,
                    ..node.following(request.term, now_ms)
                })
            }
        }),
{
}

/// A confirmation counts for the read that it names, if it is of the leader's term, comes
/// from a peer and the read is of that term; it counts for no other read.
pub proof fn law_confirmation_counts_for_its_read<S: StateMachine>(
    node: NodeModel<S>,
    from: NodeId,
    reply: ReadIndexReply,
    now_ms: u64,
)
    requires
        node.well_formed(),
        clock_has_room(now_ms),
    ensures
        ({
            let (after, sent) = node.handle(from, RpcView::ReadIndexReply(reply), now_ms);
            let heard = {
                &&& node.role == Role::Leader
                &&& reply.term == node.current_term
                &&& node.peers.contains(from)
            };
            let asked = node.pending_reads.contains_key(reply.request_id)
                && node.pending_reads[reply.request_id].term == node.current_term;
            &&& sent.len() == 0
            &&& reply.term > node.current_term ==> starts_over(node, after, reply.term, now_ms)
            &&& reply.term <= node.current_term && !heard ==> after == node
            &&& heard ==> after == (NodeModel {
                last_quorum_contact: node.last_quorum_contact.insert(from, now_ms),
                pending_reads: after.pending_reads,
                ..node
            })
            &&& heard && !asked ==> after.pending_reads == node.pending_reads
            &&& heard && asked ==> after.pending_reads == node.pending_reads.insert(
                reply.request_id,
                (PendingReadModel {
                    acknowledgements: node.pending_reads[reply.request_id].acknowledgements.insert(
                        from,
                    ),
                    ..node.pending_reads[reply.request_id]
                }),
            )
        }),
{
}

/// A leader begins every write: the command goes into its log behind all that is there,
/// in its term, and every peer is sent what it is to have next. Any other node refuses
/// and points to the leader it knows; and so does a leader that is asked for no write.
pub proof fn law_leader_begins_a_write<S: StateMachine>(
    node: NodeModel<S>,
    request: ClientRequestView,
)
    requires
        node.well_formed(),
        end_of(node) + 1 < usize::MAX,
    ensures
        ({
            let (after, result) = node.start_write(request);
            let begins = node.role == Role::Leader && (request is Put || request is Delete);
            let command = match request {
                ClientRequestView::Put { key, value } => CommandView::Put { key, value },
                ClientRequestView::Delete { key } => CommandView::Delete { key },
                _ => CommandView::Noop,
            };
            &&& begins ==> {
                &&& result matches Ok((write, sent))
                &&& write == (PendingWrite {
                    index: (end_of(node) + 1) as LogIndex,
                    term: node.current_term,
                })
                &&& after == (NodeModel {
                    log: node.log.push((LogEntryView { term: node.current_term, command })),
                    match_index: node.match_index.insert(
                        node.id,
                        (end_of(node) + 1) as LogIndex,
                    ),
                    ..node
                })
                &&& sent.len() == node.peers.len()
                &&& forall|i: int|
                    0 <= i < sent.len() ==> #[trigger] sent[i] == after.append_message(
                        node.peers[i],
                    )
            }
            &&& !begins ==> after == node && result == Err::<
                (PendingWrite, Seq<MessageView>),
                ClientReplyView,
            >(
                (ClientReplyView {
                    success: false,
                    leader_id: if node.role == Role::Leader {
                        Some(node.id)
                    } else {
                        node.leader_id
                    },
                    response: None,
                }),
            )
        }),
{
    law_log_is_counted_by_its_slots(node, 0);
}

/// A write is done exactly if the slot at its index is of its term, committed and applied.
pub proof fn law_write_is_done_once_committed_and_applied<S: StateMachine>(
    node: NodeModel<S>,
    write: PendingWrite,
)
    requires
        node.well_formed(),
        write.index > 0,
    ensures
        node.write_done(write) <==> {
            &&& slot_of(node, write.index as int) matches Some(slot) && slot.term == write.term
            &&& node.commit_index >= write.index
            &&& node.last_applied >= write.index
        },
{
    law_log_is_counted_by_its_slots(node, write.index as int);
}

/// A leader hands over to any of its peers: at once, if the peer is known to hold the whole
/// log, and otherwise it sends the peer what is to come next; either way it means to hand
/// over from now on. A node that does not lead refuses, and so does a leader that is asked
/// to hand over to no peer.
pub proof fn law_leader_hands_over_to_a_peer<S: StateMachine>(
    node: NodeModel<S>,
    target: NodeId,
    now_ms: u64,
)
    requires
        node.well_formed(),
    ensures
        ({
            let (after, result) = node.transfer_leadership(target, now_ms);
            let agrees = node.role == Role::Leader && node.peers.contains(target);
            &&& node.role != Role::Leader ==> result == Err::<Seq<MessageView>, Error>(
                Error::NotLeader,
            )
            &&& node.role == Role::Leader && !agrees ==> result == Err::<Seq<MessageView>, Error>(
                Error::TransferTargetNotPeer,
            )
            &&& !agrees ==> after == node
            &&& agrees ==> {
                &&& after == (NodeModel {
                    leader_transfer_target: Some(target),
                    last_quorum_contact: after.last_quorum_contact,
                    ..node
                })
                &&& after.last_quorum_contact == (if node.last_quorum_contact.contains_key(target) {
                    node.last_quorum_contact
                } else {
                    node.last_quorum_contact.insert(target, now_ms)
                })
                &&& result matches Ok(sent) && {
                    &&& known_of(node, target) >= end_of(node) ==> is_sole(
                        node,
                        sent,
                        target,
                        RpcView::TimeoutNow(
                            (TimeoutNow { term: node.current_term, leader_id: node.id }),
                        ),
                    )
                    &&& known_of(node, target) < end_of(node) ==> sent.len() == 1 && sent[0]
                        == after.append_message(target)
                }
            }
        }),
{
    law_log_is_counted_by_its_slots(node, 0);
}

} // verus!
