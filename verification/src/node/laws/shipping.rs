//! How a node takes, installs and sends snapshots.
use crate::codec::parsed_snapshot;
use crate::codec::snapshot_bytes;
use crate::codec::transfer_id;
use crate::error::Error;
use crate::kv_map::ordered;
use crate::node::laws::replicating::known_of;
use crate::node::laws::replicating::next_of;
use crate::node::laws::slots::end_of;
use crate::node::laws::slots::is_sole;
use crate::node::laws::slots::law_log_is_counted_by_its_slots;
use crate::node::laws::slots::slot_of;
use crate::node::laws::voting::is_timed;
use crate::node::laws::voting::starts_over;
use crate::node::model::clock_has_room;
use crate::node::model::NodeModel;
use crate::node::model::PartialSnapshotModel;
use crate::node::SnapshotInstallResult;
use crate::state_machine::StateMachine;
use crate::types::CommandView;
use crate::types::InstallSnapshotChunkReply;
use crate::types::InstallSnapshotChunkView;
use crate::types::InstallSnapshotReply;
use crate::types::InstallSnapshotRequestView;
use crate::types::LogEntryView;
use crate::types::LogIndex;
use crate::types::MessageView;
use crate::types::NodeId;
use crate::types::Role;
use crate::types::RpcView;
use crate::types::SnapshotView;
use vstd::prelude::*;

verus! {

/// A snapshot is in order: of the format of today, itself and its state, past the start
/// of the log, of one index throughout, and with its keys in strictly rising order.
pub open spec fn is_in_order(snapshot: SnapshotView) -> bool {
    &&& snapshot.version == 1
    &&& snapshot.state.version == 1
    &&& snapshot.last_included_index > 0
    &&& snapshot.state.last_applied == snapshot.last_included_index
    &&& ordered(snapshot.state.data)
}

/// A snapshot is valid exactly if it is in order; what is wrong is told in a fixed order.
pub proof fn law_valid_snapshot_is_in_order(snapshot: SnapshotView)
    ensures
        snapshot.valid() <==> is_in_order(snapshot),
        snapshot.version != 1 || snapshot.state.version != 1 ==> snapshot.validity() == Err::<
            (),
            Error,
        >(Error::UnsupportedSnapshotVersion),
        snapshot.version == 1 && snapshot.state.version == 1 ==> {
            &&& snapshot.last_included_index == 0 ==> snapshot.validity() == Err::<(), Error>(
                Error::ZeroSnapshotBoundary,
            )
            &&& snapshot.last_included_index > 0 && snapshot.state.last_applied
                != snapshot.last_included_index ==> snapshot.validity() == Err::<(), Error>(
                Error::SnapshotIndexMismatch,
            )
            &&& snapshot.last_included_index > 0 && snapshot.state.last_applied
                == snapshot.last_included_index && !ordered(snapshot.state.data)
                ==> snapshot.validity() == Err::<(), Error>(Error::UnorderedSnapshotKeys)
        },
{
}

/// The log after it was cut at `index`: the slot there keeps its term and loses its
/// command, what stood before is gone, and what stood behind stays.
pub open spec fn is_cut_at<S: StateMachine>(
    node: NodeModel<S>,
    after: NodeModel<S>,
    snapshot: SnapshotView,
) -> bool {
    let index = snapshot.last_included_index as int;
    &&& after.log_base_index == index
    &&& after.snapshot == Some(snapshot)
    &&& slot_of(after, index) == Some(
        (LogEntryView { term: snapshot.last_included_term, command: CommandView::Noop }),
    )
    &&& forall|i: int| i > index ==> #[trigger] slot_of(after, i) == slot_of(node, i)
    &&& forall|i: int| i < index ==> #[trigger] slot_of(after, i) is None
}

/// A node compacts its log exactly at what it has applied, if that is committed and past
/// what it has compacted before, and if its state can be taken as a snapshot of that index
/// that is in order. The snapshot then holds the state and the term of the entry there.
pub proof fn law_node_compacts_what_it_has_applied<S: StateMachine>(
    node: NodeModel<S>,
    index: LogIndex,
)
    requires
        node.well_formed(),
        node.last_applied <= end_of(node),
    ensures
        ({
            let (after, result) = node.compact_to(index);
            let due = index == node.last_applied && node.log_base_index < index
                <= node.commit_index;
            &&& !due ==> result == Err::<SnapshotView, Error>(Error::CompactionPoint)
            &&& result is Err ==> after == node
            &&& due ==> match S::captured(node.state) {
                Err(error) => result == Err::<SnapshotView, Error>(error),
                Ok(state) => {
                    &&& state.last_applied != index ==> result == Err::<SnapshotView, Error>(
                        Error::StaleStateSnapshot,
                    )
                    &&& state.last_applied == index && state.version == 1 && ordered(state.data)
                        ==> result == Ok::<SnapshotView, Error>(
                        (SnapshotView {
                            version: 1,
                            last_included_index: index,
                            last_included_term: slot_of(node, index as int)->0.term,
                            state,
                        }),
                    )
                    &&& result is Ok ==> state.last_applied == index && state.version == 1
                        && ordered(state.data)
                },
            }
            &&& result matches Ok(snapshot) ==> {
                &&& is_cut_at(node, after, snapshot)
                &&& end_of(after) == end_of(node)
                &&& after == (NodeModel {
                    log: after.log,
                    log_base_index: after.log_base_index,
                    snapshot: after.snapshot,
                    ..node
                })
            }
        }),
{
    let (after, result) = node.compact_to(index);
    law_log_is_counted_by_its_slots(node, index as int);
    if let Ok(snapshot) = result {
        let suffix = node.entries_from(index + 1);
        assert(node.has_slot(index as int));
        assert(after.log.len() == 1 + suffix.len());
        assert forall|i: int| i > index implies #[trigger] slot_of(after, i) == slot_of(
            node,
            i,
        ) by {
            if slot_of(node, i) is Some {
                assert(after.log[i - index] == suffix[i - index - 1]);
            }
        }
    }
}

/// The node is at the snapshot or past it already: the snapshot ends before the node's
/// own, or where that ends and in the same term, or before what the node has committed.
pub open spec fn is_past<S: StateMachine>(node: NodeModel<S>, snapshot: SnapshotView) -> bool {
    ||| snapshot.last_included_index < node.log_base_index
    ||| snapshot.last_included_index < node.commit_index
    ||| {
        &&& snapshot.last_included_index == node.log_base_index
        &&& node.snapshot matches Some(own) && own.last_included_term
            == snapshot.last_included_term
    }
}

/// A snapshot is installed exactly if it is in order, the node is not past it, and its
/// state machine takes it. The node then has committed and applied what the snapshot
/// holds, its log starts there, and goes on only with entries that follow an entry of the
/// same term at that index. Otherwise the node stays as it is.
pub proof fn law_snapshot_in_order_is_installed<S: StateMachine>(
    node: NodeModel<S>,
    snapshot: SnapshotView,
)
    requires
        node.well_formed(),
    ensures
        ({
            let (after, result) = node.install_snapshot(snapshot);
            let index = snapshot.last_included_index;
            let (state, restored) = S::restored(node.state, snapshot.state);
            let kept = slot_of(node, index as int) matches Some(slot) && slot.term
                == snapshot.last_included_term;
            &&& !is_in_order(snapshot) ==> after == node && result is Err
            &&& is_in_order(snapshot) && is_past(node, snapshot) ==> after == node && result == Ok::<
                SnapshotInstallResult,
                Error,
            >(SnapshotInstallResult::Stale)
            &&& is_in_order(snapshot) && !is_past(node, snapshot) && restored is Err ==> {
                &&& result is Err
                &&& after == (NodeModel { state, ..node })
            }
            &&& is_in_order(snapshot) && !is_past(node, snapshot) && restored is Ok ==> {
                &&& result == Ok::<SnapshotInstallResult, Error>(SnapshotInstallResult::Installed)
                &&& after == (NodeModel {
                    state,
                    commit_index: index,
                    last_applied: index,
                    leader_id: None,
                    log: after.log,
                    log_base_index: index,
                    snapshot: Some(snapshot),
                    ..node
                })
                &&& kept ==> is_cut_at(node, after, snapshot)
                &&& !kept ==> after.log == seq![
                    (LogEntryView {
                        term: snapshot.last_included_term,
                        command: CommandView::Noop,
                    }),
                ]
            }
        }),
{
    let (after, result) = node.install_snapshot(snapshot);
    let index = snapshot.last_included_index as int;
    law_valid_snapshot_is_in_order(snapshot);
    law_log_is_counted_by_its_slots(node, index);
    if result == Ok::<SnapshotInstallResult, Error>(SnapshotInstallResult::Installed) {
        let suffix = node.surviving_entries(snapshot);
        assert(after.log.len() == 1 + suffix.len());
        if suffix.len() == 0 {
            assert(after.log =~= seq![
                LogEntryView {
                    term: snapshot.last_included_term,
                    command: CommandView::Noop,
                },
            ]);
        }
        if node.term_at(index) == Some(snapshot.last_included_term) {
            assert forall|i: int| i > index implies #[trigger] slot_of(after, i) == slot_of(
                node,
                i,
            ) by {
                if slot_of(node, i) is Some {
                    assert(after.log[i - index] == suffix[i - index - 1]);
                }
            }
        }
    }
}

/// What a node is once `from` has sent it a snapshot: if the snapshot is installed, `from`
/// is its leader, heard from now; otherwise nothing more than installing does.
pub proof fn law_sender_of_an_installed_snapshot_leads<S: StateMachine>(
    node: NodeModel<S>,
    from: NodeId,
    snapshot: SnapshotView,
    now_ms: u64,
)
    requires
        clock_has_room(now_ms),
    ensures
        ({
            let (installed, result) = node.install_snapshot(snapshot);
            let (after, reply) = node.install_from(from, snapshot, now_ms);
            let done = result == Ok::<SnapshotInstallResult, Error>(
                SnapshotInstallResult::Installed,
            );
            &&& reply == result
            &&& !done ==> after == installed
            &&& done ==> is_timed(after, now_ms) && after == (NodeModel {
                leader_id: Some(from),
                last_leader_contact: now_ms,
                rng_state: after.rng_state,
                election_deadline: after.election_deadline,
                ..installed
            })
        }),
{
}

/// A snapshot that a node is sent, by itself or with a leader's term, is answered with the
/// node's term and the snapshot's index. It is accepted if it was installed, or if the
/// node's log starts at it already and in the same term; and refused if the leader's term
/// is behind or another than the leader sent it.
pub proof fn law_sent_snapshot_is_answered<S: StateMachine>(
    node: NodeModel<S>,
    from: NodeId,
    request: InstallSnapshotRequestView,
    now_ms: u64,
)
    requires
        node.well_formed(),
        clock_has_room(now_ms),
    ensures
        ({
            let snapshot = request.snapshot;
            let index = snapshot.last_included_index;
            let (bare, said) = node.handle(from, RpcView::InstallSnapshot(snapshot), now_ms);
            let (after, sent) = node.handle(
                from,
                RpcView::InstallSnapshotRequest(request),
                now_ms,
            );
            let present = node.following(request.term, now_ms);
            let heard = request.term >= node.current_term && request.leader_id == from;
            &&& bare == node.install_from(from, snapshot, now_ms).0
            &&& is_sole(
                node,
                said,
                from,
                RpcView::InstallSnapshotReply(
                    (InstallSnapshotReply {
                        term: node.current_term,
                        accepted: accepts_snapshot(node, snapshot),
                        last_included_index: index,
                    }),
                ),
            )
            &&& request.term < node.current_term ==> after == node
            &&& request.term >= node.current_term && !heard ==> after == present
            &&& heard ==> after == present.install_from(from, snapshot, now_ms).0
            &&& is_sole(
                node,
                sent,
                from,
                RpcView::InstallSnapshotReply(
                    (InstallSnapshotReply {
                        term: if request.term < node.current_term {
                            node.current_term
                        } else {
                            request.term
                        },
                        accepted: heard && accepts_snapshot(present, snapshot),
                        last_included_index: index,
                    }),
                ),
            )
        }),
{
    let snapshot = request.snapshot;
    let present = node.following(request.term, now_ms);
    law_log_is_counted_by_its_slots(node, snapshot.last_included_index as int);
    law_log_is_counted_by_its_slots(present, snapshot.last_included_index as int);
    law_snapshot_in_order_is_installed(node, snapshot);
    law_snapshot_in_order_is_installed(present, snapshot);
}

/// The node installs the snapshot, or is at it already.
pub open spec fn accepts_snapshot<S: StateMachine>(
    node: NodeModel<S>,
    snapshot: SnapshotView,
) -> bool {
    let index = snapshot.last_included_index;
    &&& is_in_order(snapshot)
    &&& {
        ||| !is_past(node, snapshot) && S::restored(node.state, snapshot.state).1 is Ok
        ||| {
            &&& is_past(node, snapshot)
            &&& node.log_base_index == index
            &&& slot_of(node, index as int) matches Some(slot) && slot.term
                == snapshot.last_included_term
        }
    }
}

/// A leader that hears that its snapshot was accepted knows that the sender holds the log
/// up to there, no less than it knew before, and sends what follows. A later term makes it
/// start over, and any other answer changes nothing.
pub proof fn law_accepted_snapshot_counts<S: StateMachine>(
    node: NodeModel<S>,
    from: NodeId,
    reply: InstallSnapshotReply,
    now_ms: u64,
)
    requires
        node.well_formed(),
        clock_has_room(now_ms),
        known_of(node, from) < usize::MAX,
        reply.last_included_index < usize::MAX,
    ensures
        ({
            let (after, sent) = node.handle(from, RpcView::InstallSnapshotReply(reply), now_ms);
            let heard = node.role == Role::Leader && reply.term == node.current_term
                && reply.accepted;
            let matched = if known_of(node, from) > reply.last_included_index {
                known_of(node, from)
            } else {
                reply.last_included_index
            };
            &&& reply.term > node.current_term ==> starts_over(node, after, reply.term, now_ms)
                && sent.len() == 0
            &&& reply.term <= node.current_term && !heard ==> after == node && sent.len() == 0
            &&& heard ==> {
                &&& after == (NodeModel {
                    match_index: node.match_index.insert(from, matched),
                    next_index: node.next_index.insert(from, (matched + 1) as LogIndex),
                    last_quorum_contact: node.last_quorum_contact.insert(from, now_ms),
                    ..node
                })
                &&& sent.len() == 1
                &&& sent[0] == after.append_message(from)
            }
        }),
{
}

/// A peer whose next entry the leader has compacted away is sent the leader's snapshot: as
/// one message if its encoding is no longer than 65536 bytes, and otherwise the first
/// piece of it.
pub proof fn law_peer_far_behind_is_sent_the_snapshot<S: StateMachine>(
    node: NodeModel<S>,
    peer: NodeId,
)
    requires
        node.well_formed(),
        next_of(node, peer) <= node.log_base_index,
        node.snapshot is Some,
    ensures
        ({
            let message = node.append_message(peer);
            let snapshot = node.snapshot->0;
            let large = snapshot_bytes(snapshot) is Some && snapshot_bytes(snapshot)->0.len()
                > 65536;
            &&& message.from == node.id
            &&& message.to == peer
            &&& !large ==> message.rpc == RpcView::InstallSnapshotRequest(
                (InstallSnapshotRequestView {
                    term: node.current_term,
                    leader_id: node.id,
                    snapshot,
                }),
            )
            &&& large ==> is_piece(node, message, snapshot, snapshot_bytes(snapshot)->0, 0)
        }),
{
    law_log_is_counted_by_its_slots(node, 0);
}

/// The message holds the piece of the snapshot's encoding that starts at `offset`: 65536
/// bytes, or all that are left if those are fewer, and then says that it is the last.
pub open spec fn is_piece<S: StateMachine>(
    node: NodeModel<S>,
    message: MessageView,
    snapshot: SnapshotView,
    bytes: Seq<u8>,
    offset: int,
) -> bool {
    let end = if offset + 65536 < bytes.len() {
        offset + 65536
    } else {
        bytes.len() as int
    };
    &&& message.from == node.id
    &&& message.rpc == RpcView::InstallSnapshotChunk(
        (InstallSnapshotChunkView {
            term: node.current_term,
            leader_id: node.id,
            snapshot_id: transfer_id(snapshot),
            offset: offset as usize,
            total_size: bytes.len() as usize,
            data: bytes.subrange(offset, end),
            done: end == bytes.len(),
        }),
    )
}

/// A leader answers a peer that takes its snapshot in pieces: it sends the piece that the
/// peer asks for, until the peer has accepted all of them; then the peer is known to hold
/// the log up to the snapshot, no less than was known before, and is sent what follows. A
/// reply of a later term makes it start over; one about another snapshot, of another term,
/// from no peer, or to a node that does not lead, changes nothing.
pub proof fn law_peer_gets_the_piece_it_asks_for<S: StateMachine>(
    node: NodeModel<S>,
    from: NodeId,
    reply: InstallSnapshotChunkReply,
    now_ms: u64,
)
    requires
        node.well_formed(),
        clock_has_room(now_ms),
    ensures
        ({
            let (after, sent) = node.handle(
                from,
                RpcView::InstallSnapshotChunkReply(reply),
                now_ms,
            );
            let heard = {
                &&& node.role == Role::Leader
                &&& reply.term == node.current_term
                &&& node.peers.contains(from)
                &&& node.snapshot matches Some(snapshot) && snapshot_bytes(snapshot) is Some
                    && transfer_id(snapshot) == reply.snapshot_id
            };
            let snapshot = node.snapshot->0;
            let bytes = snapshot_bytes(snapshot)->0;
            let all = reply.accepted && reply.next_offset >= bytes.len();
            let contact = node.last_quorum_contact.insert(from, now_ms);
            &&& reply.term > node.current_term ==> starts_over(node, after, reply.term, now_ms)
                && sent.len() == 0
            &&& reply.term <= node.current_term && !heard ==> after == node && sent.len() == 0
            &&& heard && !all ==> {
                &&& after == (NodeModel { last_quorum_contact: contact, ..node })
                &&& sent.len() == 1
                &&& sent[0].to == from
                &&& is_piece(node, sent[0], snapshot, bytes, reply.next_offset as int)
            }
            &&& heard && all ==> {
                &&& after == (NodeModel {
                    last_quorum_contact: contact,
                    match_index: node.match_index.insert(
                        from,
                        if known_of(node, from) > node.log_base_index {
                            known_of(node, from)
                        } else {
                            node.log_base_index
                        },
                    ),
                    next_index: node.next_index.insert(
                        from,
                        (node.log_base_index + 1) as LogIndex,
                    ),
                    ..node
                })
                &&& sent.len() == 1
                &&& sent[0] == after.append_message(from)
            }
        }),
{
}

/// The whole of a snapshot is cut into pieces of 65536 bytes, in order and to the end, the
/// last of them shorter if it does not come out even; a node without a snapshot has none.
pub proof fn law_snapshot_is_cut_into_pieces<S: StateMachine>(node: NodeModel<S>, peer: NodeId)
    ensures
        ({
            let pieces = node.transfer_chunks(peer);
            match node.snapshot {
                None => pieces.len() == 0,
                Some(snapshot) => snapshot_bytes(snapshot) matches Some(bytes) ==> {
                    &&& pieces.len() > 0
                    &&& 65536 * (pieces.len() - 1) <= bytes.len()
                    &&& bytes.len() > 0 ==> 65536 * (pieces.len() - 1) < bytes.len()
                    &&& bytes.len() <= 65536 * pieces.len()
                    &&& forall|i: int|
                        0 <= i < pieces.len() ==> (#[trigger] pieces[i]).to == peer && is_piece(
                            node,
                            pieces[i],
                            snapshot,
                            bytes,
                            65536 * i,
                        )
                },
            }
        }),
{
}

/// The piece continues what has arrived of a transfer: it is of the same snapshot, term,
/// leader and length, starts where what has arrived ends, and is not too long.
pub open spec fn fits_on(
    id: u64,
    transfer: PartialSnapshotModel,
    chunk: InstallSnapshotChunkView,
) -> bool {
    &&& id == chunk.snapshot_id
    &&& transfer.term == chunk.term
    &&& transfer.leader_id == chunk.leader_id
    &&& transfer.total_size == chunk.total_size
    &&& transfer.bytes.len() == chunk.offset
    &&& chunk.offset + chunk.data.len() <= chunk.total_size || chunk.data.len() == 0
}

/// The transfer that a piece belongs to: a new one if it is the first piece, and otherwise
/// the one under way.
pub open spec fn transfer_for<S: StateMachine>(
    node: NodeModel<S>,
    chunk: InstallSnapshotChunkView,
) -> Option<(u64, PartialSnapshotModel)> {
    if chunk.offset == 0 {
        Some(
            (
                chunk.snapshot_id,
                PartialSnapshotModel {
                    term: chunk.term,
                    leader_id: chunk.leader_id,
                    total_size: chunk.total_size,
                    bytes: Seq::empty(),
                },
            ),
        )
    } else {
        node.incoming_snapshot
    }
}

/// A piece is answered with how many bytes have arrived, and put behind them if it
/// continues them. It is refused if its term is behind, another than its leader sent it or
/// the whole is longer than 16777216 bytes, if there is nothing that it could continue, or
/// if it does not continue it; and if it says that it is the last before all have arrived.
/// With the last piece the transfer is over: the snapshot, if the bytes hold one, is
/// installed, and the piece is accepted if that went well.
pub proof fn law_piece_is_put_behind_what_has_arrived<S: StateMachine>(
    node: NodeModel<S>,
    from: NodeId,
    chunk: InstallSnapshotChunkView,
    now_ms: u64,
)
    requires
        node.well_formed(),
        clock_has_room(now_ms),
    ensures
        ({
            let (after, sent) = node.handle(from, RpcView::InstallSnapshotChunk(chunk), now_ms);
            let heard = chunk.term >= node.current_term && chunk.leader_id == from
                && chunk.total_size <= 16777216;
            let present = node.following(chunk.term, now_ms);
            let transfer = transfer_for(node, chunk);
            let opened = NodeModel { incoming_snapshot: transfer, ..present };
            let fits = transfer matches Some((id, partial)) && fits_on(id, partial, chunk);
            let arrived = transfer->Some_0.1.bytes + chunk.data;
            let whole = arrived.len() == chunk.total_size;
            let stored = NodeModel {
                incoming_snapshot: Some(
                    (
                        transfer->Some_0.0,
                        (PartialSnapshotModel { bytes: arrived, ..transfer->Some_0.1 }),
                    ),
                ),
                ..present
            };
            let parsed = parsed_snapshot(arrived);
            let (installed, result) = opened.install_from(from, parsed->0, now_ms);
            &&& sent.len() == 1
            &&& sent[0].from == node.id
            &&& sent[0].to == from
            &&& sent[0].rpc matches RpcView::InstallSnapshotChunkReply(reply) && {
                &&& reply.snapshot_id == chunk.snapshot_id
                &&& !heard ==> after == node && !reply.accepted && reply.next_offset == 0
                    && reply.term == node.current_term
                &&& heard && transfer is None ==> after == opened && !reply.accepted
                    && reply.next_offset == 0 && reply.term == node.current_term
                &&& heard && transfer is Some && !fits ==> {
                    &&& after == opened
                    &&& !reply.accepted
                    &&& reply.next_offset == transfer->Some_0.1.bytes.len() as usize
                    &&& reply.term == node.current_term
                }
                &&& heard && fits ==> reply.next_offset == arrived.len() as usize
                &&& heard && fits && !chunk.done ==> {
                    &&& reply.accepted
                    &&& reply.term == chunk.term
                    &&& is_timed(after, now_ms)
                    &&& after == (NodeModel {
                        rng_state: after.rng_state,
                        election_deadline: after.election_deadline,
                        ..stored
                    })
                }
                &&& heard && fits && chunk.done && !whole ==> after == stored && !reply.accepted
                    && reply.term == node.current_term
                &&& heard && fits && chunk.done && whole ==> {
                    &&& reply.term == chunk.term
                    &&& reply.accepted <==> parsed is Some && result is Ok
                    &&& parsed is None ==> after == (NodeModel {
                        incoming_snapshot: None,
                        ..present
                    })
                    &&& parsed is Some ==> after == (NodeModel {
                        incoming_snapshot: None,
                        ..installed
                    })
                }
            }
        }),
{
    let present = node.following(chunk.term, now_ms);
    let ready = node.receiving(chunk, now_ms);
    let transfer = transfer_for(node, chunk);
    let opened = NodeModel { incoming_snapshot: transfer, ..present };
    assert(ready == opened);
    if let Some((id, partial)) = transfer {
        assert(ready.continues_transfer(chunk) <==> fits_on(id, partial, chunk));
    }
}

} // verus!
