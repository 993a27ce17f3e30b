//! Where a node runs into what the machine can count.
use crate::codec::parsed_snapshot;
use crate::codec::snapshot_bytes;
use crate::node::laws::replicating::known_of;
use crate::node::laws::slots::end_of;
use crate::node::laws::slots::law_log_is_counted_by_its_slots;
use crate::node::model::NodeModel;
use crate::state_machine::StateMachine;
use crate::types::NodeId;
use crate::types::RpcView;
use crate::types::SnapshotView;
use vstd::prelude::*;

verus! {

/// The numbers in the message leave room for more: its term and its indexes are not the
/// greatest, and it asks a leader for no byte past the end of its snapshot.
pub open spec fn leaves_room<S: StateMachine>(node: NodeModel<S>, rpc: RpcView) -> bool {
    match rpc {
        RpcView::AppendEntries(request) => request.prev_log_index + request.entries.len()
            < usize::MAX,
        RpcView::AppendEntriesReply(reply) => reply.match_index < usize::MAX,
        RpcView::InstallSnapshot(snapshot) => snapshot.last_included_index < usize::MAX,
        RpcView::InstallSnapshotRequest(request) => request.snapshot.last_included_index
            < usize::MAX,
        RpcView::InstallSnapshotReply(reply) => reply.last_included_index < usize::MAX,
        RpcView::TimeoutNow(request) => request.term < u64::MAX,
        RpcView::InstallSnapshotChunkReply(reply) => {
            &&& node.snapshot matches Some(snapshot) ==> (snapshot_bytes(snapshot) matches Some(
                bytes,
            ) ==> reply.next_offset <= bytes.len())
        },
        _ => true,
    }
}

/// No snapshot that the bytes of a transfer can hold ends at the last index of all.
pub open spec fn carries_no_last_index(rpc: RpcView) -> bool {
    rpc is InstallSnapshotChunk ==> forall|bytes: Seq<u8>|
        (#[trigger] parsed_snapshot(bytes)) matches Some(snapshot) ==> snapshot.last_included_index
            < usize::MAX
}

/// A node can handle every message, except at the very end of the clock, of the terms or
/// of the indexes.
pub proof fn law_node_handles_every_message<S: StateMachine>(
    node: NodeModel<S>,
    from: NodeId,
    rpc: RpcView,
    now_ms: u64,
)
    requires
        node.well_formed(),
        now_ms <= u64::MAX - 300,
        node.current_term < u64::MAX,
        end_of(node) + 1 < usize::MAX,
        known_of(node, from) < usize::MAX,
        leaves_room(node, rpc),
        carries_no_last_index(rpc),
    ensures
        node.can_handle(from, rpc, now_ms),
{
    reveal(NodeModel::can_install);
    law_log_is_counted_by_its_slots(node, 0);
}

/// A node can see every tick of the clock, except at the very end of it or of the terms.
pub proof fn law_node_sees_every_tick<S: StateMachine>(node: NodeModel<S>, now_ms: u64)
    requires
        now_ms <= u64::MAX - 300,
        node.current_term < u64::MAX,
    ensures
        node.can_tick(now_ms),
{
}

/// A node can install every snapshot but one that ends at the last index of all.
pub proof fn law_node_can_install_every_snapshot<S: StateMachine>(
    node: NodeModel<S>,
    snapshot: SnapshotView,
)
    requires
        snapshot.last_included_index < usize::MAX,
    ensures
        node.can_install(snapshot),
{
    reveal(NodeModel::can_install);
}

} // verus!
