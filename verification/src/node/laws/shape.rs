//! What keeps a node well formed.
use crate::codec::parsed_snapshot;
use crate::node::model::NodeModel;
use crate::node::replication::lemma_agreement_bounds;
use crate::node::replication::lemma_apply_committed_frame;
use crate::state_machine::StateMachine;
use crate::types::AppendEntriesReply;
use crate::types::AppendEntriesView;
use crate::types::ClientRequestView;
use crate::types::InstallSnapshotChunkView;
use crate::types::InstallSnapshotRequestView;
use crate::types::NodeId;
use crate::types::RpcView;
use crate::types::SnapshotView;
use vstd::prelude::*;

verus! {

proof fn lemma_append<S: StateMachine>(
    node: NodeModel<S>,
    request: AppendEntriesView,
    now_ms: u64,
)
    requires
        node.well_formed(),
        node.accepts_append(request) ==> request.prev_log_index + request.entries.len()
            < usize::MAX,
    ensures
        node.on_append_entries(request, now_ms).0.well_formed(),
{
    if node.accepts_append(request) {
        let led = node.following(request.term, now_ms).led_by(request.leader_id, now_ms);
        let first = request.prev_log_index + 1;
        lemma_agreement_bounds(led, first, request.entries);
        lemma_apply_committed_frame(led.appended(request));
    }
}

proof fn lemma_append_reply<S: StateMachine>(
    node: NodeModel<S>,
    from: NodeId,
    reply: AppendEntriesReply,
    now_ms: u64,
)
    requires
        node.well_formed(),
    ensures
        node.on_append_reply(from, reply, now_ms).0.well_formed(),
{
    let acknowledged = node.contacted(from, now_ms).acknowledged(from, reply.match_index);
    lemma_apply_committed_frame(
        NodeModel {
            commit_index: acknowledged.commit_point(acknowledged.last_index()) as usize,
            ..acknowledged
        },
    );
}

proof fn lemma_install<S: StateMachine>(node: NodeModel<S>, snapshot: SnapshotView)
    requires
        node.well_formed(),
        node.can_install(snapshot),
    ensures
        node.install_snapshot(snapshot).0.well_formed(),
{
    reveal(NodeModel::can_install);
}

proof fn lemma_install_from<S: StateMachine>(
    node: NodeModel<S>,
    from: NodeId,
    snapshot: SnapshotView,
    now_ms: u64,
)
    requires
        node.well_formed(),
        node.can_install(snapshot),
    ensures
        node.install_from(from, snapshot, now_ms).0.well_formed(),
{
    lemma_install(node, snapshot);
}

proof fn lemma_request<S: StateMachine>(
    node: NodeModel<S>,
    from: NodeId,
    request: InstallSnapshotRequestView,
    now_ms: u64,
)
    requires
        node.well_formed(),
        node.can_install(request.snapshot),
    ensures
        node.on_install_request(from, request, now_ms).0.well_formed(),
{
    let present = node.following(request.term, now_ms);
    assert(present.can_install(request.snapshot)) by {
        reveal(NodeModel::can_install);
    }
    lemma_install_from(present, from, request.snapshot, now_ms);
}

proof fn lemma_chunk<S: StateMachine>(
    node: NodeModel<S>,
    from: NodeId,
    chunk: InstallSnapshotChunkView,
    now_ms: u64,
)
    requires
        node.well_formed(),
        node.can_handle(from, RpcView::InstallSnapshotChunk(chunk), now_ms),
    ensures
        node.on_chunk(from, chunk, now_ms).0.well_formed(),
{
    let ready = node.receiving(chunk, now_ms);
    assert(ready.well_formed());
    assert(ready.storing(chunk).well_formed());
    if node.completes_transfer(from, chunk, now_ms) {
        if let Some(snapshot) = parsed_snapshot(ready.arrived(chunk)) {
            assert(ready.can_install(snapshot)) by {
                reveal(NodeModel::can_install);
            }
            lemma_install_from(ready, from, snapshot, now_ms);
        }
    }
}

proof fn lemma_others<S: StateMachine>(
    node: NodeModel<S>,
    from: NodeId,
    rpc: RpcView,
    now_ms: u64,
)
    requires
        node.well_formed(),
        node.can_handle(from, rpc, now_ms),
        rpc is RequestVote || rpc is RequestVoteReply || rpc is PreVote || rpc is PreVoteReply
            || rpc is ReadIndex || rpc is ReadIndexReply || rpc is TimeoutNow
            || rpc is InstallSnapshotReply || rpc is InstallSnapshotChunkReply,
    ensures
        node.handle(from, rpc, now_ms).0.well_formed(),
{
}

/// Whatever it is told, a node stays well formed.
pub proof fn law_handling_keeps_the_shape<S: StateMachine>(
    node: NodeModel<S>,
    from: NodeId,
    rpc: RpcView,
    now_ms: u64,
)
    requires
        node.well_formed(),
        node.can_handle(from, rpc, now_ms),
    ensures
        node.handle(from, rpc, now_ms).0.well_formed(),
{
    match rpc {
        RpcView::AppendEntries(request) => {
            lemma_append(node, request, now_ms);
        },
        RpcView::AppendEntriesReply(reply) => {
            lemma_append_reply(node, from, reply, now_ms);
        },
        RpcView::InstallSnapshot(snapshot) => {
            lemma_install_from(node, from, snapshot, now_ms);
        },
        RpcView::InstallSnapshotRequest(request) => {
            lemma_request(node, from, request, now_ms);
        },
        RpcView::InstallSnapshotChunk(chunk) => {
            lemma_chunk(node, from, chunk, now_ms);
        },
        _ => {
            lemma_others(node, from, rpc, now_ms);
        },
    }
}

/// The clock leaves a node well formed.
pub proof fn law_ticking_keeps_the_shape<S: StateMachine>(node: NodeModel<S>, now_ms: u64)
    requires
        node.well_formed(),
    ensures
        node.tick(now_ms).0.well_formed(),
{
}

/// Clients leave a node well formed.
pub proof fn law_clients_keep_the_shape<S: StateMachine>(
    node: NodeModel<S>,
    request: ClientRequestView,
)
    requires
        node.well_formed(),
    ensures
        node.last_index() + 1 < usize::MAX ==> node.start_write(request).0.well_formed(),
        node.start_read().0.well_formed(),
{
}

} // verus!
