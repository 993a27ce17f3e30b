//! What holds of every node, whatever it is told.
use crate::node::model::NodeModel;
use crate::node::replication::lemma_apply_committed_frame;
use crate::state_machine::StateMachine;
use crate::types::AppendEntriesReply;
use crate::types::AppendEntriesView;
use crate::types::InstallSnapshotChunkReply;
use crate::types::InstallSnapshotChunkView;
use crate::types::InstallSnapshotReply;
use crate::types::MessageView;
use crate::types::NodeId;
use crate::types::PreVoteReply;
use crate::types::RequestVoteReply;
use crate::types::RpcView;
use crate::types::SnapshotView;
use crate::types::TimeoutNow;
use vstd::prelude::*;

pub mod ballots;
pub mod batches;
pub mod elections;
pub mod histories;
pub mod limits;
pub mod logs;
pub mod origins;
pub mod progress;
pub mod reads;
pub mod replicating;
pub mod restoring;
pub mod serving;
pub mod shape;
pub mod shipping;
pub mod slots;
pub mod states;
pub mod tenure;
pub mod tracking;
pub mod transfers;
pub mod voting;

verus! {

/// Appending changes no node's id and no peers.
pub proof fn lemma_append_entries_frame<S: StateMachine>(
    node: NodeModel<S>,
    request: AppendEntriesView,
    now_ms: u64,
)
    ensures
        node.on_append_entries(request, now_ms).0.id == node.id,
        node.on_append_entries(request, now_ms).0.peers == node.peers,
{
    if request.term >= node.current_term && node.accepts_append(request) {
        let led = node.following(request.term, now_ms).led_by(request.leader_id, now_ms);
        lemma_apply_committed_frame(led.appended(request));
    }
}

/// Every message comes from this node and goes to one of its peers, or to the
/// node that it answers.
pub open spec fn is_from_node<S: StateMachine>(
    node: NodeModel<S>,
    messages: Seq<MessageView>,
    answered: Option<NodeId>,
) -> bool {
    forall|i: int|
        0 <= i < messages.len() ==> {
            &&& (#[trigger] messages[i]).from == node.id
            &&& node.peers.contains(messages[i].to) || answered == Some(messages[i].to)
        }
}

proof fn lemma_append_reply_addressed<S: StateMachine>(
    node: NodeModel<S>,
    from: NodeId,
    reply: AppendEntriesReply,
    now_ms: u64,
)
    ensures
        node.on_append_reply(from, reply, now_ms).0.id == node.id,
        node.on_append_reply(from, reply, now_ms).0.peers == node.peers,
        is_from_node(node, node.on_append_reply(from, reply, now_ms).1, Some(from)),
{
    let advanced = node.contacted(from, now_ms).acknowledged(from, reply.match_index);
    lemma_apply_committed_frame(
        NodeModel {
            commit_index: advanced.commit_point(advanced.last_index()) as usize,
            ..advanced
        },
    );
}

proof fn lemma_chunk_addressed<S: StateMachine>(
    node: NodeModel<S>,
    from: NodeId,
    chunk: InstallSnapshotChunkView,
    now_ms: u64,
)
    ensures
        node.on_chunk(from, chunk, now_ms).0.id == node.id,
        node.on_chunk(from, chunk, now_ms).0.peers == node.peers,
{
    let ready = node.receiving(chunk, now_ms);
    assert(ready.id == node.id && ready.peers == node.peers);
    assert(ready.storing(chunk).id == node.id && ready.storing(chunk).peers == node.peers);
    lemma_finish_transfer_addressed(ready, from, ready.arrived(chunk), now_ms);
}

proof fn lemma_finish_transfer_addressed<S: StateMachine>(
    node: NodeModel<S>,
    from: NodeId,
    bytes: Seq<u8>,
    now_ms: u64,
)
    ensures
        node.finish_transfer(from, bytes, now_ms).0.id == node.id,
        node.finish_transfer(from, bytes, now_ms).0.peers == node.peers,
{
}

proof fn lemma_chunk_reply_addressed<S: StateMachine>(
    node: NodeModel<S>,
    from: NodeId,
    reply: InstallSnapshotChunkReply,
    now_ms: u64,
)
    ensures
        node.on_chunk_reply(from, reply, now_ms).0.id == node.id,
        node.on_chunk_reply(from, reply, now_ms).0.peers == node.peers,
        is_from_node(node, node.on_chunk_reply(from, reply, now_ms).1, Some(from)),
{
}

proof fn lemma_install_addressed<S: StateMachine>(
    node: NodeModel<S>,
    from: NodeId,
    snapshot: SnapshotView,
    now_ms: u64,
)
    ensures
        node.on_install_snapshot(from, snapshot, now_ms).0.id == node.id,
        node.on_install_snapshot(from, snapshot, now_ms).0.peers == node.peers,
{
}

proof fn lemma_vote_reply_addressed<S: StateMachine>(
    node: NodeModel<S>,
    from: NodeId,
    reply: RequestVoteReply,
    now_ms: u64,
)
    ensures
        node.on_request_vote_reply(from, reply, now_ms).0.id == node.id,
        node.on_request_vote_reply(from, reply, now_ms).0.peers == node.peers,
        is_from_node(node, node.on_request_vote_reply(from, reply, now_ms).1, Some(from)),
{
}

proof fn lemma_install_reply_addressed<S: StateMachine>(
    node: NodeModel<S>,
    from: NodeId,
    reply: InstallSnapshotReply,
    now_ms: u64,
)
    ensures
        node.on_install_reply(from, reply, now_ms).0.id == node.id,
        node.on_install_reply(from, reply, now_ms).0.peers == node.peers,
        is_from_node(node, node.on_install_reply(from, reply, now_ms).1, Some(from)),
{
}

proof fn lemma_pre_vote_reply_addressed<S: StateMachine>(
    node: NodeModel<S>,
    from: NodeId,
    reply: PreVoteReply,
    now_ms: u64,
)
    ensures
        node.on_pre_vote_reply(from, reply, now_ms).0.id == node.id,
        node.on_pre_vote_reply(from, reply, now_ms).0.peers == node.peers,
        is_from_node(node, node.on_pre_vote_reply(from, reply, now_ms).1, Some(from)),
{
}

proof fn lemma_timeout_addressed<S: StateMachine>(
    node: NodeModel<S>,
    from: NodeId,
    request: TimeoutNow,
    now_ms: u64,
)
    ensures
        node.on_timeout_now(from, request, now_ms).0.id == node.id,
        node.on_timeout_now(from, request, now_ms).0.peers == node.peers,
        is_from_node(node, node.on_timeout_now(from, request, now_ms).1, Some(from)),
{
}

/// The node that is left when a message has been answered.
proof fn lemma_answers_addressed<S: StateMachine>(
    node: NodeModel<S>,
    from: NodeId,
    rpc: RpcView,
    now_ms: u64,
)
    requires
        rpc is RequestVote || rpc is PreVote || rpc is ReadIndex || rpc is AppendEntries
            || rpc is InstallSnapshot || rpc is InstallSnapshotRequest
            || rpc is InstallSnapshotChunk,
    ensures
        node.handle(from, rpc, now_ms).0.id == node.id,
        node.handle(from, rpc, now_ms).0.peers == node.peers,
        node.handle(from, rpc, now_ms).1.len() == 1,
        node.handle(from, rpc, now_ms).1[0].from == node.id,
        node.handle(from, rpc, now_ms).1[0].to == from,
{
    match rpc {
        RpcView::AppendEntries(request) => {
            lemma_append_entries_frame(node, request, now_ms);
        },
        RpcView::InstallSnapshot(snapshot) => {
            lemma_install_addressed(node, from, snapshot, now_ms);
        },
        RpcView::InstallSnapshotRequest(request) => {
            let present = node.following(request.term, now_ms);
            lemma_install_addressed(present, from, request.snapshot, now_ms);
        },
        RpcView::InstallSnapshotChunk(chunk) => {
            lemma_chunk_addressed(node, from, chunk, now_ms);
        },
        _ => {},
    }
}

/// The message answers the request: a vote with a vote, entries and snapshots with what
/// became of them, a question about reads with the same question's number.
pub open spec fn answers(request: RpcView, reply: RpcView) -> bool {
    match request {
        RpcView::RequestVote(_) => reply is RequestVoteReply,
        RpcView::PreVote(_) => reply is PreVoteReply,
        RpcView::AppendEntries(_) => reply is AppendEntriesReply,
        RpcView::InstallSnapshot(snapshot) => reply matches RpcView::InstallSnapshotReply(answer)
            && answer.last_included_index == snapshot.last_included_index,
        RpcView::InstallSnapshotRequest(asked) => reply matches RpcView::InstallSnapshotReply(
            answer,
        ) && answer.last_included_index == asked.snapshot.last_included_index,
        RpcView::InstallSnapshotChunk(chunk) => reply matches RpcView::InstallSnapshotChunkReply(
            answer,
        ) && answer.snapshot_id == chunk.snapshot_id,
        RpcView::ReadIndex(asked) => reply matches RpcView::ReadIndexReply(answer)
            && answer.request_id == asked.request_id,
        _ => false,
    }
}

/// Every request is answered by exactly one message, to its sender and of its kind.
pub proof fn law_every_request_is_answered<S: StateMachine>(
    node: NodeModel<S>,
    from: NodeId,
    rpc: RpcView,
    now_ms: u64,
)
    requires
        rpc is RequestVote || rpc is PreVote || rpc is ReadIndex || rpc is AppendEntries
            || rpc is InstallSnapshot || rpc is InstallSnapshotRequest
            || rpc is InstallSnapshotChunk,
    ensures
        ({
            let messages = node.handle(from, rpc, now_ms).1;
            &&& messages.len() == 1
            &&& messages[0].from == node.id
            &&& messages[0].to == from
            &&& answers(rpc, messages[0].rpc)
        }),
{
}

/// A node keeps its id and its peers, and sends only to them and to the node that
/// it answers.
pub proof fn law_handling_is_addressed<S: StateMachine>(
    node: NodeModel<S>,
    from: NodeId,
    rpc: RpcView,
    now_ms: u64,
)
    ensures
        node.handle(from, rpc, now_ms).0.id == node.id,
        node.handle(from, rpc, now_ms).0.peers == node.peers,
        is_from_node(node, node.handle(from, rpc, now_ms).1, Some(from)),
{
    match rpc {
        RpcView::RequestVoteReply(reply) => {
            lemma_vote_reply_addressed(node, from, reply, now_ms);
        },
        RpcView::AppendEntriesReply(reply) => {
            lemma_append_reply_addressed(node, from, reply, now_ms);
        },
        RpcView::InstallSnapshotReply(reply) => {
            lemma_install_reply_addressed(node, from, reply, now_ms);
        },
        RpcView::PreVoteReply(reply) => {
            lemma_pre_vote_reply_addressed(node, from, reply, now_ms);
        },
        RpcView::ReadIndexReply(_) => {},
        RpcView::TimeoutNow(request) => {
            lemma_timeout_addressed(node, from, request, now_ms);
        },
        RpcView::InstallSnapshotChunkReply(reply) => {
            lemma_chunk_reply_addressed(node, from, reply, now_ms);
        },
        _ => {
            lemma_answers_addressed(node, from, rpc, now_ms);
        },
    }
}

/// A node keeps its id and its peers when the clock ticks, and sends only to them.
pub proof fn law_ticking_is_addressed<S: StateMachine>(node: NodeModel<S>, now_ms: u64)
    ensures
        node.tick(now_ms).0.id == node.id,
        node.tick(now_ms).0.peers == node.peers,
        is_from_node(node, node.tick(now_ms).1, None),
{
}

} // verus!
