//! What never goes backwards.
use crate::codec::parsed_snapshot;
use crate::node::model::smaller;
use crate::node::model::NodeModel;
use crate::node::replication::lemma_apply_committed_frame;
use crate::node::replication::lemma_commit_point;
use crate::state_machine::StateMachine;
use crate::types::AppendEntriesReply;
use crate::types::AppendEntriesView;
use crate::types::InstallSnapshotChunkReply;
use crate::types::InstallSnapshotChunkView;
use crate::types::InstallSnapshotReply;
use crate::types::InstallSnapshotRequestView;
use crate::types::NodeId;
use crate::types::PreVoteReply;
use crate::types::ReadIndex;
use crate::types::ReadIndexReply;
use crate::types::RequestVote;
use crate::types::RequestVoteReply;
use crate::types::Role;
use crate::types::RpcView;
use crate::types::SnapshotView;
use crate::types::TimeoutNow;
use vstd::prelude::*;

verus! {

/// A leader that stays leader keeps its term and its log, to which it may have
/// added, and never forgets what a peer holds.
pub open spec fn leads_on<S: StateMachine>(before: NodeModel<S>, after: NodeModel<S>) -> bool {
    &&& after.current_term == before.current_term
    &&& after.term_start_index == before.term_start_index
    &&& before.log.is_prefix_of(after.log)
    &&& after.log_base_index == before.log_base_index
    &&& forall|peer: NodeId| #[trigger] after.matched_by(peer) >= before.matched_by(peer)
}

/// From `before` to `after` nothing goes backwards: not the term, not a follower's
/// vote in its term, not what a leader has, not the snapshot boundary; and neither
/// what is committed, as far as the log still reaches.
pub open spec fn moves_forward<S: StateMachine>(
    before: NodeModel<S>,
    after: NodeModel<S>,
) -> bool {
    &&& before.current_term <= after.current_term
    &&& {
        &&& before.role == Role::Follower
        &&& before.voted_for is Some
        &&& after.current_term == before.current_term
    } ==> after.voted_for == before.voted_for
    &&& before.role == Role::Leader && after.role == Role::Leader ==> leads_on(before, after)
    &&& before.log_base_index <= after.log_base_index
    &&& smaller(before.commit_index as int, after.last_index()) <= after.commit_index
    &&& before.last_applied <= before.commit_index ==> before.last_applied <= after.last_applied
}

/// Steps down, follows or hears from a leader: the log and all that is known of it
/// stay.
proof fn lemma_led<S: StateMachine>(node: NodeModel<S>, term: u64, leader: NodeId, now_ms: u64)
    requires
        term >= node.current_term,
    ensures
        moves_forward(node, node.following(term, now_ms)),
        moves_forward(node, node.following(term, now_ms).led_by(leader, now_ms)),
        moves_forward(node, node.stepped_down(node.current_term, now_ms))
            || node.role == Role::Follower,
        term > node.current_term ==> moves_forward(node, node.stepped_down(term, now_ms)),
{
    assert(node.log.is_prefix_of(node.log));
}

proof fn lemma_append_entries<S: StateMachine>(
    node: NodeModel<S>,
    request: AppendEntriesView,
    now_ms: u64,
)
    ensures
        moves_forward(node, node.on_append_entries(request, now_ms).0),
{
    if request.term >= node.current_term {
        lemma_led(node, request.term, request.leader_id, now_ms);
        let led = node.following(request.term, now_ms).led_by(request.leader_id, now_ms);
        lemma_apply_committed_frame(led.appended(request));
    } else {
        assert(node.log.is_prefix_of(node.log));
    }
}

proof fn lemma_append_reply<S: StateMachine>(
    node: NodeModel<S>,
    from: NodeId,
    reply: AppendEntriesReply,
    now_ms: u64,
)
    requires
        node.well_formed(),
    ensures
        moves_forward(node, node.on_append_reply(from, reply, now_ms).0),
{
    assert(node.log.is_prefix_of(node.log));
    let acknowledged = node.contacted(from, now_ms).acknowledged(from, reply.match_index);
    lemma_commit_point(acknowledged, acknowledged.last_index());
    let advanced = NodeModel {
        commit_index: acknowledged.commit_point(acknowledged.last_index()) as usize,
        ..acknowledged
    };
    lemma_apply_committed_frame(advanced);
}

proof fn lemma_install<S: StateMachine>(node: NodeModel<S>, snapshot: SnapshotView)
    ensures
        ({
            let after = node.install_snapshot(snapshot).0;
            &&& after.current_term == node.current_term
            &&& after.voted_for == node.voted_for
            &&& after.role == node.role
            &&& node.log_base_index <= after.log_base_index
            &&& node.commit_index <= after.commit_index
            &&& node.last_applied <= node.commit_index ==> node.last_applied <= after.last_applied
            &&& node.install_snapshot(snapshot).1 !is Ok ==> after == (NodeModel {
                state: after.state,
                ..node
            })
        }),
{
}

proof fn lemma_handled_install<S: StateMachine>(
    node: NodeModel<S>,
    from: NodeId,
    snapshot: SnapshotView,
    now_ms: u64,
)
    requires
        node.role != Role::Leader,
    ensures
        moves_forward(node, node.install_from(from, snapshot, now_ms).0),
        moves_forward(node, node.on_install_snapshot(from, snapshot, now_ms).0),
{
    lemma_install(node, snapshot);
}

proof fn lemma_install_request<S: StateMachine>(
    node: NodeModel<S>,
    from: NodeId,
    request: InstallSnapshotRequestView,
    now_ms: u64,
)
    ensures
        moves_forward(node, node.on_install_request(from, request, now_ms).0),
{
    assert(node.log.is_prefix_of(node.log));
    if request.term >= node.current_term {
        let present = node.following(request.term, now_ms);
        lemma_led(node, request.term, from, now_ms);
        lemma_handled_install(present, from, request.snapshot, now_ms);
        lemma_install(present, request.snapshot);
    }
}

proof fn lemma_chunk<S: StateMachine>(
    node: NodeModel<S>,
    from: NodeId,
    chunk: InstallSnapshotChunkView,
    now_ms: u64,
)
    ensures
        moves_forward(node, node.on_chunk(from, chunk, now_ms).0),
{
    assert(node.log.is_prefix_of(node.log));
    if node.admits_chunk(from, chunk) {
        let ready = node.receiving(chunk, now_ms);
        lemma_led(node, chunk.term, from, now_ms);
        assert(moves_forward(node, ready));
        assert(moves_forward(node, ready.storing(chunk)));
        assert(moves_forward(node, ready.storing(chunk).timer_reset(now_ms)));
        if let Some(snapshot) = parsed_snapshot(ready.arrived(chunk)) {
            lemma_install(ready, snapshot);
            let installed = ready.install_from(from, snapshot, now_ms).0;
            assert(moves_forward(node, NodeModel { incoming_snapshot: None, ..installed }));
        }
        assert(moves_forward(
            node,
            ready.finish_transfer(from, ready.arrived(chunk), now_ms).0,
        ));
    }
}

proof fn lemma_chunk_reply<S: StateMachine>(
    node: NodeModel<S>,
    from: NodeId,
    reply: InstallSnapshotChunkReply,
    now_ms: u64,
)
    ensures
        moves_forward(node, node.on_chunk_reply(from, reply, now_ms).0),
{
    assert(node.log.is_prefix_of(node.log));
}

proof fn lemma_install_reply<S: StateMachine>(
    node: NodeModel<S>,
    from: NodeId,
    reply: InstallSnapshotReply,
    now_ms: u64,
)
    ensures
        moves_forward(node, node.on_install_reply(from, reply, now_ms).0),
{
    assert(node.log.is_prefix_of(node.log));
}

proof fn lemma_vote_replies<S: StateMachine>(
    node: NodeModel<S>,
    from: NodeId,
    reply: RequestVoteReply,
    now_ms: u64,
)
    requires
        node.well_formed(),
        node.last_index() + 1 < usize::MAX || !node.wins_vote(from, reply),
    ensures
        moves_forward(node, node.on_request_vote_reply(from, reply, now_ms).0),
{
    assert(node.log.is_prefix_of(node.log));
}

proof fn lemma_pre_vote_replies<S: StateMachine>(
    node: NodeModel<S>,
    from: NodeId,
    reply: PreVoteReply,
    now_ms: u64,
)
    requires
        node.wins_pre_vote(from, reply) ==> node.current_term < u64::MAX,
    ensures
        moves_forward(node, node.on_pre_vote_reply(from, reply, now_ms).0),
{
    assert(node.log.is_prefix_of(node.log));
}

proof fn lemma_timeout<S: StateMachine>(
    node: NodeModel<S>,
    from: NodeId,
    request: TimeoutNow,
    now_ms: u64,
)
    requires
        node.heeds_timeout(from, request) ==> request.term < u64::MAX,
    ensures
        moves_forward(node, node.on_timeout_now(from, request, now_ms).0),
{
    assert(node.log.is_prefix_of(node.log));
}

proof fn lemma_vote_request<S: StateMachine>(
    node: NodeModel<S>,
    request: RequestVote,
    now_ms: u64,
)
    ensures
        moves_forward(node, node.on_request_vote(request, now_ms).0),
{
    assert(node.log.is_prefix_of(node.log));
}

proof fn lemma_read_index<S: StateMachine>(
    node: NodeModel<S>,
    from: NodeId,
    request: ReadIndex,
    now_ms: u64,
)
    ensures
        moves_forward(node, node.on_read_index(from, request, now_ms).0),
{
    assert(node.log.is_prefix_of(node.log));
    if request.term >= node.current_term {
        lemma_led(node, request.term, from, now_ms);
    }
}

proof fn lemma_read_reply<S: StateMachine>(
    node: NodeModel<S>,
    from: NodeId,
    reply: ReadIndexReply,
    now_ms: u64,
)
    ensures
        moves_forward(node, node.on_read_reply(from, reply, now_ms).0),
{
    assert(node.log.is_prefix_of(node.log));
}

/// A bare snapshot, which comes without a term, is installed by a leader.
pub open spec fn overwrites_leader<S: StateMachine>(node: NodeModel<S>, rpc: RpcView) -> bool {
    &&& node.role == Role::Leader
    &&& rpc matches RpcView::InstallSnapshot(snapshot) && snapshot.valid() && !node.outdates(
        snapshot,
    )
}

/// Whatever a node is told, nothing goes backwards, except that a bare snapshot can
/// replace a leader's log; even then the term, the vote, the snapshot boundary and what is
/// committed and applied stay or move forward.
pub proof fn law_handling_moves_forward<S: StateMachine>(
    node: NodeModel<S>,
    from: NodeId,
    rpc: RpcView,
    now_ms: u64,
)
    requires
        node.well_formed(),
        node.can_handle(from, rpc, now_ms),
    ensures
        !overwrites_leader(node, rpc) ==> moves_forward(node, node.handle(from, rpc, now_ms).0),
        overwrites_leader(node, rpc) ==> {
            let after = node.handle(from, rpc, now_ms).0;
            &&& after.role == node.role
            &&& after.current_term == node.current_term
            &&& after.voted_for == node.voted_for
            &&& node.log_base_index <= after.log_base_index
            &&& node.commit_index <= after.commit_index
            &&& node.last_applied <= node.commit_index ==> node.last_applied <= after.last_applied
        },
{
    match rpc {
        RpcView::RequestVoteReply(reply) => {
            lemma_vote_replies(node, from, reply, now_ms);
        },
        RpcView::AppendEntries(request) => {
            lemma_append_entries(node, request, now_ms);
        },
        RpcView::AppendEntriesReply(reply) => {
            lemma_append_reply(node, from, reply, now_ms);
        },
        RpcView::InstallSnapshot(snapshot) => {
            if node.role != Role::Leader {
                lemma_handled_install(node, from, snapshot, now_ms);
            } else if !overwrites_leader(node, rpc) {
                assert(node.log.is_prefix_of(node.log));
                assert(node.on_install_snapshot(from, snapshot, now_ms).0 == node);
            }
        },
        RpcView::InstallSnapshotReply(reply) => {
            lemma_install_reply(node, from, reply, now_ms);
        },
        RpcView::PreVoteReply(reply) => {
            lemma_pre_vote_replies(node, from, reply, now_ms);
        },
        RpcView::InstallSnapshotRequest(request) => {
            lemma_install_request(node, from, request, now_ms);
        },
        RpcView::TimeoutNow(request) => {
            lemma_timeout(node, from, request, now_ms);
        },
        RpcView::InstallSnapshotChunk(chunk) => {
            lemma_chunk(node, from, chunk, now_ms);
        },
        RpcView::InstallSnapshotChunkReply(reply) => {
            lemma_chunk_reply(node, from, reply, now_ms);
        },
        RpcView::RequestVote(vote) => {
            lemma_vote_request(node, vote, now_ms);
        },
        RpcView::ReadIndex(read) => {
            lemma_read_index(node, from, read, now_ms);
        },
        RpcView::ReadIndexReply(reply) => {
            lemma_read_reply(node, from, reply, now_ms);
        },
        RpcView::PreVote(_) => {
            assert(node.log.is_prefix_of(node.log));
        },
    }
}

/// Nothing goes backwards when the clock ticks.
pub proof fn law_ticking_moves_forward<S: StateMachine>(node: NodeModel<S>, now_ms: u64)
    requires
        node.can_tick(now_ms),
    ensures
        moves_forward(node, node.tick(now_ms).0),
{
    assert(node.log.is_prefix_of(node.log));
}

} // verus!
