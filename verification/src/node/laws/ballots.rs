//! Who votes for whom, seen from one node.
use crate::codec::parsed_snapshot;
use crate::node::model::NodeModel;
use crate::node::replication::lemma_apply_committed_frame;
use crate::state_machine::StateMachine;
use crate::types::AppendEntriesReply;
use crate::types::AppendEntriesView;
use crate::types::ClientRequestView;
use crate::types::InstallSnapshotChunkReply;
use crate::types::InstallSnapshotChunkView;
use crate::types::InstallSnapshotRequestView;
use crate::types::MessageView;
use crate::types::NodeId;
use crate::types::RequestVote;
use crate::types::RequestVoteReply;
use crate::types::Role;
use crate::types::RpcView;
use crate::types::SnapshotView;
use crate::types::Term;
use vstd::prelude::*;

verus! {

/// A candidate or a leader has voted for itself, and a leader has a majority.
pub open spec fn stands_for_itself<S: StateMachine>(node: NodeModel<S>) -> bool {
    &&& node.role != Role::Follower ==> node.voted_for == Some(node.id)
    &&& node.role == Role::Leader ==> node.granted_voters.len() >= node.majority()
}

/// Nothing changes that elections depend on.
pub open spec fn same_ballot<S: StateMachine>(node: NodeModel<S>, other: NodeModel<S>) -> bool {
    &&& other.id == node.id
    &&& other.peers == node.peers
    &&& other.role == node.role
    &&& other.current_term == node.current_term
    &&& other.voted_for == node.voted_for
    &&& other.granted_voters == node.granted_voters
}

/// The message is a vote for `candidate` in `term`.
pub open spec fn is_vote(
    message: MessageView,
    voter: NodeId,
    term: Term,
    candidate: NodeId,
) -> bool {
    &&& message.from == voter
    &&& message.to == candidate
    &&& message.rpc matches RpcView::RequestVoteReply(reply) && reply.term == term
        && reply.vote_granted
}

/// A request for a vote names the node it comes from.
pub open spec fn asks_for_itself(message: MessageView) -> bool {
    message.rpc matches RpcView::RequestVote(request) ==> request.candidate_id == message.from
}

/// What the voters of a candidate or leader can become: they stay, one more is
/// counted, or a new term begins with the node's own vote.
pub open spec fn counts_rightly<S: StateMachine>(
    node: NodeModel<S>,
    after: NodeModel<S>,
    vote: Option<(NodeId, Term)>,
) -> bool {
    after.role != Role::Follower ==> {
        ||| {
            &&& after.current_term == node.current_term
            &&& node.role != Role::Follower
            &&& {
                ||| after.granted_voters == node.granted_voters
                ||| vote matches Some((voter, term)) && term == node.current_term
                    && after.granted_voters == node.granted_voters.insert(voter)
            }
        }
        ||| {
            &&& after.current_term > node.current_term
            &&& after.granted_voters == Set::empty().insert(node.id)
        }
    }
}

/// The vote that a message brings.
pub open spec fn vote_in(from: NodeId, rpc: RpcView) -> Option<(NodeId, Term)> {
    match rpc {
        RpcView::RequestVoteReply(reply) if reply.vote_granted => Some((from, reply.term)),
        _ => None,
    }
}

/// The messages hold no votes, and ask for votes for this node only.
pub open spec fn votes_for_nobody<S: StateMachine>(
    node: NodeModel<S>,
    messages: Seq<MessageView>,
) -> bool {
    forall|i: int|
        0 <= i < messages.len() ==> {
            &&& asks_for_itself(#[trigger] messages[i])
            &&& messages[i].rpc !is RequestVoteReply
        }
}

/// What a node does that is told anything but a request for a vote.
spec fn fair<S: StateMachine>(
    node: NodeModel<S>,
    after: NodeModel<S>,
    messages: Seq<MessageView>,
    vote: Option<(NodeId, Term)>,
) -> bool {
    &&& stands_for_itself(node) ==> stands_for_itself(after)
    &&& counts_rightly(node, after, vote)
    &&& votes_for_nobody(node, messages)
}

proof fn lemma_append<S: StateMachine>(
    node: NodeModel<S>,
    from: NodeId,
    request: AppendEntriesView,
    now_ms: u64,
)
    ensures
        ({
            let (after, messages) = node.handle(from, RpcView::AppendEntries(request), now_ms);
            fair(node, after, messages, None)
        }),
{
    if node.accepts_append(request) {
        let led = node.following(request.term, now_ms).led_by(request.leader_id, now_ms);
        lemma_apply_committed_frame(led.appended(request));
    }
}

proof fn lemma_append_reply<S: StateMachine>(
    node: NodeModel<S>,
    from: NodeId,
    reply: AppendEntriesReply,
    now_ms: u64,
)
    ensures
        ({
            let (after, messages) = node.on_append_reply(from, reply, now_ms);
            fair(node, after, messages, None)
        }),
{
    let acknowledged = node.contacted(from, now_ms).acknowledged(from, reply.match_index);
    lemma_apply_committed_frame(
        NodeModel {
            commit_index: acknowledged.commit_point(acknowledged.last_index()) as usize,
            ..acknowledged
        },
    );
}

proof fn lemma_install<S: StateMachine>(
    node: NodeModel<S>,
    from: NodeId,
    snapshot: SnapshotView,
    now_ms: u64,
)
    ensures
        same_ballot(node, node.install_from(from, snapshot, now_ms).0),
{
}

proof fn lemma_install_request<S: StateMachine>(
    node: NodeModel<S>,
    from: NodeId,
    request: InstallSnapshotRequestView,
    now_ms: u64,
)
    ensures
        ({
            let (after, messages) = node.handle(
                from,
                RpcView::InstallSnapshotRequest(request),
                now_ms,
            );
            fair(node, after, messages, None)
        }),
{
    lemma_install(node.following(request.term, now_ms), from, request.snapshot, now_ms);
}

proof fn lemma_chunk<S: StateMachine>(
    node: NodeModel<S>,
    from: NodeId,
    chunk: InstallSnapshotChunkView,
    now_ms: u64,
)
    ensures
        ({
            let (after, messages) = node.handle(
                from,
                RpcView::InstallSnapshotChunk(chunk),
                now_ms,
            );
            fair(node, after, messages, None)
        }),
{
    let ready = node.receiving(chunk, now_ms);
    if let Some(snapshot) = parsed_snapshot(ready.arrived(chunk)) {
        lemma_install(ready, from, snapshot, now_ms);
    }
    assert(same_ballot(ready, ready.finish_transfer(from, ready.arrived(chunk), now_ms).0));
    assert(same_ballot(ready, ready.storing(chunk)));
    let after = node.on_chunk(from, chunk, now_ms).0;
    assert(same_ballot(node, after) || (node.admits_chunk(from, chunk) && same_ballot(
        ready,
        after,
    )));
}

proof fn lemma_others<S: StateMachine>(
    node: NodeModel<S>,
    from: NodeId,
    rpc: RpcView,
    now_ms: u64,
)
    requires
        node.can_handle(from, rpc, now_ms),
        rpc is PreVote || rpc is PreVoteReply || rpc is ReadIndex || rpc is ReadIndexReply
            || rpc is TimeoutNow || rpc is InstallSnapshotReply,
    ensures
        ({
            let (after, messages) = node.handle(from, rpc, now_ms);
            fair(node, after, messages, None)
        }),
{
}

proof fn lemma_chunk_reply<S: StateMachine>(
    node: NodeModel<S>,
    from: NodeId,
    reply: InstallSnapshotChunkReply,
    now_ms: u64,
)
    ensures
        ({
            let (after, messages) = node.on_chunk_reply(from, reply, now_ms);
            fair(node, after, messages, None)
        }),
{
}

proof fn lemma_vote_reply<S: StateMachine>(
    node: NodeModel<S>,
    from: NodeId,
    reply: RequestVoteReply,
    now_ms: u64,
)
    requires
        node.well_formed(),
    ensures
        ({
            let (after, messages) = node.on_request_vote_reply(from, reply, now_ms);
            fair(node, after, messages, vote_in(from, RpcView::RequestVoteReply(reply)))
        }),
{
}

/// What a message other than a request for a vote does to a node's part in
/// elections: it keeps standing for itself, it counts only votes that it is given,
/// and it gives none.
pub proof fn law_votes_are_counted_rightly<S: StateMachine>(
    node: NodeModel<S>,
    from: NodeId,
    rpc: RpcView,
    now_ms: u64,
)
    requires
        node.well_formed(),
        node.can_handle(from, rpc, now_ms),
        rpc !is RequestVote,
    ensures
        ({
            let (after, messages) = node.handle(from, rpc, now_ms);
            &&& stands_for_itself(node) ==> stands_for_itself(after)
            &&& counts_rightly(node, after, vote_in(from, rpc))
            &&& votes_for_nobody(node, messages)
        }),
{
    match rpc {
        RpcView::RequestVoteReply(reply) => {
            lemma_vote_reply(node, from, reply, now_ms);
        },
        RpcView::AppendEntries(request) => {
            lemma_append(node, from, request, now_ms);
        },
        RpcView::AppendEntriesReply(reply) => {
            lemma_append_reply(node, from, reply, now_ms);
        },
        RpcView::InstallSnapshot(snapshot) => {
            lemma_install(node, from, snapshot, now_ms);
        },
        RpcView::InstallSnapshotRequest(request) => {
            lemma_install_request(node, from, request, now_ms);
        },
        RpcView::InstallSnapshotChunk(chunk) => {
            lemma_chunk(node, from, chunk, now_ms);
        },
        RpcView::InstallSnapshotChunkReply(reply) => {
            lemma_chunk_reply(node, from, reply, now_ms);
        },
        _ => {
            lemma_others(node, from, rpc, now_ms);
        },
    }
}

/// A request for a vote is answered once, to its sender. If the vote is granted, it
/// is of the node's term, is remembered, and was not given to anyone else before.
pub proof fn law_vote_is_given_once<S: StateMachine>(
    node: NodeModel<S>,
    from: NodeId,
    request: RequestVote,
    now_ms: u64,
)
    ensures
        ({
            let (after, messages) = node.handle(from, RpcView::RequestVote(request), now_ms);
            &&& stands_for_itself(node) ==> stands_for_itself(after)
            &&& counts_rightly(node, after, None)
            &&& messages.len() == 1
            &&& messages[0].from == node.id
            &&& messages[0].to == from
            &&& messages[0].rpc matches RpcView::RequestVoteReply(reply) && {
                reply.vote_granted ==> {
                    &&& reply.term == after.current_term
                    &&& after.voted_for == Some(request.candidate_id)
                    &&& node.current_term < reply.term || node.voted_for is None || node.voted_for
                        == Some(request.candidate_id)
                }
            }
        }),
{
}

/// The clock lets a node stand for itself in a new term, and nothing else.
pub proof fn law_clock_gives_no_vote<S: StateMachine>(node: NodeModel<S>, now_ms: u64)
    requires
        node.can_tick(now_ms),
    ensures
        ({
            let (after, messages) = node.tick(now_ms);
            &&& stands_for_itself(node) ==> stands_for_itself(after)
            &&& counts_rightly(node, after, None)
            &&& votes_for_nobody(node, messages)
        }),
{
}

/// Clients have no part in elections.
pub proof fn law_clients_do_not_vote<S: StateMachine>(
    node: NodeModel<S>,
    request: ClientRequestView,
)
    ensures
        same_ballot(node, node.start_read().0),
        same_ballot(node, node.start_write(request).0),
        node.start_read().1 matches Ok((_, messages)) ==> votes_for_nobody(node, messages),
        node.start_write(request).1 matches Ok((_, messages)) ==> votes_for_nobody(node, messages),
{
}

} // verus!
