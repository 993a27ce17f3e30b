//! What holds of votes, elections and leadership.
use crate::codec::parsed_snapshot;
use crate::node::model::clock_has_room;
use crate::node::model::NodeModel;
use crate::node::QUORUM_LEASE_MS;
use crate::node::replication::lemma_apply_committed_frame;
use crate::node::ELECTION_MIN_MS;
use crate::node::ELECTION_SPAN_MS;
use crate::node::HEARTBEAT_MS;
use crate::state_machine::StateMachine;
use crate::types::AppendEntriesReply;
use crate::types::LogIndex;
use crate::types::NodeId;
use crate::types::PreVote;
use crate::types::PreVoteReply;
use crate::types::RequestVote;
use crate::types::RequestVoteReply;
use crate::types::Role;
use crate::types::RpcView;
use crate::types::Term;
use crate::types::TimeoutNow;
use vstd::prelude::*;

verus! {

/// A vote is granted only to a candidate that is not behind, neither in its term
/// nor in its log, and is remembered.
pub proof fn law_vote_needs_a_complete_log<S: StateMachine>(
    node: NodeModel<S>,
    request: RequestVote,
    now_ms: u64,
)
    ensures
        ({
            let (after, reply) = node.on_request_vote(request, now_ms);
            reply.vote_granted ==> {
                &&& request.term >= node.current_term
                &&& node.up_to_date(request.last_log_index, request.last_log_term)
                &&& after.current_term == request.term
                &&& after.voted_for == Some(request.candidate_id)
            }
        }),
{
}

/// A node that has voted in its term grants no vote of that term to anyone else.
pub proof fn law_one_vote_per_term<S: StateMachine>(
    node: NodeModel<S>,
    request: RequestVote,
    now_ms: u64,
)
    requires
        request.term == node.current_term,
        node.voted_for is Some,
        node.on_request_vote(request, now_ms).1.vote_granted,
    ensures
        node.voted_for == Some(request.candidate_id),
{
}

/// Of two requests of one term, one right after the other, a node grants only one,
/// unless both come from the same candidate.
pub proof fn law_second_vote_goes_to_the_same_candidate<S: StateMachine>(
    node: NodeModel<S>,
    first: RequestVote,
    second: RequestVote,
    now_ms: u64,
    later_ms: u64,
)
    requires
        first.term == second.term,
        node.on_request_vote(first, now_ms).1.vote_granted,
        node.on_request_vote(first, now_ms).0.on_request_vote(second, later_ms).1.vote_granted,
    ensures
        first.candidate_id == second.candidate_id,
{
}

/// A message makes a node the leader only if it is a vote that completes a majority
/// of distinct voters in the node's term.
pub proof fn law_leader_has_a_majority<S: StateMachine>(
    node: NodeModel<S>,
    from: NodeId,
    rpc: RpcView,
    now_ms: u64,
)
    requires
        node.role != Role::Leader,
        node.handle(from, rpc, now_ms).0.role == Role::Leader,
    ensures
        rpc matches RpcView::RequestVoteReply(reply) && {
            &&& node.role == Role::Candidate
            &&& reply.vote_granted
            &&& reply.term == node.current_term
            &&& !node.granted_voters.contains(from)
            &&& node.granted_voters.insert(from).len() >= node.majority()
        },
{
    match rpc {
        RpcView::RequestVoteReply(_) => {},
        RpcView::AppendEntries(request) => {
            let led = node.following(request.term, now_ms).led_by(request.leader_id, now_ms);
            lemma_apply_committed_frame(led.appended(request));
        },
        RpcView::InstallSnapshot(_) => {},
        RpcView::InstallSnapshotRequest(_) => {},
        RpcView::InstallSnapshotChunk(chunk) => {
            let ready = node.receiving(chunk, now_ms);
            assert(ready.role != Role::Leader);
            assert(ready.finish_transfer(from, ready.arrived(chunk), now_ms).0.role == ready.role);
        },
        _ => {},
    }
}

/// The clock makes no node the leader.
pub proof fn law_clock_elects_nobody<S: StateMachine>(node: NodeModel<S>, now_ms: u64)
    requires
        node.role != Role::Leader,
    ensures
        node.tick(now_ms).0.role != Role::Leader,
{
}

/// A second vote of the same voter counts for nothing.
pub proof fn law_duplicate_vote_counts_once<S: StateMachine>(
    node: NodeModel<S>,
    from: NodeId,
    reply: RequestVoteReply,
    now_ms: u64,
)
    requires
        node.granted_voters.contains(from),
        reply.term <= node.current_term,
    ensures
        node.on_request_vote_reply(from, reply, now_ms).0 == node,
        node.on_request_vote_reply(from, reply, now_ms).1.len() == 0,
{
}

/// A vote of another term counts for nothing.
pub proof fn law_stale_vote_counts_for_nothing<S: StateMachine>(
    node: NodeModel<S>,
    from: NodeId,
    reply: RequestVoteReply,
    now_ms: u64,
)
    requires
        reply.term < node.current_term,
    ensures
        node.on_request_vote_reply(from, reply, now_ms).0 == node,
        node.on_request_vote_reply(from, reply, now_ms).1.len() == 0,
{
}

/// Asking for a pre-vote, in a cluster of more than one, changes neither the term
/// nor the vote nor the role, and sends nothing but pre-vote requests.
pub proof fn law_pre_vote_disturbs_nobody<S: StateMachine>(node: NodeModel<S>, now_ms: u64)
    requires
        node.role == Role::Follower,
        node.peers.len() > 0,
    ensures
        ({
            let (after, messages) = node.tick(now_ms);
            &&& after.current_term == node.current_term
            &&& after.voted_for == node.voted_for
            &&& after.role == Role::Follower
            &&& forall|i: int| 0 <= i < messages.len() ==> (#[trigger] messages[i]).rpc is PreVote
        }),
{
}

/// Being asked for a pre-vote changes nothing at all.
pub proof fn law_pre_vote_request_changes_nothing<S: StateMachine>(
    node: NodeModel<S>,
    from: NodeId,
    request: PreVote,
    now_ms: u64,
)
    ensures
        node.handle(from, RpcView::PreVote(request), now_ms).0 == node,
{
}

/// Until a majority has granted the pre-vote, the term, the vote and the role stay.
pub proof fn law_pre_vote_needs_a_majority<S: StateMachine>(
    node: NodeModel<S>,
    from: NodeId,
    reply: PreVoteReply,
    now_ms: u64,
)
    requires
        reply.term <= node.current_term,
        node.pre_vote_granted.insert(from).len() < node.majority(),
    ensures
        ({
            let (after, messages) = node.on_pre_vote_reply(from, reply, now_ms);
            &&& after.current_term == node.current_term
            &&& after.voted_for == node.voted_for
            &&& after.role == node.role
            &&& messages.len() == 0
        }),
{
}

/// While a node hears from a live leader it grants no pre-vote.
pub proof fn law_live_leader_is_left_alone<S: StateMachine>(
    node: NodeModel<S>,
    request: PreVote,
    now_ms: u64,
)
    requires
        node.leader_id is Some,
        now_ms < node.last_leader_contact + QUORUM_LEASE_MS,
    ensures
        !node.pre_vote_reply(request, now_ms).vote_granted,
{
}

/// A new election timer runs out no earlier than 150 and no later than 300
/// milliseconds from now.
pub proof fn law_timer_is_bounded<S: StateMachine>(node: NodeModel<S>, now_ms: u64)
    requires
        clock_has_room(now_ms),
    ensures
        now_ms + 150 <= node.timer_reset(now_ms).election_deadline <= now_ms + 300,
{
}

/// A message that is not said to set the election timer leaves it as it is.
pub proof fn law_timer_is_set_by_no_other_message<S: StateMachine>(
    node: NodeModel<S>,
    from: NodeId,
    rpc: RpcView,
    now_ms: u64,
)
    requires
        !node.sets_timer(from, rpc, now_ms),
    ensures
        node.handle(from, rpc, now_ms).0.election_deadline == node.election_deadline,
{
    reveal(NodeModel::sets_timer);
    match rpc {
        RpcView::AppendEntriesReply(reply) => {
            let noted = node.contacted(from, now_ms).acknowledged(from, reply.match_index);
            lemma_apply_committed_frame(
                NodeModel {
                    commit_index: noted.commit_point(noted.last_index()) as LogIndex,
                    ..noted
                },
            );
        },
        RpcView::InstallSnapshot(snapshot) => {
            assert(node.install_from(from, snapshot, now_ms).0.election_deadline
                == node.election_deadline);
        },
        RpcView::InstallSnapshotRequest(request) => {
            if request.term == node.current_term && request.leader_id == from {
                assert(node.following(request.term, now_ms) == node);
                assert(node.install_from(from, request.snapshot, now_ms).0.election_deadline
                    == node.election_deadline);
            }
        },
        RpcView::InstallSnapshotChunk(chunk) => {
            let ready = node.receiving(chunk, now_ms);
            if node.admits_chunk(from, chunk) {
                assert(node.following(chunk.term, now_ms) == node);
                assert(ready.election_deadline == node.election_deadline);
                if node.completes_transfer(from, chunk, now_ms) {
                    if let Some(snapshot) = parsed_snapshot(ready.arrived(chunk)) {
                        assert(ready.takes(snapshot) == node.takes(snapshot));
                        assert(ready.install_from(from, snapshot, now_ms).0.election_deadline
                            == ready.election_deadline);
                    }
                }
            }
        },
        _ => {},
    }
}

/// A node that steps down waits out the election timer before it campaigns: until
/// then the clock moves nothing.
pub proof fn law_stepping_down_waits<S: StateMachine>(
    node: NodeModel<S>,
    term: Term,
    now_ms: u64,
    later_ms: u64,
)
    requires
        clock_has_room(now_ms),
        later_ms < now_ms + ELECTION_MIN_MS,
    ensures
        ({
            let after = node.stepped_down(term, now_ms);
            &&& after.tick(later_ms).0 == after
            &&& after.tick(later_ms).1.len() == 0
        }),
{
}

/// A node that learns of a later term from a reply becomes a follower of that term
/// and points clients to no leader.
pub proof fn law_later_term_ends_leadership<S: StateMachine>(
    node: NodeModel<S>,
    from: NodeId,
    reply: AppendEntriesReply,
    now_ms: u64,
)
    requires
        reply.term > node.current_term,
    ensures
        ({
            let after = node.on_append_reply(from, reply, now_ms).0;
            &&& after.role == Role::Follower
            &&& after.current_term == reply.term
            &&& after.leader_id is None
            &&& after.voted_for is None
        }),
{
}

/// A leader that has not heard from a majority within the lease steps down at its
/// next heartbeat and points clients to no leader.
pub proof fn law_lost_quorum_ends_leadership<S: StateMachine>(node: NodeModel<S>, now_ms: u64)
    requires
        node.role == Role::Leader,
        now_ms >= node.last_heartbeat_at + HEARTBEAT_MS,
        node.active_contacts(now_ms).len() < node.majority(),
    ensures
        ({
            let (after, messages) = node.tick(now_ms);
            &&& after.role == Role::Follower
            &&& after.leader_id is None
            &&& after.current_term == node.current_term
            &&& messages.len() == 0
        }),
{
}

/// Any two majorities of a cluster share a member.
pub proof fn law_majorities_meet<S: StateMachine>(
    node: NodeModel<S>,
    members: Set<NodeId>,
    first: Set<NodeId>,
    second: Set<NodeId>,
)
    requires
        members.finite(),
        members.len() == node.peers.len() + 1,
        first.subset_of(members),
        second.subset_of(members),
        first.len() >= node.majority(),
        second.len() >= node.majority(),
    ensures
        exists|member: NodeId| first.contains(member) && second.contains(member),
{
    vstd::set_lib::lemma_len_subset(first, members);
    vstd::set_lib::lemma_len_subset(second, members);
    if !exists|member: NodeId| first.contains(member) && second.contains(member) {
        assert(first.disjoint(second));
        vstd::set_lib::lemma_set_disjoint_lens(first, second);
        vstd::set_lib::lemma_len_subset(first + second, members);
    }
}

/// A leader asks a peer to campaign only once the peer is known to hold the whole
/// log.
pub proof fn law_transfer_waits_for_the_target<S: StateMachine>(
    node: NodeModel<S>,
    target: NodeId,
    now_ms: u64,
)
    requires
        node.role == Role::Leader,
        node.peers.contains(target),
    ensures
        node.transfer_leadership(target, now_ms).1 matches Ok(messages) && {
            &&& messages.len() == 1
            &&& messages[0].to == target
            &&& messages[0].rpc is TimeoutNow <==> node.matched_by(target) >= node.last_index()
        },
{
}

/// A peer that is asked to campaign by its leader starts an election at once, in
/// the next term, with its own vote.
pub proof fn law_timeout_now_campaigns<S: StateMachine>(
    node: NodeModel<S>,
    from: NodeId,
    request: TimeoutNow,
    now_ms: u64,
)
    requires
        request.leader_id == from,
        request.term >= node.current_term,
        request.term < u64::MAX,
    ensures
        ({
            let (after, messages) = node.on_timeout_now(from, request, now_ms);
            &&& after.role == Role::Candidate
            &&& after.current_term == request.term + 1
            &&& after.voted_for == Some(node.id)
            &&& after.granted_voters == Set::empty().insert(node.id)
            &&& messages.len() == node.peers.len()
            &&& forall|i: int|
                0 <= i < messages.len() ==> (#[trigger] messages[i]).rpc is RequestVote
        }),
{
}

/// A new node with peers does nothing before the least election time has passed, and
/// asks for votes once the greatest has.
pub proof fn law_new_node_waits_its_turn<S: StateMachine>(
    id: NodeId,
    peers: Seq<NodeId>,
    state: S::V,
    now_ms: u64,
)
    requires
        peers.len() > 0,
    ensures
        ({
            let node = NodeModel::<S>::initial(id, peers, state);
            let (after, messages) = node.tick(now_ms);
            &&& now_ms < ELECTION_MIN_MS ==> after == node && messages.len() == 0
            &&& now_ms >= ELECTION_MIN_MS + ELECTION_SPAN_MS - 1 ==> messages.len() == peers.len()
                && forall|i: int|
                0 <= i < messages.len() ==> (#[trigger] messages[i]).to == peers[i]
                    && messages[i].rpc is PreVote
        }),
{
}

} // verus!
