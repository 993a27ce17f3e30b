//! How a node votes, asks for votes and counts them.
use crate::node::laws::slots::end_of;
use crate::node::laws::slots::end_term;
use crate::node::laws::slots::is_most_of;
use crate::node::laws::slots::is_sole;
use crate::node::laws::slots::law_log_is_counted_by_its_slots;
use crate::node::laws::slots::law_majority_is_more_than_half;
use crate::node::laws::slots::reaches_peers;
use crate::node::model::clock_has_room;
use crate::node::model::NodeModel;
use crate::state_machine::StateMachine;
use crate::types::AppendEntriesView;
use crate::types::CommandView;
use crate::types::LogEntryView;
use crate::types::LogIndex;
use crate::types::MessageView;
use crate::types::NodeId;
use crate::types::PreVote;
use crate::types::PreVoteReply;
use crate::types::RequestVote;
use crate::types::RequestVoteReply;
use crate::types::Role;
use crate::types::RpcView;
use crate::types::Term;
use crate::types::TimeoutNow;
use vstd::prelude::*;

verus! {

/// A log that ends at `index` in `term` ends no earlier than the node's: in a later term,
/// or in the same at the same index or behind it.
pub open spec fn ends_no_earlier<S: StateMachine>(
    node: NodeModel<S>,
    index: LogIndex,
    term: Term,
) -> bool {
    ||| term > end_term(node)
    ||| term == end_term(node) && index >= end_of(node)
}

/// The election timer was set at `now_ms`.
pub open spec fn is_timed<S: StateMachine>(after: NodeModel<S>, now_ms: u64) -> bool {
    now_ms + 150 <= after.election_deadline <= now_ms + 300
}

/// The node is a follower of `term` without a leader, a vote or anything of an earlier
/// office, and keeps its log and its state.
pub open spec fn starts_over<S: StateMachine>(
    node: NodeModel<S>,
    after: NodeModel<S>,
    term: Term,
    now_ms: u64,
) -> bool {
    &&& after == (NodeModel {
        role: Role::Follower,
        current_term: term,
        voted_for: None,
        leader_id: None,
        votes_granted: 0,
        granted_voters: Set::empty(),
        pre_vote_term: None,
        pre_vote_granted: Set::empty(),
        pending_reads: Map::empty(),
        leader_transfer_target: None,
        last_quorum_contact: Map::empty(),
        rng_state: after.rng_state,
        election_deadline: after.election_deadline,
        ..node
    })
    &&& is_timed(after, now_ms)
}

/// An election timer runs for 150 milliseconds and up to 150 more, which are drawn from
/// the node's own numbers.
pub proof fn law_timer_is_drawn<S: StateMachine>(node: NodeModel<S>, now_ms: u64)
    requires
        clock_has_room(now_ms),
    ensures
        ({
            let after = node.timer_reset(now_ms);
            &&& after.rng_state == node.rng_state.wrapping_mul(6364136223846793005).wrapping_add(1)
            &&& after.election_deadline == now_ms + 150 + after.rng_state % 151
            &&& after == (NodeModel {
                rng_state: after.rng_state,
                election_deadline: after.election_deadline,
                ..node
            })
        }),
{
}

/// A node that hears from a leader of a later term, or of its own while it is no follower,
/// starts over in that term; one that follows already stays as it is.
pub proof fn law_node_follows_a_leader<S: StateMachine>(
    node: NodeModel<S>,
    term: Term,
    now_ms: u64,
)
    requires
        term >= node.current_term,
        clock_has_room(now_ms),
    ensures
        ({
            let after = node.following(term, now_ms);
            &&& term > node.current_term || node.role != Role::Follower ==> starts_over(
                node,
                after,
                term,
                now_ms,
            )
            &&& term == node.current_term && node.role == Role::Follower ==> after == node
        }),
{
}

/// A node votes for whoever may have its vote: a candidate of a later term, or one of its
/// own term if the node leads not and has voted for nobody else, whose log ends in a later
/// term than the node's, or in the same no earlier. It votes for no other. Its answer
/// names the later of the two terms, and a vote is remembered.
pub proof fn law_vote_goes_to_a_log_that_ends_no_earlier<S: StateMachine>(
    node: NodeModel<S>,
    from: NodeId,
    request: RequestVote,
    now_ms: u64,
)
    requires
        node.well_formed(),
        clock_has_room(now_ms),
    ensures
        ({
            let (after, sent) = node.handle(from, RpcView::RequestVote(request), now_ms);
            let later = request.term > node.current_term;
            let free = {
                ||| later
                ||| {
                    &&& request.term == node.current_term
                    &&& node.role != Role::Leader || request.candidate_id == node.id
                    &&& node.voted_for is None || node.voted_for == Some(request.candidate_id)
                }
            };
            let granted = free && ends_no_earlier(
                node,
                request.last_log_index,
                request.last_log_term,
            );
            let term = if later {
                request.term
            } else {
                node.current_term
            };
            &&& is_sole(
                node,
                sent,
                from,
                RpcView::RequestVoteReply((RequestVoteReply { term, vote_granted: granted })),
            )
            &&& after.current_term == term
            &&& granted ==> {
                &&& after == (NodeModel {
                    voted_for: Some(request.candidate_id),
                    pre_vote_term: None,
                    pre_vote_granted: Set::empty(),
                    rng_state: after.rng_state,
                    election_deadline: after.election_deadline,
                    ..if later {
                        node.stepped_down(term, now_ms)
                    } else {
                        node
                    }
                })
                &&& is_timed(after, now_ms)
            }
            &&& !granted && later ==> starts_over(node, after, term, now_ms)
            &&& !granted && !later ==> after == node
            &&& later ==> after.role == Role::Follower && after.leader_id is None
            &&& !later ==> after.role == node.role && after.leader_id == node.leader_id
            &&& after.log == node.log
            &&& after.log_base_index == node.log_base_index
            &&& after.commit_index == node.commit_index
            &&& after.state == node.state
        }),
{
    law_log_is_counted_by_its_slots(node, 0);
    let present = node.stepped_down(request.term, now_ms);
    law_log_is_counted_by_its_slots(present, 0);
}

/// A pre-vote is granted exactly to a candidate whose term is not behind and whose log
/// ends no earlier, by a node that knows no leader or has not heard from it for 300
/// milliseconds; and granting it changes nothing.
pub proof fn law_pre_vote_goes_to_a_log_that_ends_no_earlier<S: StateMachine>(
    node: NodeModel<S>,
    from: NodeId,
    request: PreVote,
    now_ms: u64,
)
    requires
        node.well_formed(),
    ensures
        ({
            let (after, sent) = node.handle(from, RpcView::PreVote(request), now_ms);
            let granted = {
                &&& request.term >= node.current_term
                &&& ends_no_earlier(node, request.last_log_index, request.last_log_term)
                &&& node.leader_id is None || now_ms >= node.last_leader_contact + 300
            };
            &&& after == node
            &&& is_sole(
                node,
                sent,
                from,
                RpcView::PreVoteReply(
                    (PreVoteReply { term: node.current_term, vote_granted: granted }),
                ),
            )
        }),
{
    law_log_is_counted_by_its_slots(node, 0);
}

/// The node is a candidate of the next term with its own vote, has said so to its peers
/// and told them where its log ends. Nothing else has changed.
pub open spec fn campaigns<S: StateMachine>(
    node: NodeModel<S>,
    after: NodeModel<S>,
    term: Term,
    sent: Seq<MessageView>,
    now_ms: u64,
) -> bool {
    &&& after == (NodeModel {
        role: Role::Candidate,
        current_term: term,
        voted_for: Some(node.id),
        leader_id: None,
        votes_granted: 1,
        granted_voters: Set::empty().insert(node.id),
        pre_vote_term: None,
        pre_vote_granted: Set::empty(),
        rng_state: after.rng_state,
        election_deadline: after.election_deadline,
        ..node
    })
    &&& is_timed(after, now_ms)
    &&& reaches_peers(
        node,
        sent,
        RpcView::RequestVote(
            (RequestVote {
                term,
                candidate_id: node.id,
                last_log_index: end_of(node) as LogIndex,
                last_log_term: end_term(node),
            }),
        ),
    )
}

/// What the clock makes of a node that does not lead: nothing before its election timer
/// runs out; then a candidate stands again, in the next term, and a follower asks its
/// peers whether it could win, or stands at once where it has none.
pub proof fn law_clock_makes_a_node_stand<S: StateMachine>(node: NodeModel<S>, now_ms: u64)
    requires
        node.well_formed(),
        node.role != Role::Leader,
        node.can_tick(now_ms),
    ensures
        ({
            let (after, sent) = node.tick(now_ms);
            let next = if node.current_term == u64::MAX {
                u64::MAX
            } else {
                (node.current_term + 1) as Term
            };
            &&& now_ms < node.election_deadline ==> after == node && sent.len() == 0
            &&& now_ms >= node.election_deadline ==> {
                &&& node.role == Role::Candidate || node.peers.len() == 0 ==> campaigns(
                    node,
                    after,
                    next,
                    sent,
                    now_ms,
                )
                &&& node.role == Role::Follower && node.peers.len() > 0 ==> {
                    &&& after == (NodeModel {
                        pre_vote_term: Some(next),
                        pre_vote_granted: Set::empty().insert(node.id),
                        rng_state: after.rng_state,
                        election_deadline: after.election_deadline,
                        ..node
                    })
                    &&& is_timed(after, now_ms)
                    &&& reaches_peers(
                        node,
                        sent,
                        RpcView::PreVote(
                            (PreVote {
                                term: next,
                                candidate_id: node.id,
                                last_log_index: end_of(node) as LogIndex,
                                last_log_term: end_term(node),
                            }),
                        ),
                    )
                }
            }
        }),
{
    law_log_is_counted_by_its_slots(node, 0);
}

/// A node stands for election once more than half of the cluster, itself included, have
/// said in answer to its present question that it could win; a later term in an answer
/// makes it start over, and every other answer leaves it as it is or is counted once.
pub proof fn law_most_pre_votes_make_a_node_stand<S: StateMachine>(
    node: NodeModel<S>,
    from: NodeId,
    reply: PreVoteReply,
    now_ms: u64,
)
    requires
        node.well_formed(),
        clock_has_room(now_ms),
        node.current_term < u64::MAX,
    ensures
        ({
            let (after, sent) = node.handle(from, RpcView::PreVoteReply(reply), now_ms);
            let counts = {
                &&& node.pre_vote_term == Some((node.current_term + 1) as Term)
                &&& reply.vote_granted
                &&& !node.pre_vote_granted.contains(from)
            };
            let enough = is_most_of(node, node.pre_vote_granted.len() + 1);
            &&& reply.term > node.current_term ==> starts_over(node, after, reply.term, now_ms)
                && sent.len() == 0
            &&& reply.term <= node.current_term && !counts ==> after == node && sent.len() == 0
            &&& reply.term <= node.current_term && counts && !enough ==> {
                &&& after == (NodeModel {
                    pre_vote_granted: node.pre_vote_granted.insert(from),
                    ..node
                })
                &&& sent.len() == 0
            }
            &&& reply.term <= node.current_term && counts && enough ==> campaigns(
                node,
                after,
                (node.current_term + 1) as Term,
                sent,
                now_ms,
            )
        }),
{
    law_log_is_counted_by_its_slots(node, 0);
    law_majority_is_more_than_half(node, node.pre_vote_granted.len() + 1);
}

/// A node that its leader, of a term that is not behind, tells to stand does so at once,
/// in the term after the leader's; whoever else says so is not heard.
pub proof fn law_leader_makes_a_node_stand<S: StateMachine>(
    node: NodeModel<S>,
    from: NodeId,
    request: TimeoutNow,
    now_ms: u64,
)
    requires
        node.well_formed(),
        clock_has_room(now_ms),
        request.term < u64::MAX,
    ensures
        ({
            let (after, sent) = node.handle(from, RpcView::TimeoutNow(request), now_ms);
            let heard = request.term >= node.current_term && request.leader_id == from;
            &&& heard ==> campaigns(
                node.following(request.term, now_ms),
                after,
                (request.term + 1) as Term,
                sent,
                now_ms,
            )
            &&& !heard ==> after == node && sent.len() == 0
        }),
{
    law_log_is_counted_by_its_slots(node, 0);
    law_log_is_counted_by_its_slots(node.following(request.term, now_ms), 0);
}

/// A candidate leads as soon as more than half of the cluster, itself included, have
/// voted for it in its term, each counted once. Its log then gets an entry of its term
/// that holds no command; nobody but itself is known to hold it, and its peers are asked
/// whether they do.
pub proof fn law_most_votes_make_a_leader<S: StateMachine>(
    node: NodeModel<S>,
    from: NodeId,
    reply: RequestVoteReply,
    now_ms: u64,
)
    requires
        node.well_formed(),
        clock_has_room(now_ms),
        end_of(node) + 1 < usize::MAX,
        node.granted_voters.len() < usize::MAX,
    ensures
        ({
            let (after, sent) = node.handle(from, RpcView::RequestVoteReply(reply), now_ms);
            let counts = {
                &&& node.role == Role::Candidate
                &&& reply.term == node.current_term
                &&& reply.vote_granted
                &&& !node.granted_voters.contains(from)
            };
            let enough = is_most_of(node, node.granted_voters.len() + 1);
            &&& reply.term > node.current_term ==> starts_over(node, after, reply.term, now_ms)
                && sent.len() == 0
            &&& reply.term <= node.current_term && !counts ==> after == node && sent.len() == 0
            &&& counts ==> {
                &&& after.granted_voters == node.granted_voters.insert(from)
                &&& after.votes_granted == node.granted_voters.len() + 1
                &&& after.current_term == node.current_term
                &&& after.voted_for == node.voted_for
                &&& after.commit_index == node.commit_index
                &&& after.state == node.state
            }
            &&& counts && !enough ==> {
                &&& after == (NodeModel {
                    granted_voters: after.granted_voters,
                    votes_granted: after.votes_granted,
                    ..node
                })
                &&& sent.len() == 0
            }
            &&& counts && enough ==> is_newly_elected(node, after, sent, now_ms)
        }),
{
    law_log_is_counted_by_its_slots(node, 0);
    law_majority_is_more_than_half(node, node.granted_voters.len() + 1);
    if node.counts_vote(from, reply) && is_most_of(node, node.granted_voters.len() + 1) {
        let (after, sent) = node.handle(from, RpcView::RequestVoteReply(reply), now_ms);
        let counted = NodeModel {
            granted_voters: node.granted_voters.insert(from),
            votes_granted: node.granted_voters.insert(from).len() as usize,
            ..node
        };
        assert(after == counted.elected(now_ms));
        assert(after.log.len() == node.log.len() + 1);
        law_log_is_counted_by_its_slots(after, end_of(node) + 1);
        assert forall|i: int| 0 <= i < sent.len() implies is_first_question(
            node,
            #[trigger] sent[i],
            node.peers[i],
        ) by {
            let peer = node.peers[i];
            assert(node.peers.contains(peer));
            assert(after.next_for(peer) == end_of(node) + 2);
            assert(after.entries_from(after.next_for(peer)) =~= Seq::empty());
            assert(after.entries_from(after.next_for(peer)).take(0) =~= Seq::empty());
            assert(sent[i] == after.append_message(peer));
        }
    }
}

/// A new leader asks a peer whether it holds the entry that opens the term.
pub open spec fn is_first_question<S: StateMachine>(
    node: NodeModel<S>,
    message: MessageView,
    peer: NodeId,
) -> bool {
    &&& message.from == node.id
    &&& message.to == peer
    &&& message.rpc == RpcView::AppendEntries(
        (AppendEntriesView {
            term: node.current_term,
            leader_id: node.id,
            prev_log_index: (end_of(node) + 1) as LogIndex,
            prev_log_term: node.current_term,
            entries: Seq::empty(),
            leader_commit: node.commit_index,
        }),
    )
}

/// What a candidate is once it leads.
pub open spec fn is_newly_elected<S: StateMachine>(
    node: NodeModel<S>,
    after: NodeModel<S>,
    sent: Seq<MessageView>,
    now_ms: u64,
) -> bool {
    let start = end_of(node) + 1;
    &&& after == (NodeModel {
        role: Role::Leader,
        leader_id: Some(node.id),
        log: node.log.push(
            (LogEntryView { term: node.current_term, command: CommandView::Noop }),
        ),
        term_start_index: start as LogIndex,
        granted_voters: after.granted_voters,
        votes_granted: after.votes_granted,
        pre_vote_term: None,
        pre_vote_granted: Set::empty(),
        pending_reads: Map::empty(),
        leader_transfer_target: None,
        last_heartbeat_at: now_ms,
        last_quorum_contact: Map::empty().insert(node.id, now_ms),
        match_index: after.match_index,
        next_index: after.next_index,
        ..node
    })
    &&& forall|peer: NodeId| #[trigger]
        after.match_index.contains_key(peer) <==> peer == node.id || node.peers.contains(peer)
    &&& after.match_index[node.id] == start
    &&& forall|peer: NodeId|
        node.peers.contains(peer) && peer != node.id ==> #[trigger] after.match_index[peer] == 0
    &&& forall|peer: NodeId| #[trigger]
        after.next_index.contains_key(peer) <==> node.peers.contains(peer)
    &&& forall|peer: NodeId|
        node.peers.contains(peer) ==> #[trigger] after.next_index[peer] == start + 1
    &&& sent.len() == node.peers.len()
    &&& forall|i: int|
        0 <= i < sent.len() ==> is_first_question(node, #[trigger] sent[i], node.peers[i])
}

/// What the clock makes of a leader: nothing within 50 milliseconds of its last round;
/// then it sends each peer what that peer is to have next, if more than half of the
/// cluster were heard from within the last 300 milliseconds, and otherwise steps down.
pub proof fn law_clock_makes_a_leader_send_or_step_down<S: StateMachine>(
    node: NodeModel<S>,
    now_ms: u64,
)
    requires
        node.well_formed(),
        node.role == Role::Leader,
        clock_has_room(now_ms),
    ensures
        ({
            let (after, sent) = node.tick(now_ms);
            let heard = node.last_quorum_contact.dom().filter(
                |voter: NodeId| now_ms <= node.last_quorum_contact[voter] + 300,
            );
            &&& now_ms < node.last_heartbeat_at + 50 ==> after == node && sent.len() == 0
            &&& now_ms >= node.last_heartbeat_at + 50 && !is_most_of(node, heard.len())
                ==> starts_over(node, after, node.current_term, now_ms) && sent.len() == 0
            &&& now_ms >= node.last_heartbeat_at + 50 && is_most_of(node, heard.len()) ==> {
                &&& after == (NodeModel { last_heartbeat_at: now_ms, ..node })
                &&& sent.len() == node.peers.len()
                &&& forall|i: int|
                    0 <= i < sent.len() ==> #[trigger] sent[i] == after.append_message(
                        node.peers[i],
                    )
            }
        }),
{
    let heard = node.last_quorum_contact.dom().filter(
        |voter: NodeId| now_ms <= node.last_quorum_contact[voter] + 300,
    );
    assert(node.active_contacts(now_ms) =~= heard);
    law_majority_is_more_than_half(node, heard.len());
}

} // verus!
