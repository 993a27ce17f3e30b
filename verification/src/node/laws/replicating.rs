//! How entries get from a leader's log into those of its followers, and are committed.
use crate::node::laws::slots::end_of;
use crate::node::laws::slots::is_most_of;
use crate::node::laws::slots::is_sole;
use crate::node::laws::slots::law_log_is_counted_by_its_slots;
use crate::node::laws::slots::law_majority_is_more_than_half;
use crate::node::laws::slots::slot_of;
use crate::node::laws::voting::is_timed;
use crate::node::laws::voting::starts_over;
use crate::node::model::clock_has_room;
use crate::node::model::NodeModel;
use crate::node::replication::lemma_agreement_bounds;
use crate::node::replication::lemma_apply_committed_frame;
use crate::node::replication::lemma_commit_point;
use crate::state_machine::StateMachine;
use crate::types::AppendEntriesReply;
use crate::types::AppendEntriesView;
use crate::types::LogIndex;
use crate::types::NodeId;
use crate::types::Role;
use crate::types::RpcView;
use crate::types::TimeoutNow;
use vstd::prelude::*;

verus! {

/// An entry of the request stands in the log, as far as its term tells.
pub open spec fn has_entry<S: StateMachine>(
    node: NodeModel<S>,
    request: AppendEntriesView,
    i: int,
) -> bool {
    slot_of(node, request.prev_log_index + 1 + i) matches Some(slot) && slot.term
        == request.entries[i].term
}

/// The first `count` entries of the request stand in the log.
pub open spec fn holds_first<S: StateMachine>(
    node: NodeModel<S>,
    request: AppendEntriesView,
    count: int,
) -> bool {
    forall|i: int| 0 <= i < count ==> #[trigger] has_entry(node, request, i)
}

/// The slot before the request's entries is in the log with the term that the request
/// names. Before the first of all entries there is nothing to compare.
pub open spec fn continues<S: StateMachine>(
    node: NodeModel<S>,
    request: AppendEntriesView,
) -> bool {
    &&& request.prev_log_index >= node.log_base_index
    &&& if request.prev_log_index == 0 {
        request.prev_log_term == 0
    } else {
        slot_of(node, request.prev_log_index as int) matches Some(slot) && slot.term
            == request.prev_log_term
    }
}

proof fn lemma_agreement_is_held<S: StateMachine>(
    node: NodeModel<S>,
    request: AppendEntriesView,
    skipped: int,
)
    requires
        node.well_formed(),
        0 <= skipped <= request.entries.len(),
    ensures
        ({
            let kept = node.agreement(
                request.prev_log_index + 1 + skipped,
                request.entries.skip(skipped),
            );
            &&& skipped + kept <= request.entries.len()
            &&& forall|i: int|
                skipped <= i < skipped + kept ==> #[trigger] has_entry(node, request, i)
            &&& skipped + kept < request.entries.len() ==> !has_entry(
                node,
                request,
                skipped + kept,
            )
        }),
    decreases request.entries.len() - skipped,
{
    let entries = request.entries.skip(skipped);
    let index = request.prev_log_index + 1 + skipped;
    law_log_is_counted_by_its_slots(node, index);
    if entries.len() > 0 {
        assert(entries[0] == request.entries[skipped]);
        if node.term_at(index) == Some(entries[0].term) {
            assert(entries.skip(1) =~= request.entries.skip(skipped + 1));
            lemma_agreement_is_held(node, request, skipped + 1);
        }
    }
}

/// The slot of one of the request's entries: it stays if the log agrees with the request
/// up to there, and otherwise makes way for the entry.
pub open spec fn slot_follows<S: StateMachine>(
    node: NodeModel<S>,
    request: AppendEntriesView,
    after: NodeModel<S>,
    i: int,
) -> bool {
    let index = request.prev_log_index + 1 + i;
    slot_of(after, index) == (if holds_first(node, request, i + 1) {
        slot_of(node, index)
    } else {
        Some(request.entries[i])
    })
}

/// What the entries of a request make of a log: the slots before them stay; of theirs,
/// those stay that agree with them in all terms up to there, and the others make way for
/// the request's; and what stands behind them stays only if all of them agree.
pub open spec fn takes_over<S: StateMachine>(
    node: NodeModel<S>,
    request: AppendEntriesView,
    after: NodeModel<S>,
) -> bool {
    let prev = request.prev_log_index as int;
    let count = request.entries.len() as int;
    &&& after.log_base_index == node.log_base_index
    &&& forall|index: int| index <= prev ==> #[trigger] slot_of(after, index) == slot_of(node, index)
    &&& forall|i: int| 0 <= i < count ==> #[trigger] slot_follows(node, request, after, i)
    &&& holds_first(node, request, count) ==> after.log == node.log
    &&& !holds_first(node, request, count) ==> end_of(after) == prev + count
}

proof fn lemma_merged_takes_over<S: StateMachine>(node: NodeModel<S>, request: AppendEntriesView)
    requires
        node.well_formed(),
        continues(node, request),
    ensures
        takes_over(node, request, node.appended(request)),
{
    let prev = request.prev_log_index as int;
    let entries = request.entries;
    let after = node.appended(request);
    law_log_is_counted_by_its_slots(node, prev);
    assert(node.first_index() <= prev + 1 <= node.last_index() + 1);
    assert(entries.skip(0) =~= entries);
    lemma_agreement_is_held(node, request, 0);
    lemma_agreement_bounds(node, prev + 1, entries);
    let kept = node.agreement(prev + 1, entries) as int;
    if kept < entries.len() {
        let at = prev + 1 + kept - node.first_index();
        let log = node.log.take(at) + entries.skip(kept);
        assert(after.log == log);
        assert(!has_entry(node, request, kept));
        assert(log.len() == at + entries.len() - kept);
        assert forall|i: int| 0 <= i < entries.len() implies #[trigger] slot_follows(
            node,
            request,
            after,
            i,
        ) by {
            if i < kept {
                assert(holds_first(node, request, i + 1));
                assert(log[at + i - kept] == node.log[at + i - kept]);
            } else {
                assert(!holds_first(node, request, i + 1));
                assert(log[at + i - kept] == entries[i]);
            }
        }
        assert forall|index: int| index <= prev implies #[trigger] slot_of(after, index)
            == slot_of(node, index) by {
            if slot_of(node, index) is Some {
                assert(log[index - node.first_index()] == node.log[index - node.first_index()]);
            }
        }
    } else {
        assert forall|i: int| 0 <= i < entries.len() implies #[trigger] slot_follows(
            node,
            request,
            after,
            i,
        ) by {
            assert(holds_first(node, request, i + 1));
        }
    }
}

/// The node has applied what it has committed by then, from where it stood before.
pub open spec fn has_applied<S: StateMachine>(node: NodeModel<S>, after: NodeModel<S>) -> bool {
    after == (NodeModel {
        last_applied: node.last_applied,
        state: node.state,
        ..after
    }).apply_committed().0
}

/// Applying what is committed looks at nothing but the log and the state.
proof fn lemma_applied_alike<S: StateMachine>(
    node: NodeModel<S>,
    prepared: NodeModel<S>,
    target: Option<NodeId>,
)
    requires
        prepared.last_applied == node.last_applied,
        prepared.state == node.state,
    ensures
        ({
            let after = prepared.apply_committed().0;
            &&& has_applied(node, after)
            &&& has_applied(node, NodeModel { leader_transfer_target: target, ..after })
        }),
{
    let after = prepared.apply_committed().0;
    lemma_apply_committed_frame(prepared);
    assert((NodeModel { last_applied: node.last_applied, state: node.state, ..after })
        == prepared);
    lemma_transfer_does_not_matter(prepared, target);
    assert((NodeModel {
        last_applied: node.last_applied,
        state: node.state,
        ..NodeModel { leader_transfer_target: target, ..after }
    }) == (NodeModel { leader_transfer_target: target, ..prepared }));
}

proof fn lemma_transfer_does_not_matter<S: StateMachine>(
    node: NodeModel<S>,
    target: Option<NodeId>,
)
    ensures
        (NodeModel { leader_transfer_target: target, ..node }).apply_committed().0 == (NodeModel {
            leader_transfer_target: target,
            ..node.apply_committed().0
        }),
    decreases node.commit_index - node.last_applied,
{
    let other = NodeModel { leader_transfer_target: target, ..node };
    if node.last_applied < node.commit_index {
        let next = (node.last_applied + 1) as LogIndex;
        assert(other.entry_at(next as int) == node.entry_at(next as int));
        if let Some(entry) = node.entry_at(next as int) {
            let (state, taken) = S::applied(node.state, next, entry.command);
            if taken is Ok {
                let further = NodeModel { state, last_applied: next, ..node };
                lemma_transfer_does_not_matter(further, target);
                assert((NodeModel { leader_transfer_target: target, ..further }) == (NodeModel {
                    state,
                    last_applied: next,
                    ..other
                }));
            }
        }
    }
}

/// A follower takes the entries of a leader that is not behind exactly if the slot before
/// them is in its log with the same term. It answers with the index up to which it holds
/// the leader's log, and otherwise with the end of its own, or zero where it has compacted
/// the slot away; and commits as far as the leader has, as long as it has entries there.
/// Whether it takes them or not, it follows that leader from now on.
pub proof fn law_follower_takes_what_continues_its_log<S: StateMachine>(
    node: NodeModel<S>,
    from: NodeId,
    request: AppendEntriesView,
    now_ms: u64,
)
    requires
        node.well_formed(),
        node.can_handle(from, RpcView::AppendEntries(request), now_ms),
    ensures
        ({
            let (after, sent) = node.handle(from, RpcView::AppendEntries(request), now_ms);
            let current = request.term >= node.current_term;
            let taken = current && continues(node, request);
            let upto = request.prev_log_index + request.entries.len();
            &&& is_sole(
                node,
                sent,
                from,
                RpcView::AppendEntriesReply(
                    (AppendEntriesReply {
                        term: if current {
                            request.term
                        } else {
                            node.current_term
                        },
                        success: taken,
                        match_index: if taken {
                            upto as LogIndex
                        } else if current && request.prev_log_index < node.log_base_index {
                            0
                        } else {
                            end_of(node) as LogIndex
                        },
                    }),
                ),
            )
            &&& !current ==> after == node
            &&& current ==> {
                &&& after.role == Role::Follower
                &&& after.current_term == request.term
                &&& is_timed(after, now_ms)
                &&& after == (NodeModel {
                    leader_id: Some(request.leader_id),
                    last_leader_contact: now_ms,
                    rng_state: after.rng_state,
                    election_deadline: after.election_deadline,
                    log: after.log,
                    commit_index: after.commit_index,
                    last_applied: after.last_applied,
                    state: after.state,
                    ..node.following(request.term, now_ms)
                })
                &&& after.voted_for == (if request.term > node.current_term || node.role
                    != Role::Follower {
                    None
                } else {
                    node.voted_for
                })
            }
            &&& !taken ==> {
                &&& after.log == node.log
                &&& after.commit_index == node.commit_index
                &&& after.last_applied == node.last_applied
                &&& after.state == node.state
            }
            &&& taken ==> {
                &&& takes_over(node, request, after)
                &&& has_applied(node, after)
                &&& request.leader_commit <= node.commit_index ==> after.commit_index
                    == node.commit_index
                &&& request.leader_commit > node.commit_index ==> {
                    &&& after.commit_index <= request.leader_commit
                    &&& after.commit_index <= end_of(after)
                    &&& after.commit_index == request.leader_commit || after.commit_index == end_of(
                        after,
                    )
                }
            }
        }),
{
    reveal(NodeModel::sets_timer);
    let prev = request.prev_log_index as int;
    law_log_is_counted_by_its_slots(node, prev);
    assert(request.term >= node.current_term ==> (node.accepts_append(request) <==> continues(
        node,
        request,
    )));
    if node.accepts_append(request) {
        let led = node.following(request.term, now_ms).led_by(request.leader_id, now_ms);
        let appended = led.appended(request);
        assert(continues(led, request));
        lemma_merged_takes_over(led, request);
        lemma_apply_committed_frame(appended);
        let after = appended.apply_committed().0;
        lemma_takes_over_alike(led, node, request, appended, after);
        lemma_applied_alike(node, appended, None);
        assert(appended.last_index() == end_of(appended)) by {
            assert(appended.first_index() == led.first_index());
        }
    }
}

proof fn lemma_same_slots<S: StateMachine>(
    one: NodeModel<S>,
    other: NodeModel<S>,
    request: AppendEntriesView,
    count: int,
)
    requires
        one.log == other.log,
        one.log_base_index == other.log_base_index,
    ensures
        holds_first(one, request, count) == holds_first(other, request, count),
{
    assert forall|i: int| #[trigger] has_entry(one, request, i) == has_entry(
        other,
        request,
        i,
    ) by {}
    if holds_first(one, request, count) {
        assert forall|i: int| 0 <= i < count implies #[trigger] has_entry(other, request, i) by {
            assert(has_entry(one, request, i));
        }
    }
    if holds_first(other, request, count) {
        assert forall|i: int| 0 <= i < count implies #[trigger] has_entry(one, request, i) by {
            assert(has_entry(other, request, i));
        }
    }
}

proof fn lemma_takes_over_alike<S: StateMachine>(
    one: NodeModel<S>,
    other: NodeModel<S>,
    request: AppendEntriesView,
    first: NodeModel<S>,
    second: NodeModel<S>,
)
    requires
        one.log == other.log,
        one.log_base_index == other.log_base_index,
        first.log == second.log,
        first.log_base_index == second.log_base_index,
        takes_over(one, request, first),
    ensures
        takes_over(other, request, second),
{
    assert forall|index: int| #[trigger] slot_of(one, index) == slot_of(other, index) by {}
    assert forall|index: int| #[trigger] slot_of(first, index) == slot_of(second, index) by {}
    lemma_same_slots(one, other, request, request.entries.len() as int);
    assert forall|index: int| index <= request.prev_log_index implies #[trigger] slot_of(
        second,
        index,
    ) == slot_of(other, index) by {
        assert(slot_of(first, index) == slot_of(one, index));
    }
    assert forall|i: int| 0 <= i < request.entries.len() implies #[trigger] slot_follows(
        other,
        request,
        second,
        i,
    ) by {
        lemma_same_slots(one, other, request, i + 1);
        assert(slot_follows(one, request, first, i));
    }
}

/// Up to which index a peer is known to hold the log, zero where nothing is known.
pub open spec fn known_of<S: StateMachine>(node: NodeModel<S>, peer: NodeId) -> LogIndex {
    if node.match_index.contains_key(peer) {
        node.match_index[peer]
    } else {
        0
    }
}

/// The greater of what the peer was known to hold and what it acknowledges now.
pub open spec fn known_then<S: StateMachine>(
    node: NodeModel<S>,
    peer: NodeId,
    index: LogIndex,
) -> LogIndex {
    if known_of(node, peer) > index {
        known_of(node, peer)
    } else {
        index
    }
}

/// The entry at the index is of the leader's own term, and more than half of the cluster
/// are known to hold it.
pub open spec fn is_held_by_most<S: StateMachine>(
    node: NodeModel<S>,
    known: Map<NodeId, LogIndex>,
    index: int,
) -> bool {
    &&& slot_of(node, index) matches Some(slot) && slot.term == node.current_term
    &&& is_most_of(node, known.dom().filter(|member: NodeId| known[member] >= index).len())
}

/// A peer's acknowledgement raises what the peer is known to hold, never lowers it, and
/// the next entry to send follows it. The leader then commits up to the last entry of its
/// own term that more than half of the cluster are known to hold, if that is past what it
/// had committed. The peer is told to stand for election exactly if leadership is to go to
/// it and it now holds the whole log; until then the leader goes on meaning to hand over.
pub proof fn law_acknowledgement_counts<S: StateMachine>(
    node: NodeModel<S>,
    from: NodeId,
    reply: AppendEntriesReply,
    now_ms: u64,
)
    requires
        node.well_formed(),
        node.can_handle(from, RpcView::AppendEntriesReply(reply), now_ms),
        node.role == Role::Leader,
        reply.term == node.current_term,
        node.peers.contains(from),
        reply.success,
    ensures
        ({
            let (after, sent) = node.handle(from, RpcView::AppendEntriesReply(reply), now_ms);
            let matched = known_then(node, from, reply.match_index);
            let known = node.match_index.insert(from, matched);
            let over = node.leader_transfer_target == Some(from) && matched >= end_of(node);
            &&& after == (NodeModel {
                match_index: known,
                next_index: node.next_index.insert(from, (matched + 1) as LogIndex),
                last_quorum_contact: node.last_quorum_contact.insert(from, now_ms),
                leader_transfer_target: after.leader_transfer_target,
                commit_index: after.commit_index,
                last_applied: after.last_applied,
                state: after.state,
                ..node
            })
            &&& has_applied(node, after)
            &&& over ==> {
                &&& after.leader_transfer_target is None
                &&& is_sole(
                    node,
                    sent,
                    from,
                    RpcView::TimeoutNow(
                        (TimeoutNow { term: node.current_term, leader_id: node.id }),
                    ),
                )
            }
            &&& !over ==> {
                &&& after.leader_transfer_target == node.leader_transfer_target
                &&& sent.len() == 0
            }
            &&& after.commit_index >= node.commit_index
            &&& after.commit_index > node.commit_index ==> is_held_by_most(
                node,
                known,
                after.commit_index as int,
            )
            &&& forall|index: int|
                after.commit_index < index <= end_of(node) ==> !#[trigger] is_held_by_most(
                    node,
                    known,
                    index,
                )
        }),
{
    let matched = known_then(node, from, reply.match_index);
    let known = node.match_index.insert(from, matched);
    let noted = node.contacted(from, now_ms).acknowledged(from, reply.match_index);
    assert(noted.match_index == known);
    law_log_is_counted_by_its_slots(node, 0);
    let point = noted.commit_point(noted.last_index());
    lemma_commit_point(noted, noted.last_index());
    let prepared = NodeModel { commit_index: point as LogIndex, ..noted };
    lemma_apply_committed_frame(prepared);
    lemma_applied_alike(node, prepared, None);
    assert forall|index: int| index > 0 implies #[trigger] is_held_by_most(node, known, index)
        == noted.committable(index) by {
        law_log_is_counted_by_its_slots(noted, index);
        let holders = known.dom().filter(|member: NodeId| known[member] >= index);
        assert(noted.holders(index) =~= holders);
        law_majority_is_more_than_half(noted, holders.len());
    }
    assert forall|index: int| point < index <= end_of(node) implies !#[trigger] is_held_by_most(
        node,
        known,
        index,
    ) by {
        assert(!noted.committable(index));
    }
    if point > node.commit_index {
        assert(noted.committable(point));
        assert(is_held_by_most(node, known, point));
    }
}

/// A reply of a later term makes a node start over. One of an earlier term, from no peer,
/// or to a node that does not lead changes nothing. A refusal moves the next entry to send
/// one back, to no less than the first, and what follows from there is sent.
pub proof fn law_refusal_moves_one_back<S: StateMachine>(
    node: NodeModel<S>,
    from: NodeId,
    reply: AppendEntriesReply,
    now_ms: u64,
)
    requires
        node.well_formed(),
        clock_has_room(now_ms),
    ensures
        ({
            let (after, sent) = node.handle(from, RpcView::AppendEntriesReply(reply), now_ms);
            let heard = {
                &&& node.role == Role::Leader
                &&& reply.term == node.current_term
                &&& node.peers.contains(from)
            };
            let next = if node.next_index.contains_key(from) {
                node.next_index[from] as int
            } else {
                end_of(node) + 1
            };
            &&& reply.term > node.current_term ==> starts_over(node, after, reply.term, now_ms)
                && sent.len() == 0
            &&& reply.term <= node.current_term && !heard ==> after == node && sent.len() == 0
            &&& heard && !reply.success ==> {
                &&& after == (NodeModel {
                    next_index: node.next_index.insert(
                        from,
                        (if next > 2 {
                            next - 1
                        } else {
                            1
                        }) as LogIndex,
                    ),
                    last_quorum_contact: node.last_quorum_contact.insert(from, now_ms),
                    ..node
                })
                &&& sent.len() == 1
                &&& sent[0] == after.append_message(from)
            }
        }),
{
    law_log_is_counted_by_its_slots(node, 0);
}

/// The next entry to send to a peer.
pub open spec fn next_of<S: StateMachine>(node: NodeModel<S>, peer: NodeId) -> int {
    if node.next_index.contains_key(peer) {
        node.next_index[peer] as int
    } else {
        end_of(node) + 1
    }
}

/// What is sent to a peer whose next entry the leader still has, or for which it has no
/// snapshot: the leader's entries from the next one on, at most 64, behind the index and
/// the term of the slot before them, and with what the leader has committed.
pub proof fn law_peer_is_sent_the_next_entries<S: StateMachine>(
    node: NodeModel<S>,
    peer: NodeId,
)
    requires
        node.well_formed(),
        next_of(node, peer) > node.log_base_index || node.snapshot is None,
    ensures
        ({
            let message = node.append_message(peer);
            let next = next_of(node, peer);
            let first = if next > 1 {
                next
            } else {
                1
            };
            let prev = if next > 1 {
                next - 1
            } else {
                0
            };
            let left = if next > node.log_base_index && first <= end_of(node) {
                end_of(node) + 1 - first
            } else if node.log_base_index == 0 && first <= end_of(node) {
                end_of(node) + 1 - first
            } else {
                0
            };
            &&& message.from == node.id
            &&& message.to == peer
            &&& message.rpc matches RpcView::AppendEntries(request) && {
                &&& request.term == node.current_term
                &&& request.leader_id == node.id
                &&& request.leader_commit == node.commit_index
                &&& request.prev_log_index == prev
                &&& request.prev_log_term == (match slot_of(node, prev) {
                    Some(slot) => slot.term,
                    None => 0,
                })
                &&& request.entries.len() == (if left > 64 {
                    64
                } else {
                    left
                })
                &&& forall|i: int|
                    0 <= i < request.entries.len() ==> slot_of(node, first + i) == Some(
                        #[trigger] request.entries[i],
                    )
            }
        }),
{
    let next = next_of(node, peer);
    law_log_is_counted_by_its_slots(node, next - 1);
    assert(node.next_for(peer) == next);
    assert(node.snapshot_due(peer) is None);
}

} // verus!
