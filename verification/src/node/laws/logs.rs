//! What holds of the log and of what is committed.
use crate::node::model::NodeModel;
use crate::node::replication::lemma_agreement_bounds;
use crate::node::replication::lemma_apply_committed_frame;
use crate::node::replication::lemma_commit_point;
use crate::node::MAX_APPEND_ENTRIES;
use crate::state_machine::StateMachine;
use crate::types::AppendEntriesReply;
use crate::types::AppendEntriesView;
use crate::types::ClientRequestView;
use crate::types::LogEntryView;
use crate::types::NodeId;
use crate::types::Role;
use crate::types::RpcView;
use vstd::prelude::*;

verus! {

/// What agrees has the terms of the entries.
proof fn lemma_agreeing_terms<S: StateMachine>(
    node: NodeModel<S>,
    index: int,
    entries: Seq<LogEntryView>,
)
    ensures
        node.agreement(index, entries) <= entries.len(),
        forall|i: int|
            0 <= i < node.agreement(index, entries) ==> node.term_at(index + i) == Some(
                (#[trigger] entries[i]).term,
            ),
    decreases entries.len(),
{
    if entries.len() > 0 && node.term_at(index) == Some(entries[0].term) {
        let rest = entries.skip(1);
        lemma_agreeing_terms(node, index + 1, rest);
        assert forall|i: int| 0 <= i < node.agreement(index, entries) implies node.term_at(
            index + i,
        ) == Some((#[trigger] entries[i]).term) by {
            if i > 0 {
                assert(entries[i] == rest[i - 1]);
                assert(node.term_at(index + 1 + (i - 1)) == Some(rest[i - 1].term));
            }
        }
    }
}

/// Where all the terms agree, all the entries do.
proof fn lemma_full_agreement<S: StateMachine>(
    node: NodeModel<S>,
    index: int,
    entries: Seq<LogEntryView>,
)
    requires
        forall|i: int|
            0 <= i < entries.len() ==> node.term_at(index + i) == Some((#[trigger] entries[i]).term),
    ensures
        node.agreement(index, entries) == entries.len(),
    decreases entries.len(),
{
    if entries.len() > 0 {
        let rest = entries.skip(1);
        assert(node.term_at(index + 0) == Some(entries[0].term));
        assert forall|i: int| 0 <= i < rest.len() implies node.term_at(index + 1 + i) == Some(
            (#[trigger] rest[i]).term,
        ) by {
            assert(rest[i] == entries[i + 1]);
            assert(node.term_at(index + (i + 1)) == Some(entries[i + 1].term));
        }
        lemma_full_agreement(node, index + 1, rest);
    }
}

/// After an accepted request the log holds the request's entries at their places,
/// and what stood before them still stands.
proof fn lemma_appended<S: StateMachine>(node: NodeModel<S>, request: AppendEntriesView)
    requires
        node.well_formed(),
        request.prev_log_index >= node.log_base_index,
        node.term_at(request.prev_log_index as int) == Some(request.prev_log_term),
    ensures
        ({
            let after = node.appended(request);
            let first = request.prev_log_index + 1;
            &&& after.log_base_index == node.log_base_index
            &&& after.last_index() >= request.prev_log_index + request.entries.len()
            &&& forall|i: int|
                0 <= i < request.entries.len() ==> after.term_at(first + i) == Some(
                    (#[trigger] request.entries[i]).term,
                )
            &&& forall|index: int|
                index <= request.prev_log_index ==> {
                    &&& #[trigger] after.term_at(index) == node.term_at(index)
                    &&& after.entry_at(index) == node.entry_at(index)
                }
            &&& after.agreement(first, request.entries) == request.entries.len()
        }),
{
    let first = request.prev_log_index + 1;
    let entries = request.entries;
    let kept = node.agreement(first, entries) as int;
    let after = node.appended(request);
    assert(node.first_index() <= first <= node.last_index() + 1);
    lemma_agreement_bounds(node, first, entries);
    lemma_agreeing_terms(node, first, entries);
    let base = node.first_index();
    if kept < entries.len() {
        assert(after.log =~= node.log.take(first + kept - base) + entries.skip(kept));
    }
    assert forall|i: int| 0 <= i < entries.len() implies after.term_at(first + i) == Some(
        (#[trigger] entries[i]).term,
    ) by {
        if i < kept {
            assert(node.term_at(first + i) == Some(entries[i].term));
            assert(after.log[first + i - base] == node.log[first + i - base]);
        } else {
            assert(after.log[first + i - base] == entries.skip(kept)[i - kept]);
        }
    }
    assert forall|index: int| index <= request.prev_log_index implies {
        &&& #[trigger] after.term_at(index) == node.term_at(index)
        &&& after.entry_at(index) == node.entry_at(index)
    } by {
        if node.has_slot(index) {
            assert(after.log[index - base] == node.log[index - base]);
        }
    }
    lemma_full_agreement(after, first, entries);
}

/// A request is answered with success exactly if it comes from a leader that is not
/// behind and its previous entry stands in the log. The log then holds the
/// request's entries at their places, and all that stood before them still stands.
pub proof fn law_accepted_entries_are_in_the_log<S: StateMachine>(
    node: NodeModel<S>,
    request: AppendEntriesView,
    now_ms: u64,
)
    requires
        node.well_formed(),
    ensures
        ({
            let (after, reply) = node.on_append_entries(request, now_ms);
            &&& reply.success <==> node.accepts_append(request)
            &&& !reply.success ==> after.log == node.log && after.commit_index
                == node.commit_index
            &&& reply.success ==> {
                &&& reply.match_index == (request.prev_log_index + request.entries.len()) as usize
                &&& after.last_index() >= request.prev_log_index + request.entries.len()
                &&& forall|i: int|
                    0 <= i < request.entries.len() ==> after.term_at(
                        request.prev_log_index + 1 + i,
                    ) == Some((#[trigger] request.entries[i]).term)
                &&& forall|index: int|
                    index <= request.prev_log_index ==> #[trigger] after.entry_at(index)
                        == node.entry_at(index)
            }
        }),
{
    if node.accepts_append(request) {
        let led = node.following(request.term, now_ms).led_by(request.leader_id, now_ms);
        let after = led.appended(request);
        lemma_appended(led, request);
        lemma_apply_committed_frame(after);
        let applied = after.apply_committed().0;
        assert forall|i: int| 0 <= i < request.entries.len() implies applied.term_at(
            request.prev_log_index + 1 + i,
        ) == Some((#[trigger] request.entries[i]).term) by {
            assert(after.term_at(request.prev_log_index + 1 + i) == Some(request.entries[i].term));
        }
        assert forall|index: int| index <= request.prev_log_index implies #[trigger] applied.entry_at(
            index,
        ) == node.entry_at(index) by {
            assert(after.term_at(index) == led.term_at(index));
            assert(after.entry_at(index) == led.entry_at(index));
        }
    }
}

/// A request that arrives a second time leaves the log and the commit index as the
/// first left them.
pub proof fn law_duplicate_append_changes_no_log<S: StateMachine>(
    node: NodeModel<S>,
    request: AppendEntriesView,
    now_ms: u64,
    later_ms: u64,
)
    requires
        node.well_formed(),
        node.accepts_append(request),
    ensures
        ({
            let once = node.on_append_entries(request, now_ms).0;
            let (twice, reply) = once.on_append_entries(request, later_ms);
            &&& twice.log == once.log
            &&& twice.commit_index == once.commit_index
            &&& reply == node.on_append_entries(request, now_ms).1
        }),
{
    let led = node.following(request.term, now_ms).led_by(request.leader_id, now_ms);
    let appended = led.appended(request);
    lemma_appended(led, request);
    lemma_apply_committed_frame(appended);
    let once = node.on_append_entries(request, now_ms).0;
    assert(once == appended.apply_committed().0);
    let again = once.following(request.term, later_ms).led_by(request.leader_id, later_ms);
    assert(appended.term_at(request.prev_log_index as int) == led.term_at(
        request.prev_log_index as int,
    ));
    assert(once.accepts_append(request));
    let first = request.prev_log_index + 1;
    assert forall|i: int| 0 <= i < request.entries.len() implies again.term_at(first + i) == Some(
        (#[trigger] request.entries[i]).term,
    ) by {
        assert(appended.term_at(first + i) == Some(request.entries[i].term));
    }
    lemma_full_agreement(again, first, request.entries);
    lemma_apply_committed_frame(again.appended(request));
}

/// A request sends at most a batch of entries: those of the leader's log that come
/// next for the peer, behind an entry that the peer can check.
pub proof fn law_append_is_the_next_batch<S: StateMachine>(node: NodeModel<S>, peer: NodeId)
    requires
        node.well_formed(),
        node.snapshot_due(peer) is None,
    ensures
        node.append_message(peer).rpc matches RpcView::AppendEntries(request) && {
            &&& request.entries.len() <= MAX_APPEND_ENTRIES
            &&& request.entries.is_prefix_of(node.entries_from(node.next_for(peer)))
            &&& node.entries_from(node.next_for(peer)).len() <= MAX_APPEND_ENTRIES
                ==> request.entries == node.entries_from(node.next_for(peer))
            &&& request.term == node.current_term
            &&& request.leader_commit == node.commit_index
        },
{
    let backlog = node.entries_from(node.next_for(peer));
    if backlog.len() <= MAX_APPEND_ENTRIES {
        assert(backlog.take(backlog.len() as int) =~= backlog);
    }
}

/// A leader commits only up to an entry of its own term that a majority of the
/// members is known to hold, and leaves none such behind.
pub proof fn law_commit_needs_a_majority<S: StateMachine>(node: NodeModel<S>)
    requires
        node.well_formed(),
    ensures
        ({
            let after = node.commit_advanced();
            &&& after.commit_index >= node.commit_index
            &&& after.commit_index > node.commit_index ==> {
                &&& node.term_at(after.commit_index as int) == Some(node.current_term)
                &&& node.holders(after.commit_index as int).len() >= node.majority()
            }
            &&& forall|index: int|
                after.commit_index < index <= node.last_index() ==> !#[trigger] node.committable(
                    index,
                )
        }),
{
    lemma_commit_point(node, node.last_index());
    lemma_apply_committed_frame(
        NodeModel { commit_index: node.commit_point(node.last_index()) as usize, ..node },
    );
}

/// An acknowledgement that arrives late or twice moves nothing back: the peer is
/// known to hold what it was known to hold, and the next entry to send follows that.
pub proof fn law_late_acknowledgement_moves_nothing_back<S: StateMachine>(
    node: NodeModel<S>,
    from: NodeId,
    reply: AppendEntriesReply,
    now_ms: u64,
)
    requires
        node.well_formed(),
        node.hears_peer(from, reply.term),
        reply.success,
        reply.match_index <= node.matched_by(from) < usize::MAX,
    ensures
        ({
            let after = node.on_append_reply(from, reply, now_ms).0;
            &&& after.matched_by(from) == node.matched_by(from)
            &&& after.next_for(from) == node.matched_by(from) + 1
        }),
{
    let acknowledged = node.contacted(from, now_ms).acknowledged(from, reply.match_index);
    lemma_commit_point(acknowledged, acknowledged.last_index());
    lemma_apply_committed_frame(
        NodeModel {
            commit_index: acknowledged.commit_point(acknowledged.last_index()) as usize,
            ..acknowledged
        },
    );
}

/// A write enters the leader's log behind all that is there, in the leader's term,
/// and counts as held by the leader only.
pub proof fn law_write_is_appended<S: StateMachine>(
    node: NodeModel<S>,
    request: ClientRequestView,
)
    requires
        node.well_formed(),
        node.role == Role::Leader,
        request is Put || request is Delete,
        node.last_index() + 1 < usize::MAX,
    ensures
        node.start_write(request).1 matches Ok((write, _)) && {
            let after = node.start_write(request).0;
            &&& node.log.is_prefix_of(after.log)
            &&& write.index == node.last_index() + 1
            &&& write.term == node.current_term
            &&& after.last_index() == write.index
            &&& after.entry_at(write.index as int) == Some(
                LogEntryView {
                    term: node.current_term,
                    command: NodeModel::<S>::command_of(request)->0,
                },
            )
            &&& after.commit_index == node.commit_index
            &&& after.state == node.state
        },
{
    let after = node.start_write(request).0;
    assert(after.log.take(node.log.len() as int) =~= node.log);
}

} // verus!
