//! What a leader sends of its log, and what its followers hold of it.
use crate::codec::parsed_snapshot;
use crate::node::laws::logs::law_accepted_entries_are_in_the_log;
use crate::node::model::NodeModel;
use crate::node::replication::lemma_agreement_bounds;
use crate::node::replication::lemma_apply_committed_frame;
use crate::state_machine::StateMachine;
use crate::types::AppendEntriesReply;
use crate::types::AppendEntriesView;
use crate::types::ClientRequestView;
use crate::types::InstallSnapshotChunkReply;
use crate::types::InstallSnapshotChunkView;
use crate::types::InstallSnapshotReply;
use crate::types::InstallSnapshotRequestView;
use crate::types::LogEntryView;
use crate::types::LogIndex;
use crate::types::MessageView;
use crate::types::NodeId;
use crate::types::PreVoteReply;
use crate::types::RequestVoteReply;
use crate::types::Role;
use crate::types::RpcView;
use crate::types::SnapshotView;
use crate::types::Term;
use crate::types::TimeoutNow;
use vstd::prelude::*;

verus! {

/// Every entry is of a term that the node has reached.
pub open spec fn entries_are_past<S: StateMachine>(node: NodeModel<S>) -> bool {
    forall|i: int| (#[trigger] node.entry_at(i)) is Some ==> node.entry_at(i)->0.term
        <= node.current_term
}

/// From `start` on, every slot below one of `term` is of `term`.
pub open spec fn is_run_of<S: StateMachine>(
    node: NodeModel<S>,
    start: int,
    term: Term,
) -> bool {
    forall|i: int, j: int|
        start <= i <= j && (#[trigger] node.term_at(i)) is Some && #[trigger] node.term_at(j)
            == Some(term) ==> node.term_at(i) == Some(term)
}

/// Entries, and snapshots in one piece, are sent by a leader only: exactly what comes
/// next for the peer. Nothing else is an acknowledgement of either.
pub open spec fn sends_own_log<S: StateMachine>(
    node: NodeModel<S>,
    messages: Seq<MessageView>,
) -> bool {
    forall|i: int|
        0 <= i < messages.len() ==> {
            let message = #[trigger] messages[i];
            &&& message.rpc is AppendEntries || message.rpc is InstallSnapshotRequest ==> node.role
                == Role::Leader && message == node.append_message(message.to)
            &&& message.rpc !is AppendEntriesReply
            &&& message.rpc !is InstallSnapshotReply
        }
}

proof fn lemma_appends_own_log<S: StateMachine>(node: NodeModel<S>)
    requires
        node.role == Role::Leader,
    ensures
        sends_own_log(node, node.append_messages()),
{
    assert forall|i: int| 0 <= i < node.append_messages().len() implies {
        let message = #[trigger] node.append_messages()[i];
        &&& message.rpc is AppendEntries || message.rpc is InstallSnapshotRequest ==> node.role
            == Role::Leader && message == node.append_message(message.to)
        &&& message.rpc !is AppendEntriesReply
        &&& message.rpc !is InstallSnapshotReply
    } by {
        assert(node.append_messages()[i] == node.append_message(node.peers[i]));
    }
}

proof fn lemma_append_reply_sends<S: StateMachine>(
    node: NodeModel<S>,
    from: NodeId,
    reply: AppendEntriesReply,
    now_ms: u64,
)
    ensures
        ({
            let (after, messages) = node.on_append_reply(from, reply, now_ms);
            sends_own_log(after, messages)
        }),
{
}

proof fn lemma_install_reply_sends<S: StateMachine>(
    node: NodeModel<S>,
    from: NodeId,
    reply: InstallSnapshotReply,
    now_ms: u64,
)
    ensures
        ({
            let (after, messages) = node.on_install_reply(from, reply, now_ms);
            sends_own_log(after, messages)
        }),
{
}

proof fn lemma_chunk_reply_sends<S: StateMachine>(
    node: NodeModel<S>,
    from: NodeId,
    reply: InstallSnapshotChunkReply,
    now_ms: u64,
)
    ensures
        ({
            let (after, messages) = node.on_chunk_reply(from, reply, now_ms);
            sends_own_log(after, messages)
        }),
{
}

proof fn lemma_pre_vote_reply_sends<S: StateMachine>(
    node: NodeModel<S>,
    from: NodeId,
    reply: PreVoteReply,
    now_ms: u64,
)
    ensures
        ({
            let (after, messages) = node.on_pre_vote_reply(from, reply, now_ms);
            sends_own_log(after, messages)
        }),
{
}

proof fn lemma_vote_reply_sends<S: StateMachine>(
    node: NodeModel<S>,
    from: NodeId,
    reply: RequestVoteReply,
    now_ms: u64,
)
    ensures
        ({
            let (after, messages) = node.on_request_vote_reply(from, reply, now_ms);
            sends_own_log(after, messages)
        }),
{
    let voters = node.granted_voters.insert(from);
    let counted = NodeModel {
        granted_voters: voters,
        votes_granted: voters.len() as usize,
        ..node
    };
    lemma_appends_own_log(counted.elected(now_ms));
}

proof fn lemma_timeout_sends<S: StateMachine>(
    node: NodeModel<S>,
    from: NodeId,
    request: TimeoutNow,
    now_ms: u64,
)
    ensures
        ({
            let (after, messages) = node.on_timeout_now(from, request, now_ms);
            sends_own_log(after, messages)
        }),
{
}

/// What a node sends on hearing an answer comes from its own log.
pub proof fn law_answered_leader_sends_its_log<S: StateMachine>(
    node: NodeModel<S>,
    from: NodeId,
    rpc: RpcView,
    now_ms: u64,
)
    requires
        rpc is RequestVoteReply || rpc is PreVoteReply || rpc is ReadIndexReply
            || rpc is AppendEntriesReply || rpc is InstallSnapshotReply || rpc is TimeoutNow
            || rpc is InstallSnapshotChunkReply,
    ensures
        ({
            let (after, messages) = node.handle(from, rpc, now_ms);
            sends_own_log(after, messages)
        }),
{
    match rpc {
        RpcView::RequestVoteReply(reply) => {
            lemma_vote_reply_sends(node, from, reply, now_ms);
        },
        RpcView::AppendEntriesReply(reply) => {
            lemma_append_reply_sends(node, from, reply, now_ms);
        },
        RpcView::InstallSnapshotReply(reply) => {
            lemma_install_reply_sends(node, from, reply, now_ms);
        },
        RpcView::PreVoteReply(reply) => {
            lemma_pre_vote_reply_sends(node, from, reply, now_ms);
        },
        RpcView::TimeoutNow(request) => {
            lemma_timeout_sends(node, from, request, now_ms);
        },
        RpcView::InstallSnapshotChunkReply(reply) => {
            lemma_chunk_reply_sends(node, from, reply, now_ms);
        },
        _ => {},
    }
}

/// What a node sends on a tick or for a client comes from its own log.
pub proof fn law_leader_sends_its_log<S: StateMachine>(
    node: NodeModel<S>,
    request: ClientRequestView,
    now_ms: u64,
)
    ensures
        ({
            let (after, messages) = node.tick(now_ms);
            sends_own_log(after, messages)
        }),
        node.start_read().1 matches Ok((_, messages)) ==> sends_own_log(
            node.start_read().0,
            messages,
        ),
        node.start_write(request).1 matches Ok((_, messages)) ==> sends_own_log(
            node.start_write(request).0,
            messages,
        ),
{
    if node.role == Role::Leader {
        lemma_appends_own_log(NodeModel { last_heartbeat_at: now_ms, ..node });
        if NodeModel::<S>::command_of(request) is Some {
            lemma_appends_own_log(node.start_write(request).0);
        }
    }
}

// ---- what a follower holds ----

/// The request holds no more than a leader of `term` has that began it at `start` and
/// has reached `last`; a request of an earlier term holds nothing of `term`.
pub open spec fn is_batch_within(
    request: AppendEntriesView,
    term: Term,
    start: int,
    last: int,
) -> bool {
    &&& request.term < term ==> forall|i: int|
        0 <= i < request.entries.len() ==> (#[trigger] request.entries[i]).term <= request.term
    &&& request.term == term ==> {
        &&& request.prev_log_index + request.entries.len() <= last
        &&& request.prev_log_index >= start ==> request.prev_log_term == term
        &&& forall|i: int|
            0 <= i < request.entries.len() && request.prev_log_index + 1 + i >= start ==> (
            #[trigger] request.entries[i]).term == term
    }
}

/// The node holds nothing of `term` that its leader, which began it at `start`, has not
/// sent; or it has moved on.
pub open spec fn trails<S: StateMachine>(node: NodeModel<S>, term: Term, start: int) -> bool {
    ||| node.current_term > term
    ||| {
        &&& is_run_of(node, start, term)
        &&& node.current_term < term ==> entries_are_past(node)
    }
}

/// The same log, and a term that is no less, trail alike.
pub proof fn lemma_same_log_trails<S: StateMachine>(
    node: NodeModel<S>,
    after: NodeModel<S>,
    term: Term,
    start: int,
)
    requires
        trails(node, term, start),
        after.log == node.log,
        after.log_base_index == node.log_base_index,
        after.current_term >= node.current_term,
    ensures
        trails(after, term, start),
{
    assert forall|i: int| #[trigger] after.term_at(i) == node.term_at(i) by {}
    assert forall|i: int| #[trigger] after.entry_at(i) == node.entry_at(i) by {}
    if after.current_term <= term {
        assert forall|i: int, j: int|
            start <= i <= j && (#[trigger] after.term_at(i)) is Some && #[trigger] after.term_at(j)
                == Some(term) implies after.term_at(i) == Some(term) by {
            assert(node.term_at(i) is Some && node.term_at(j) == Some(term));
        }
    }
}

proof fn lemma_appended_trails<S: StateMachine>(
    node: NodeModel<S>,
    request: AppendEntriesView,
    term: Term,
    start: int,
    last: int,
)
    requires
        node.well_formed(),
        1 <= start,
        node.current_term == request.term,
        request.prev_log_index >= node.log_base_index,
        node.term_at(request.prev_log_index as int) == Some(request.prev_log_term),
        request.term <= term,
        is_run_of(node, start, term),
        node.current_term < term ==> entries_are_past(node),
        is_batch_within(request, term, start, last),
    ensures
        trails(node.appended(request), term, start),
{
    let first = request.prev_log_index + 1;
    let entries = request.entries;
    let kept = node.agreement(first, entries) as int;
    let after = node.appended(request);
    let base = node.first_index();
    assert(base <= first <= node.last_index() + 1);
    lemma_agreement_bounds(node, first, entries);
    if kept < entries.len() {
        let cut = first + kept;
        assert(after.log =~= node.log.take(cut - base) + entries.skip(kept));
        assert(after.last_index() == first + entries.len() - 1);
        assert forall|i: int| i < cut implies #[trigger] after.term_at(i) == node.term_at(i) by {
            if node.has_slot(i) {
                assert(after.log[i - base] == node.log[i - base]);
            }
        }
        assert forall|i: int| cut <= i <= after.last_index() implies #[trigger] after.term_at(i)
            == Some(entries[i - first].term) by {
            assert(after.log[i - base] == entries.skip(kept)[i - cut]);
        }
        assert forall|i: int, j: int|
            start <= i <= j && (#[trigger] after.term_at(i)) is Some && #[trigger] after.term_at(j)
                == Some(term) implies after.term_at(i) == Some(term) by {
            if j < cut {
                assert(node.term_at(i) is Some && node.term_at(j) == Some(term));
            } else {
                assert(entries[j - first].term == term);
                assert(request.term == term);
                if i >= cut {
                    assert(entries[i - first].term == term);
                } else if i >= first {
                    lemma_agreeing_slot(node, first, entries, i - first);
                    assert(entries[i - first].term == term);
                } else {
                    assert(node.term_at(request.prev_log_index as int) == Some(term));
                    assert(node.term_at(i) is Some);
                }
            }
        }
        assert forall|i: int| (#[trigger] after.entry_at(i)) is Some && node.current_term
            < term implies after.entry_at(i)->0.term <= after.current_term by {
            if i < cut {
                assert(after.log[i - base] == node.log[i - base]);
                assert(node.entry_at(i) == after.entry_at(i));
            } else {
                assert(after.term_at(i) == Some(entries[i - first].term));
            }
        }
    } else {
        lemma_same_log_trails(node, after, term, start);
    }
}

proof fn lemma_agreeing_slot<S: StateMachine>(
    node: NodeModel<S>,
    index: int,
    entries: Seq<LogEntryView>,
    at: int,
)
    requires
        0 <= at < node.agreement(index, entries),
    ensures
        at < entries.len(),
        node.term_at(index + at) == Some(entries[at].term),
    decreases entries.len(),
{
    if at > 0 {
        lemma_agreeing_slot(node, index + 1, entries.skip(1), at - 1);
    }
}

proof fn lemma_install_trails<S: StateMachine>(
    node: NodeModel<S>,
    snapshot: SnapshotView,
    term: Term,
    start: int,
)
    requires
        node.well_formed(),
        1 <= start,
        trails(node, term, start),
    ensures
        trails(node.install_snapshot(snapshot).0, term, start),
{
    let after = node.install_snapshot(snapshot).0;
    if after.log == node.log && after.log_base_index == node.log_base_index {
        lemma_same_log_trails(node, after, term, start);
    } else {
        let index = snapshot.last_included_index as int;
        assert(snapshot.valid() && !node.outdates(snapshot));
        assert(after.log_base_index == index);
        let kept = node.surviving_entries(snapshot);
        assert(after.log[0].term == snapshot.last_included_term);
        assert(snapshot.last_included_index > 0);
        assert forall|i: int| i > index && after.term_at(i) is Some implies #[trigger] after.term_at(
            i,
        ) == node.term_at(i) && after.entry_at(i) == node.entry_at(i) && node.term_at(index)
            == Some(snapshot.last_included_term) by {
            assert(after.log[i - index] == kept[i - index - 1]);
        }
        assert forall|i: int, j: int|
            start <= i <= j && (#[trigger] after.term_at(i)) is Some && #[trigger] after.term_at(j)
                == Some(term) && after.current_term <= term implies after.term_at(i) == Some(
            term,
        ) by {
            assert(i >= index);
            if j > index {
                assert(node.term_at(j) == Some(term));
                if i == index {
                    assert(node.term_at(index) is Some);
                } else {
                    assert(node.term_at(i) is Some);
                }
            }
        }
        assert forall|i: int| (#[trigger] after.entry_at(i)) is Some && after.current_term
            < term implies after.entry_at(i)->0.term <= after.current_term by {
            if after.entry_at(i) is Some {
                assert(after.term_at(i) is Some);
                assert(node.entry_at(i) == after.entry_at(i));
            }
        }
    }
}

proof fn lemma_append_trails<S: StateMachine>(
    node: NodeModel<S>,
    request: AppendEntriesView,
    now_ms: u64,
    term: Term,
    start: int,
    last: int,
)
    requires
        node.well_formed(),
        1 <= start,
        trails(node, term, start),
        is_batch_within(request, term, start, last),
    ensures
        trails(node.on_append_entries(request, now_ms).0, term, start),
{
    if request.term >= node.current_term {
        let led = node.following(request.term, now_ms).led_by(request.leader_id, now_ms);
        lemma_same_log_trails(node, led, term, start);
        if node.accepts_append(request) {
            let appended = led.appended(request);
            lemma_apply_committed_frame(appended);
            if request.term <= term {
                lemma_appended_trails(led, request, term, start, last);
            }
            lemma_same_log_trails(appended, appended.apply_committed().0, term, start);
        }
    }
}

proof fn lemma_chunk_trails<S: StateMachine>(
    node: NodeModel<S>,
    from: NodeId,
    chunk: InstallSnapshotChunkView,
    now_ms: u64,
    term: Term,
    start: int,
)
    requires
        node.well_formed(),
        1 <= start,
        trails(node, term, start),
    ensures
        trails(node.on_chunk(from, chunk, now_ms).0, term, start),
{
    if node.admits_chunk(from, chunk) {
        let ready = node.receiving(chunk, now_ms);
        lemma_same_log_trails(node, ready, term, start);
        lemma_same_log_trails(node, ready.storing(chunk), term, start);
        lemma_same_log_trails(node, ready.storing(chunk).timer_reset(now_ms), term, start);
        let bytes = ready.arrived(chunk);
        if let Some(snapshot) = parsed_snapshot(bytes) {
            lemma_install_trails(ready, snapshot, term, start);
            let installed = ready.install_snapshot(snapshot).0;
            let finished = ready.finish_transfer(from, bytes, now_ms).0;
            lemma_same_log_trails(installed, finished, term, start);
        } else {
            lemma_same_log_trails(
                ready,
                ready.finish_transfer(from, bytes, now_ms).0,
                term,
                start,
            );
        }
    }
}

proof fn lemma_request_trails<S: StateMachine>(
    node: NodeModel<S>,
    from: NodeId,
    request: InstallSnapshotRequestView,
    now_ms: u64,
    term: Term,
    start: int,
)
    requires
        node.well_formed(),
        1 <= start,
        trails(node, term, start),
    ensures
        trails(node.on_install_request(from, request, now_ms).0, term, start),
{
    if request.term >= node.current_term {
        let present = node.following(request.term, now_ms);
        lemma_same_log_trails(node, present, term, start);
        lemma_install_trails(present, request.snapshot, term, start);
        let installed = present.install_snapshot(request.snapshot).0;
        lemma_same_log_trails(installed, installed.led_by(from, now_ms), term, start);
    }
}

proof fn lemma_vote_reply_trails<S: StateMachine>(
    node: NodeModel<S>,
    from: NodeId,
    reply: RequestVoteReply,
    now_ms: u64,
    term: Term,
    start: int,
)
    requires
        node.well_formed(),
        1 <= start,
        trails(node, term, start),
    ensures
        ({
            let after = node.on_request_vote_reply(from, reply, now_ms).0;
            trails(after, term, start) || after.role == Role::Leader && after.current_term == term
        }),
{
    let after = node.on_request_vote_reply(from, reply, now_ms).0;
    if after.log == node.log {
        lemma_same_log_trails(node, after, term, start);
    } else if after.current_term < term {
        assert forall|i: int| i <= node.last_index() implies #[trigger] after.term_at(i)
            == node.term_at(i) && after.entry_at(i) == node.entry_at(i) by {
            if node.has_slot(i) {
                assert(after.log[i - node.first_index()] == node.log[i - node.first_index()]);
            }
        }
        assert(after.last_index() == node.last_index() + 1);
        assert(after.log.last().term == after.current_term);
        assert forall|i: int, j: int|
            start <= i <= j && (#[trigger] after.term_at(i)) is Some && #[trigger] after.term_at(j)
                == Some(term) implies after.term_at(i) == Some(term) by {
            assert(j <= node.last_index());
            assert(node.term_at(i) is Some && node.term_at(j) == Some(term));
        }
        assert forall|i: int| (#[trigger] after.entry_at(i)) is Some implies after.entry_at(
            i,
        )->0.term <= after.current_term by {
            if i <= node.last_index() {
                assert(after.term_at(i) == node.term_at(i));
                assert(node.entry_at(i) == after.entry_at(i));
            }
        }
    }
}

proof fn lemma_others_keep_the_log<S: StateMachine>(
    node: NodeModel<S>,
    from: NodeId,
    rpc: RpcView,
    now_ms: u64,
)
    requires
        node.can_handle(from, rpc, now_ms),
        rpc is RequestVote || rpc is PreVote || rpc is PreVoteReply || rpc is ReadIndex
            || rpc is ReadIndexReply || rpc is TimeoutNow || rpc is InstallSnapshotReply
            || rpc is InstallSnapshotChunkReply,
    ensures
        ({
            let after = node.handle(from, rpc, now_ms).0;
            &&& after.log == node.log
            &&& after.log_base_index == node.log_base_index
            &&& after.current_term >= node.current_term
        }),
{
}

proof fn lemma_append_reply_keeps_the_log<S: StateMachine>(
    node: NodeModel<S>,
    from: NodeId,
    reply: AppendEntriesReply,
    now_ms: u64,
)
    ensures
        ({
            let after = node.on_append_reply(from, reply, now_ms).0;
            &&& after.log == node.log
            &&& after.log_base_index == node.log_base_index
            &&& after.current_term >= node.current_term
        }),
{
    let acknowledged = node.contacted(from, now_ms).acknowledged(from, reply.match_index);
    let point = acknowledged.commit_point(acknowledged.last_index()) as LogIndex;
    lemma_apply_committed_frame(NodeModel { commit_index: point, ..acknowledged });
}

/// A node that trails the leader of a term goes on trailing it, whatever it is told, as
/// long as requests hold no more than the leader has, and the node is not elected in the
/// same term.
pub proof fn law_handling_keeps_trailing<S: StateMachine>(
    node: NodeModel<S>,
    from: NodeId,
    rpc: RpcView,
    now_ms: u64,
    term: Term,
    start: int,
    last: int,
)
    requires
        node.well_formed(),
        node.can_handle(from, rpc, now_ms),
        1 <= start,
        trails(node, term, start),
        rpc matches RpcView::AppendEntries(request) ==> is_batch_within(
            request,
            term,
            start,
            last,
        ),
    ensures
        ({
            let after = node.handle(from, rpc, now_ms).0;
            trails(after, term, start) || after.role == Role::Leader && after.current_term == term
        }),
{
    let after = node.handle(from, rpc, now_ms).0;
    match rpc {
        RpcView::AppendEntries(request) => {
            lemma_append_trails(node, request, now_ms, term, start, last);
        },
        RpcView::AppendEntriesReply(reply) => {
            lemma_append_reply_keeps_the_log(node, from, reply, now_ms);
            lemma_same_log_trails(node, after, term, start);
        },
        RpcView::InstallSnapshot(snapshot) => {
            lemma_install_trails(node, snapshot, term, start);
            lemma_same_log_trails(node.install_snapshot(snapshot).0, after, term, start);
        },
        RpcView::InstallSnapshotRequest(request) => {
            lemma_request_trails(node, from, request, now_ms, term, start);
        },
        RpcView::InstallSnapshotChunk(chunk) => {
            lemma_chunk_trails(node, from, chunk, now_ms, term, start);
        },
        RpcView::RequestVoteReply(reply) => {
            lemma_vote_reply_trails(node, from, reply, now_ms, term, start);
        },
        _ => {
            lemma_others_keep_the_log(node, from, rpc, now_ms);
            lemma_same_log_trails(node, after, term, start);
        },
    }
}

/// The clock lets nobody hold more.
pub proof fn law_ticking_keeps_trailing<S: StateMachine>(
    node: NodeModel<S>,
    now_ms: u64,
    term: Term,
    start: int,
)
    requires
        node.can_tick(now_ms),
        trails(node, term, start),
    ensures
        trails(node.tick(now_ms).0, term, start),
{
    lemma_same_log_trails(node, node.tick(now_ms).0, term, start);
}

/// A leader of another term that takes a write goes on trailing, and so does a node that
/// begins a read or compacts its log.
pub proof fn law_clients_keep_trailing<S: StateMachine>(
    node: NodeModel<S>,
    request: ClientRequestView,
    index: LogIndex,
    term: Term,
    start: int,
)
    requires
        node.well_formed(),
        1 <= start,
        trails(node, term, start),
    ensures
        trails(node.start_read().0, term, start),
        !(node.role == Role::Leader && node.current_term == term) ==> trails(
            node.start_write(request).0,
            term,
            start,
        ),
        trails(node.compact_to(index).0, term, start),
{
    lemma_same_log_trails(node, node.start_read().0, term, start);
    let after = node.start_write(request).0;
    if after.log == node.log {
        lemma_same_log_trails(node, after, term, start);
    } else if after.current_term < term {
        assert(after.last_index() == node.last_index() + 1);
        assert(after.log.last().term == after.current_term);
        assert forall|i: int| i <= node.last_index() implies #[trigger] after.term_at(i)
            == node.term_at(i) && after.entry_at(i) == node.entry_at(i) by {
            if node.has_slot(i) {
                assert(after.log[i - node.first_index()] == node.log[i - node.first_index()]);
            }
        }
        assert forall|i: int, j: int|
            start <= i <= j && (#[trigger] after.term_at(i)) is Some && #[trigger] after.term_at(j)
                == Some(term) implies after.term_at(i) == Some(term) by {
            assert(j <= node.last_index());
            assert(node.term_at(i) is Some && node.term_at(j) == Some(term));
        }
        assert forall|i: int| (#[trigger] after.entry_at(i)) is Some implies after.entry_at(
            i,
        )->0.term <= after.current_term by {
            if i <= node.last_index() {
                assert(after.term_at(i) == node.term_at(i));
                assert(node.entry_at(i) == after.entry_at(i));
            }
        }
    }
    lemma_compacted_trails(node, index, term, start);
}

proof fn lemma_compacted_trails<S: StateMachine>(
    node: NodeModel<S>,
    index: LogIndex,
    term: Term,
    start: int,
)
    requires
        node.well_formed(),
        1 <= start,
        trails(node, term, start),
    ensures
        trails(node.compact_to(index).0, term, start),
{
    let (after, result) = node.compact_to(index);
    if result is Ok {
        let kept = node.entries_from(index + 1);
        assert forall|i: int| i > index implies #[trigger] after.term_at(i) == node.term_at(i)
            && after.entry_at(i) == node.entry_at(i) by {
            if node.has_slot(i) {
                assert(kept =~= node.log.skip(index + 1 - node.first_index()));
                assert(after.log[i - index] == kept[i - index - 1]);
            }
        }
        assert forall|i: int, j: int|
            start <= i <= j && (#[trigger] after.term_at(i)) is Some && #[trigger] after.term_at(j)
                == Some(term) && after.current_term <= term implies after.term_at(i) == Some(
            term,
        ) by {
            assert(i >= index);
            if j > index {
                assert(node.term_at(j) == Some(term));
                if i == index {
                    assert(node.has_slot(index as int));
                    assert(after.log[0].term == node.term_or_zero(index as int));
                    assert(node.term_at(i) is Some);
                } else {
                    assert(node.term_at(i) is Some);
                }
            }
        }
        assert forall|i: int| (#[trigger] after.entry_at(i)) is Some && after.current_term
            < term implies after.entry_at(i)->0.term <= after.current_term by {
            assert(i > index);
            assert(after.term_at(i) == node.term_at(i));
            assert(node.entry_at(i) == after.entry_at(i));
        }
    } else {
        lemma_same_log_trails(node, after, term, start);
    }
}

/// The node has the entry of `term` at `index`, or a snapshot up to it or past it.
pub open spec fn has_stored<S: StateMachine>(node: NodeModel<S>, index: int, term: Term) -> bool {
    node.term_at(index) == Some(term) || node.log_base_index >= index
}

/// A node that acknowledges all up to `index` to the leader of `term` has the leader's
/// entry there.
pub proof fn law_acknowledged_entry_is_stored<S: StateMachine>(
    node: NodeModel<S>,
    request: AppendEntriesView,
    now_ms: u64,
    term: Term,
    start: int,
    last: int,
    index: int,
)
    requires
        node.well_formed(),
        1 <= start <= index,
        trails(node, term, start),
        is_batch_within(request, term, start, last),
        request.term == term,
        node.accepts_append(request),
        index <= request.prev_log_index + request.entries.len(),
    ensures
        has_stored(node.on_append_entries(request, now_ms).0, index, term),
{
    law_accepted_entries_are_in_the_log(node, request, now_ms);
    let after = node.on_append_entries(request, now_ms).0;
    let led = node.following(request.term, now_ms).led_by(request.leader_id, now_ms);
    lemma_apply_committed_frame(led.appended(request));
    if index > request.prev_log_index {
        let at = index - request.prev_log_index - 1;
        assert(request.entries[at].term == term);
        assert(after.term_at(request.prev_log_index + 1 + at) == Some(request.entries[at].term));
    } else if after.log_base_index < index {
        let prev = request.prev_log_index as int;
        assert(node.term_at(prev) == Some(term));
        assert(node.term_at(index) is Some);
        assert(node.term_at(index) == Some(term));
        assert(after.entry_at(index) == node.entry_at(index));
    }
}

} // verus!
