//! Where the entries of a log come from.
use crate::codec::parsed_snapshot;
use crate::node::laws::batches::entries_are_past;
use crate::node::laws::tenure::lemma_role_after;
use crate::node::model::NodeModel;
use crate::node::replication::lemma_agreement_bounds;
use crate::node::replication::lemma_apply_committed_frame;
use crate::state_machine::StateMachine;
use crate::types::AppendEntriesReply;
use crate::types::AppendEntriesView;
use crate::types::ClientRequestView;
use crate::types::InstallSnapshotChunkView;
use crate::types::InstallSnapshotRequestView;
use crate::types::LogIndex;
use crate::types::NodeId;
use crate::types::RequestVoteReply;
use crate::types::Role;
use crate::types::RpcView;
use crate::types::SnapshotView;
use crate::types::Term;
use vstd::prelude::*;

verus! {

/// The entry stood at its place before, or the message brought it, or the node has just
/// opened its own term with it.
pub open spec fn has_origin<S: StateMachine>(
    node: NodeModel<S>,
    after: NodeModel<S>,
    rpc: RpcView,
    index: int,
) -> bool {
    ||| after.entry_at(index) == node.entry_at(index)
    ||| rpc matches RpcView::AppendEntries(request) && request.term == after.current_term
        && request.entries.contains(after.entry_at(index)->0)
    ||| after.role == Role::Leader && node.role == Role::Candidate && after.entry_at(
        index,
    )->0.term == after.current_term
}

/// Every entry after the message has its origin, and the snapshot that the log starts
/// at is there.
spec fn is_rooted<S: StateMachine>(
    node: NodeModel<S>,
    after: NodeModel<S>,
    rpc: RpcView,
) -> bool {
    &&& forall|i: int| (#[trigger] after.entry_at(i)) is Some ==> has_origin(node, after, rpc, i)
    &&& starts_somewhere(node) ==> starts_somewhere(after)
}

/// A log that does not start at its beginning starts at a snapshot.
pub open spec fn starts_somewhere<S: StateMachine>(node: NodeModel<S>) -> bool {
    node.log_base_index > 0 ==> {
        &&& node.snapshot is Some
        &&& node.snapshot->0.last_included_index == node.log_base_index
    }
}

proof fn lemma_same_log<S: StateMachine>(
    node: NodeModel<S>,
    middle: NodeModel<S>,
    after: NodeModel<S>,
    rpc: RpcView,
)
    requires
        is_rooted(node, middle, rpc),
        after.log == middle.log,
        after.log_base_index == middle.log_base_index,
        after.snapshot == middle.snapshot,
        after.current_term == middle.current_term,
        after.role == middle.role,
    ensures
        is_rooted(node, after, rpc),
{
    assert forall|i: int| (#[trigger] after.entry_at(i)) is Some implies has_origin(
        node,
        after,
        rpc,
        i,
    ) by {
        assert(after.entry_at(i) == middle.entry_at(i));
        assert(has_origin(node, middle, rpc, i));
    }
}

proof fn lemma_untouched<S: StateMachine>(node: NodeModel<S>, after: NodeModel<S>, rpc: RpcView)
    requires
        after.log == node.log,
        after.log_base_index == node.log_base_index,
        after.snapshot == node.snapshot,
    ensures
        is_rooted(node, after, rpc),
{
    assert forall|i: int| #[trigger] after.entry_at(i) == node.entry_at(i) by {}
}

proof fn lemma_append<S: StateMachine>(
    node: NodeModel<S>,
    request: AppendEntriesView,
    now_ms: u64,
)
    requires
        node.well_formed(),
    ensures
        is_rooted(
            node,
            node.on_append_entries(request, now_ms).0,
            RpcView::AppendEntries(request),
        ),
{
    let rpc = RpcView::AppendEntries(request);
    if request.term < node.current_term {
        lemma_untouched(node, node, rpc);
    } else {
        let led = node.following(request.term, now_ms).led_by(request.leader_id, now_ms);
        if !node.accepts_append(request) {
            lemma_untouched(node, led, rpc);
        } else {
            let after = led.appended(request);
            let first = request.prev_log_index + 1;
            let entries = request.entries;
            let kept = led.agreement(first, entries) as int;
            let base = led.first_index();
            lemma_agreement_bounds(led, first, entries);
            if kept < entries.len() {
                let cut = first + kept;
                assert(after.log =~= led.log.take(cut - base) + entries.skip(kept));
                assert forall|i: int| (#[trigger] after.entry_at(i)) is Some implies has_origin(
                    node,
                    after,
                    rpc,
                    i,
                ) by {
                    if i < cut {
                        assert(after.log[i - base] == led.log[i - base]);
                        assert(after.entry_at(i) == node.entry_at(i));
                    } else {
                        assert(after.log[i - base] == entries.skip(kept)[i - cut]);
                        assert(entries[i - first] == after.entry_at(i)->0);
                    }
                }
            } else {
                lemma_untouched(node, after, rpc);
            }
            lemma_apply_committed_frame(after);
            lemma_same_log(node, after, after.apply_committed().0, rpc);
        }
    }
}

proof fn lemma_install<S: StateMachine>(
    node: NodeModel<S>,
    present: NodeModel<S>,
    snapshot: SnapshotView,
    rpc: RpcView,
)
    requires
        node.well_formed(),
        present.log == node.log,
        present.log_base_index == node.log_base_index,
        present.snapshot == node.snapshot,
    ensures
        is_rooted(node, present.install_snapshot(snapshot).0, rpc),
{
    let after = present.install_snapshot(snapshot).0;
    if after.log == node.log && after.log_base_index == node.log_base_index && after.snapshot
        == node.snapshot {
        lemma_untouched(node, after, rpc);
    } else {
        let index = snapshot.last_included_index as int;
        assert(after.log_base_index == index);
        let kept = present.surviving_entries(snapshot);
        assert forall|i: int| (#[trigger] after.entry_at(i)) is Some implies has_origin(
            node,
            after,
            rpc,
            i,
        ) by {
            if index > 0 {
                assert(after.log[i - index] == kept[i - index - 1]);
            } else {
                assert(snapshot.valid());
            }
            assert(after.entry_at(i) == node.entry_at(i));
        }
    }
}

proof fn lemma_chunk<S: StateMachine>(
    node: NodeModel<S>,
    from: NodeId,
    chunk: InstallSnapshotChunkView,
    now_ms: u64,
)
    requires
        node.well_formed(),
    ensures
        is_rooted(
            node,
            node.on_chunk(from, chunk, now_ms).0,
            RpcView::InstallSnapshotChunk(chunk),
        ),
{
    let rpc = RpcView::InstallSnapshotChunk(chunk);
    let ready = node.receiving(chunk, now_ms);
    lemma_untouched(node, node, rpc);
    lemma_untouched(node, ready, rpc);
    lemma_untouched(node, ready.storing(chunk), rpc);
    lemma_untouched(node, ready.storing(chunk).timer_reset(now_ms), rpc);
    let bytes = ready.arrived(chunk);
    let finished = ready.finish_transfer(from, bytes, now_ms).0;
    if let Some(snapshot) = parsed_snapshot(bytes) {
        lemma_install(node, ready, snapshot, rpc);
        lemma_same_log(node, ready.install_snapshot(snapshot).0, finished, rpc);
    } else {
        lemma_untouched(node, finished, rpc);
    }
}

proof fn lemma_install_request<S: StateMachine>(
    node: NodeModel<S>,
    from: NodeId,
    request: InstallSnapshotRequestView,
    now_ms: u64,
)
    requires
        node.well_formed(),
    ensures
        is_rooted(
            node,
            node.on_install_request(from, request, now_ms).0,
            RpcView::InstallSnapshotRequest(request),
        ),
{
    let rpc = RpcView::InstallSnapshotRequest(request);
    let present = node.following(request.term, now_ms);
    lemma_untouched(node, node, rpc);
    lemma_untouched(node, present, rpc);
    lemma_install(node, present, request.snapshot, rpc);
    let installed = present.install_snapshot(request.snapshot).0;
    lemma_same_log(node, installed, installed.led_by(from, now_ms), rpc);
}

proof fn lemma_vote_reply<S: StateMachine>(
    node: NodeModel<S>,
    from: NodeId,
    reply: RequestVoteReply,
    now_ms: u64,
)
    requires
        node.well_formed(),
    ensures
        is_rooted(
            node,
            node.on_request_vote_reply(from, reply, now_ms).0,
            RpcView::RequestVoteReply(reply),
        ),
{
    let rpc = RpcView::RequestVoteReply(reply);
    let after = node.on_request_vote_reply(from, reply, now_ms).0;
    if after.log == node.log {
        lemma_untouched(node, after, rpc);
    } else {
        assert forall|i: int| (#[trigger] after.entry_at(i)) is Some implies has_origin(
            node,
            after,
            rpc,
            i,
        ) by {
            if i <= node.last_index() {
                assert(after.log[i - node.first_index()] == node.log[i - node.first_index()]);
                assert(after.entry_at(i) == node.entry_at(i));
            } else {
                assert(after.log.last().term == after.current_term);
            }
        }
    }
}

proof fn lemma_append_reply<S: StateMachine>(
    node: NodeModel<S>,
    from: NodeId,
    reply: AppendEntriesReply,
    now_ms: u64,
)
    ensures
        is_rooted(
            node,
            node.on_append_reply(from, reply, now_ms).0,
            RpcView::AppendEntriesReply(reply),
        ),
{
    let acknowledged = node.contacted(from, now_ms).acknowledged(from, reply.match_index);
    let point = acknowledged.commit_point(acknowledged.last_index()) as LogIndex;
    lemma_apply_committed_frame(NodeModel { commit_index: point, ..acknowledged });
    lemma_untouched(
        node,
        node.on_append_reply(from, reply, now_ms).0,
        RpcView::AppendEntriesReply(reply),
    );
}

proof fn lemma_others<S: StateMachine>(
    node: NodeModel<S>,
    from: NodeId,
    rpc: RpcView,
    now_ms: u64,
)
    requires
        rpc is RequestVote || rpc is PreVote || rpc is PreVoteReply || rpc is ReadIndex
            || rpc is ReadIndexReply || rpc is TimeoutNow || rpc is InstallSnapshotReply
            || rpc is InstallSnapshotChunkReply,
    ensures
        ({
            let after = node.handle(from, rpc, now_ms).0;
            &&& after.log == node.log
            &&& after.log_base_index == node.log_base_index
            &&& after.snapshot == node.snapshot
        }),
{
}

/// Every entry of a log has an origin: it stood there before, a request of the node's
/// term brought it, or the node opened its term with it. And a log that does not start
/// at its beginning starts at a snapshot.
pub proof fn law_every_entry_has_an_origin<S: StateMachine>(
    node: NodeModel<S>,
    from: NodeId,
    rpc: RpcView,
    now_ms: u64,
)
    requires
        node.well_formed(),
    ensures
        ({
            let after = node.handle(from, rpc, now_ms).0;
            &&& forall|i: int| (#[trigger] after.entry_at(i)) is Some ==> has_origin(
                node,
                after,
                rpc,
                i,
            )
            &&& starts_somewhere(node) ==> starts_somewhere(after)
        }),
{
    let after = node.handle(from, rpc, now_ms).0;
    match rpc {
        RpcView::AppendEntries(request) => {
            lemma_append(node, request, now_ms);
        },
        RpcView::AppendEntriesReply(reply) => {
            lemma_append_reply(node, from, reply, now_ms);
        },
        RpcView::InstallSnapshot(snapshot) => {
            lemma_install(node, node, snapshot, rpc);
            lemma_same_log(node, node.install_snapshot(snapshot).0, after, rpc);
        },
        RpcView::InstallSnapshotRequest(request) => {
            lemma_install_request(node, from, request, now_ms);
        },
        RpcView::InstallSnapshotChunk(chunk) => {
            lemma_chunk(node, from, chunk, now_ms);
        },
        RpcView::RequestVoteReply(reply) => {
            lemma_vote_reply(node, from, reply, now_ms);
        },
        _ => {
            lemma_others(node, from, rpc, now_ms);
            lemma_untouched(node, after, rpc);
        },
    }
}

/// The entries of a request are of terms up to the request's.
pub open spec fn batch_is_past(rpc: RpcView) -> bool {
    rpc matches RpcView::AppendEntries(request) ==> forall|i: int|
        0 <= i < request.entries.len() ==> (#[trigger] request.entries[i]).term <= request.term
}

/// The node holds no entry of `term`, or has moved on.
pub open spec fn knows_nothing_of<S: StateMachine>(node: NodeModel<S>, term: Term) -> bool {
    node.current_term > term || forall|i: int| (#[trigger] node.entry_at(i)) is Some
        ==> node.entry_at(i)->0.term != term
}

/// No log ever holds an entry of a term that its node has not reached; and nothing of a
/// term, as long as no request of that term comes and the node does not lead in it.
pub proof fn law_entries_stay_past<S: StateMachine>(
    node: NodeModel<S>,
    from: NodeId,
    rpc: RpcView,
    now_ms: u64,
    term: Term,
)
    requires
        node.well_formed(),
        node.can_handle(from, rpc, now_ms),
        entries_are_past(node),
        batch_is_past(rpc),
    ensures
        ({
            let after = node.handle(from, rpc, now_ms).0;
            &&& entries_are_past(after)
            &&& {
                &&& knows_nothing_of(node, term)
                &&& rpc matches RpcView::AppendEntries(request) ==> request.term != term
                &&& !(after.role == Role::Leader && after.current_term == term)
            } ==> knows_nothing_of(after, term)
        }),
{
    let after = node.handle(from, rpc, now_ms).0;
    law_every_entry_has_an_origin(node, from, rpc, now_ms);
    lemma_role_after(node, from, rpc, now_ms);
    assert forall|i: int| (#[trigger] after.entry_at(i)) is Some implies after.entry_at(i)->0.term
        <= after.current_term && ({
        &&& knows_nothing_of(node, term)
        &&& rpc matches RpcView::AppendEntries(request) ==> request.term != term
        &&& !(after.role == Role::Leader && after.current_term == term)
        &&& after.current_term <= term
    } ==> after.entry_at(i)->0.term != term) by {
        assert(has_origin(node, after, rpc, i));
        if after.entry_at(i) == node.entry_at(i) {
            assert(node.entry_at(i)->0.term <= node.current_term);
        } else if let RpcView::AppendEntries(request) = rpc {
            let entry = after.entry_at(i)->0;
            let k = choose|k: int| 0 <= k < request.entries.len() && request.entries[k] == entry;
            if request.entries.contains(entry) {
                assert(request.entries[k].term <= request.term);
            }
        }
    }
}

/// The clock, clients and compaction add nothing of a term that the node has not
/// reached.
pub proof fn law_entries_stay_past_by_themselves<S: StateMachine>(
    node: NodeModel<S>,
    request: ClientRequestView,
    now_ms: u64,
    term: Term,
)
    requires
        node.well_formed(),
        entries_are_past(node),
    ensures
        node.can_tick(now_ms) ==> {
            let after = node.tick(now_ms).0;
            &&& entries_are_past(after)
            &&& starts_somewhere(node) ==> starts_somewhere(after)
            &&& knows_nothing_of(node, term) ==> knows_nothing_of(after, term)
        },
        ({
            let after = node.start_write(request).0;
            &&& entries_are_past(after)
            &&& starts_somewhere(node) ==> starts_somewhere(after)
            &&& knows_nothing_of(node, term) && !(node.role == Role::Leader && node.current_term
                == term) ==> knows_nothing_of(after, term)
        }),
        ({
            let after = node.start_read().0;
            &&& entries_are_past(after)
            &&& starts_somewhere(node) ==> starts_somewhere(after)
            &&& knows_nothing_of(node, term) ==> knows_nothing_of(after, term)
        }),
{
    let ticked = node.tick(now_ms).0;
    assert(ticked.log == node.log && ticked.log_base_index == node.log_base_index);
    assert forall|i: int| #[trigger] ticked.entry_at(i) == node.entry_at(i) by {}
    let reading = node.start_read().0;
    assert forall|i: int| #[trigger] reading.entry_at(i) == node.entry_at(i) by {}
    let writing = node.start_write(request).0;
    assert forall|i: int| (#[trigger] writing.entry_at(i)) is Some implies writing.entry_at(i)
        == node.entry_at(i) || (node.role == Role::Leader && writing.entry_at(i)->0.term
        == node.current_term) by {
        if i <= node.last_index() && node.has_slot(i) {
            assert(writing.log[i - node.first_index()] == node.log[i - node.first_index()]);
        }
    }
}

} // verus!
