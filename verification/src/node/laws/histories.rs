//! A log in full: with all that compaction has cut off.
use crate::node::model::NodeModel;
use crate::node::replication::lemma_agreement_bounds;
use crate::node::MAX_APPEND_ENTRIES;
use crate::state_machine::after_command;
use crate::state_machine::MemoryStateMachine;
use crate::state_machine::StateMachine;
use crate::types::AppendEntriesView;
use crate::types::LogEntryView;
use crate::types::LogIndex;
use crate::types::NodeId;
use crate::types::RpcView;
use crate::types::SnapshotView;
use crate::types::Term;
use vstd::prelude::*;

verus! {

/// The contents that entries, one after the other, make of nothing.
pub open spec fn contents(entries: Seq<LogEntryView>) -> Map<Seq<char>, Seq<char>>
    decreases entries.len(),
{
    if entries.len() == 0 {
        Map::empty()
    } else {
        after_command(contents(entries.drop_last()), entries.last().command)
    }
}

/// The term of the last entry, or zero.
pub open spec fn last_term(entries: Seq<LogEntryView>) -> Term {
    if entries.len() == 0 {
        0
    } else {
        entries.last().term
    }
}

/// `full` is the node's log with what stood before the boundary.
pub open spec fn is_in_full<S: StateMachine>(
    node: NodeModel<S>,
    full: Seq<LogEntryView>,
) -> bool {
    &&& full.len() == node.last_index()
    &&& node.log_base_index <= full.len()
    &&& forall|i: int|
        node.log_base_index < i <= full.len() ==> #[trigger] node.entry_at(i) == Some(full[i - 1])
    &&& node.log_base_index > 0 ==> node.term_at(node.log_base_index as int) == Some(
        full[node.log_base_index - 1].term,
    )
}

/// Two logs that have an entry of one term at one place agree up to there.
pub open spec fn match_up(first: Seq<LogEntryView>, second: Seq<LogEntryView>) -> bool {
    forall|i: int|
        0 < i <= first.len() && i <= second.len() && (#[trigger] first[i - 1]).term == second[i
            - 1].term ==> first.take(i) == second.take(i)
}

/// The log once it holds `source` up to `upto`: as it was if it does already, else
/// nothing but that.
pub open spec fn merged(
    full: Seq<LogEntryView>,
    source: Seq<LogEntryView>,
    upto: int,
) -> Seq<LogEntryView> {
    if upto <= full.len() && full.take(upto) == source.take(upto) {
        full
    } else {
        source.take(upto)
    }
}

/// What stands at an index in full stands there in the log.
pub proof fn lemma_full_terms<S: StateMachine>(node: NodeModel<S>, full: Seq<LogEntryView>)
    requires
        is_in_full(node, full),
    ensures
        forall|i: int|
            1 <= i && node.log_base_index <= i <= full.len() ==> #[trigger] node.term_at(i) == Some(
                full[i - 1].term,
            ),
        forall|i: int| i > full.len() ==> #[trigger] node.term_at(i) is None,
        node.last_log_term() == last_term(full),
{
    assert forall|i: int| 1 <= i && node.log_base_index <= i <= full.len() implies
        #[trigger] node.term_at(i) == Some(full[i - 1].term) by {
        if i > node.log_base_index {
            assert(node.entry_at(i) == Some(full[i - 1]));
        }
    }
    if full.len() > 0 {
        assert(node.term_at(full.len() as int) == Some(full[full.len() - 1].term));
    }
}

/// The same slots are the same log in full.
pub proof fn lemma_same_full<S: StateMachine>(
    node: NodeModel<S>,
    after: NodeModel<S>,
    full: Seq<LogEntryView>,
)
    requires
        is_in_full(node, full),
        after.log == node.log,
        after.log_base_index == node.log_base_index,
    ensures
        is_in_full(after, full),
{
    assert forall|i: int| after.log_base_index < i <= full.len() implies
        #[trigger] after.entry_at(i) == Some(full[i - 1]) by {
        assert(node.entry_at(i) == Some(full[i - 1]));
    }
}

/// The slots that agree with part of another log are that log's, up to the first that is
/// not.
pub proof fn lemma_agreement_matches<S: StateMachine>(
    node: NodeModel<S>,
    full: Seq<LogEntryView>,
    source: Seq<LogEntryView>,
    prev: int,
    entries: Seq<LogEntryView>,
)
    requires
        is_in_full(node, full),
        match_up(full, source),
        0 <= prev <= full.len(),
        node.log_base_index <= prev,
        prev + entries.len() <= source.len(),
        entries == source.subrange(prev, prev + entries.len()),
        full.take(prev) == source.take(prev),
    ensures
        ({
            let kept = node.agreement(prev + 1, entries) as int;
            &&& 0 <= kept <= entries.len()
            &&& prev + kept <= full.len()
            &&& full.take(prev + kept) == source.take(prev + kept)
            &&& kept < entries.len() && prev + kept < full.len() ==> full[prev + kept].term
                != source[prev + kept].term
        }),
    decreases entries.len(),
{
    lemma_full_terms(node, full);
    if entries.len() > 0 && node.term_at(prev + 1) == Some(entries[0].term) {
        assert(node.term_at(prev + 1) is Some);
        assert(prev + 1 <= full.len());
        assert(full[prev + 1 - 1].term == source[prev].term);
        let rest = entries.skip(1);
        assert(rest =~= source.subrange(prev + 1, prev + 1 + rest.len()));
        lemma_agreement_matches(node, full, source, prev + 1, rest);
    } else if entries.len() > 0 && prev < full.len() {
        assert(node.term_at(prev + 1) == Some(full[prev + 1 - 1].term));
    }
}

/// A request that holds part of a log merges that log, up to where the request ends,
/// into the node's.
pub proof fn law_append_merges<S: StateMachine>(
    node: NodeModel<S>,
    full: Seq<LogEntryView>,
    source: Seq<LogEntryView>,
    request: AppendEntriesView,
)
    requires
        node.well_formed(),
        is_in_full(node, full),
        match_up(full, source),
        request.prev_log_index >= node.log_base_index,
        node.term_at(request.prev_log_index as int) == Some(request.prev_log_term),
        request.prev_log_index + request.entries.len() <= source.len(),
        request.entries == source.subrange(
            request.prev_log_index as int,
            request.prev_log_index + request.entries.len(),
        ),
        request.prev_log_index > 0 ==> request.prev_log_term == source[request.prev_log_index
            - 1].term,
    ensures
        is_in_full(
            node.appended(request),
            merged(full, source, request.prev_log_index + request.entries.len()),
        ),
{
    let prev = request.prev_log_index as int;
    let entries = request.entries;
    let upto = prev + entries.len();
    let after = node.appended(request);
    lemma_full_terms(node, full);
    assert(prev <= full.len());
    if prev > 0 {
        assert(node.term_at(prev) == Some(full[prev - 1].term));
        assert(full[prev - 1].term == source[prev - 1].term);
    } else {
        assert(full.take(0) =~= source.take(0));
    }
    lemma_agreement_matches(node, full, source, prev, entries);
    let kept = node.agreement(prev + 1, entries) as int;
    lemma_agreement_bounds(node, prev + 1, entries);
    if kept == entries.len() {
        lemma_same_full(node, after, full);
    } else {
        let cut = prev + 1 + kept;
        let base = node.first_index();
        assert(after.log =~= node.log.take(cut - base) + entries.skip(kept));
        if upto <= full.len() {
            assert(full.take(upto)[cut - 1] == full[cut - 1]);
            assert(source.take(upto)[cut - 1] == source[cut - 1]);
        }
        let full_after = source.take(upto);
        assert(merged(full, source, upto) == full_after);
        assert forall|i: int| after.log_base_index < i <= full_after.len() implies
            #[trigger] after.entry_at(i) == Some(full_after[i - 1]) by {
            if i < cut {
                assert(node.entry_at(i) == Some(full[i - 1]));
                assert(after.log[i - base] == node.log[i - base]);
                assert(full.take(prev + kept)[i - 1] == source.take(prev + kept)[i - 1]);
            } else {
                assert(after.log[i - base] == entries.skip(kept)[i - cut]);
                assert(entries[i - prev - 1] == source[i - 1]);
            }
        }
        if node.log_base_index > 0 {
            let at = node.log_base_index as int;
            assert(after.log[0] == node.log[0]);
            assert(full.take(prev + kept)[at - 1] == source.take(prev + kept)[at - 1]);
        }
    }
}

/// A snapshot of a log merges that log, up to the boundary, into the node's.
pub proof fn law_install_merges<S: StateMachine>(
    node: NodeModel<S>,
    full: Seq<LogEntryView>,
    source: Seq<LogEntryView>,
    snapshot: SnapshotView,
)
    requires
        node.well_formed(),
        is_in_full(node, full),
        match_up(full, source),
        snapshot.valid(),
        !node.outdates(snapshot),
        snapshot.last_included_index <= source.len(),
        snapshot.last_included_term == source[snapshot.last_included_index - 1].term,
    ensures
        is_in_full(
            node.rebased(snapshot, node.surviving_entries(snapshot)),
            merged(full, source, snapshot.last_included_index as int),
        ),
{
    let index = snapshot.last_included_index as int;
    let after = node.rebased(snapshot, node.surviving_entries(snapshot));
    let full_after = merged(full, source, index);
    lemma_full_terms(node, full);
    assert(after.log[0].term == snapshot.last_included_term);
    if node.term_at(index) == Some(snapshot.last_included_term) {
        assert(index <= full.len());
        assert(full[index - 1].term == source[index - 1].term);
        let kept = node.entries_from(index + 1);
        assert(kept =~= node.log.skip(index + 1 - node.first_index()));
        assert forall|i: int| after.log_base_index < i <= full_after.len() implies
            #[trigger] after.entry_at(i) == Some(full_after[i - 1]) by {
            assert(node.entry_at(i) == Some(full[i - 1]));
            assert(after.log[i - index] == kept[i - index - 1]);
        }
        assert(full_after == full);
    } else {
        if index <= full.len() && full.take(index) == source.take(index) {
            assert(full.take(index)[index - 1] == source.take(index)[index - 1]);
            assert(node.term_at(index) == Some(full[index - 1].term));
        }
    }
}

/// An entry pushed onto the log is pushed onto the log in full.
pub proof fn lemma_pushed_full<S: StateMachine>(
    node: NodeModel<S>,
    after: NodeModel<S>,
    full: Seq<LogEntryView>,
    entry: LogEntryView,
)
    requires
        node.well_formed(),
        is_in_full(node, full),
        after.log == node.log.push(entry),
        after.log_base_index == node.log_base_index,
    ensures
        is_in_full(after, full.push(entry)),
{
    let longer = full.push(entry);
    assert(after.last_index() == node.last_index() + 1);
    assert forall|i: int| after.log_base_index < i <= longer.len() implies
        #[trigger] after.entry_at(i) == Some(longer[i - 1]) by {
        if i <= full.len() {
            assert(node.entry_at(i) == Some(full[i - 1]));
            assert(after.log[i - node.first_index()] == node.log[i - node.first_index()]);
        }
    }
}

/// Compaction within the log leaves it, in full, as it is.
pub proof fn lemma_compacted_full<S: StateMachine>(
    node: NodeModel<S>,
    full: Seq<LogEntryView>,
    index: LogIndex,
)
    requires
        node.well_formed(),
        is_in_full(node, full),
        node.last_applied <= full.len(),
    ensures
        is_in_full(node.compact_to(index).0, full),
{
    let (after, result) = node.compact_to(index);
    lemma_full_terms(node, full);
    if result is Ok {
        let kept = node.entries_from(index + 1);
        assert(kept =~= node.log.skip(index + 1 - node.first_index()));
        assert(node.term_at(index as int) == Some(full[index - 1].term));
        assert(after.log[0].term == full[index - 1].term);
        assert forall|i: int| after.log_base_index < i <= full.len() implies
            #[trigger] after.entry_at(i) == Some(full[i - 1]) by {
            assert(node.entry_at(i) == Some(full[i - 1]));
            assert(after.log[i - index] == kept[i - index - 1]);
        }
    } else {
        lemma_same_full(node, after, full);
    }
}

/// What a leader sends to a peer is part of its log in full, reaches the end of the log
/// if it is less than a whole batch, and otherwise holds a whole batch.
pub proof fn law_batch_is_part_of_the_log<S: StateMachine>(
    node: NodeModel<S>,
    full: Seq<LogEntryView>,
    peer: NodeId,
)
    requires
        node.well_formed(),
        is_in_full(node, full),
        1 <= node.next_for(peer) <= full.len() + 1,
        node.log_base_index > 0 ==> node.snapshot is Some,
    ensures
        node.append_message(peer).rpc matches RpcView::AppendEntries(request) ==> {
            let prev = request.prev_log_index as int;
            let count = request.entries.len();
            &&& request.term == node.current_term
            &&& request.leader_commit == node.commit_index
            &&& prev + count <= full.len()
            &&& request.entries == full.subrange(prev, prev + count)
            &&& prev > 0 ==> request.prev_log_term == full[prev - 1].term
            &&& prev == 0 ==> request.prev_log_term == 0
            &&& prev + count == full.len() || count == MAX_APPEND_ENTRIES
        },
{
    let next = node.next_for(peer);
    if let RpcView::AppendEntries(request) = node.append_message(peer).rpc {
        lemma_full_terms(node, full);
        assert(node.snapshot_due(peer) is None);
        assert(next > node.log_base_index);
        let backlog = node.entries_from(next);
        let first = node.first_index();
        assert(backlog =~= node.log.skip(next - first));
        let prev = request.prev_log_index as int;
        assert(prev == next - 1);
        let count = request.entries.len() as int;
        assert forall|i: int| 0 <= i < count implies #[trigger] request.entries[i] == full.subrange(
            prev,
            prev + count,
        )[i] by {
            assert(request.entries[i] == node.log[next - first + i]);
            assert(node.entry_at(next + i) == Some(full[next + i - 1]));
        }
        assert(request.entries =~= full.subrange(prev, prev + count));
        if prev > 0 {
            assert(node.term_at(prev) == Some(full[prev - 1].term));
        }
    }
}

impl NodeModel<MemoryStateMachine> {
    /// Exactly what is committed is applied, and the state is what the log in full makes
    /// of nothing up to there.
    pub open spec fn shows(self, full: Seq<LogEntryView>) -> bool {
        &&& self.last_applied == self.commit_index
        &&& self.state.last_applied == self.commit_index
        &&& self.commit_index <= full.len()
        &&& self.state.data == contents(full.take(self.commit_index as int))
        &&& self.state.data.dom().finite()
    }

    /// Applying shows what the log in full has up to the commit index.
    pub proof fn lemma_applied_shows(self, full: Seq<LogEntryView>)
        requires
            is_in_full(self, full),
            self.log_base_index <= self.last_applied <= self.commit_index <= full.len(),
            self.state.last_applied == self.last_applied,
            self.state.data == contents(full.take(self.last_applied as int)),
            self.state.data.dom().finite(),
        ensures
            self.apply_committed().0.shows(full),
            self.apply_committed().0.commit_index == self.commit_index,
        decreases self.commit_index - self.last_applied,
    {
        if self.last_applied < self.commit_index {
            let index = (self.last_applied + 1) as LogIndex;
            assert(self.entry_at(index as int) == Some(full[index - 1]));
            let entry = full[index - 1];
            let (state, result) = MemoryStateMachine::applied(self.state, index, entry.command);
            let next = NodeModel { state, last_applied: index, ..self };
            assert(full.take(index as int).drop_last() =~= full.take(index - 1));
            lemma_same_full(self, next, full);
            next.lemma_applied_shows(full);
        }
    }
}

} // verus!
