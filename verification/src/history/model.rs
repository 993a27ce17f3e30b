//! What it means for a history to be linearizable, and how the search decides it.
use crate::history::HistoryOperationView;
use crate::history::MAX_CHECKED_OPERATIONS;
use crate::history::MAX_SEARCH_STATES;
use crate::types::ClientRequestView;
use vstd::prelude::*;

verus! {

/// The state that clients read and write.
pub type Contents = Map<Seq<char>, Seq<char>>;

/// An operation with its place in the order of recording.
pub struct SequencedView {
    pub sequence: usize,
    pub operation: HistoryOperationView,
}

/// The operations that the checker looks at: those that succeeded, without local
/// reads, which may be stale.
pub open spec fn is_checked(operation: HistoryOperationView) -> bool {
    operation.response.success && operation.request !is LocalGet
}

/// The operations that the checker looks at, in the order of recording.
pub open spec fn checked_operations(history: Seq<HistoryOperationView>) -> Seq<SequencedView>
    decreases history.len(),
{
    if history.len() == 0 {
        Seq::empty()
    } else {
        let earlier = checked_operations(history.drop_last());
        if is_checked(history.last()) {
            earlier.push(
                SequencedView {
                    sequence: (history.len() - 1) as usize,
                    operation: history.last(),
                },
            )
        } else {
            earlier
        }
    }
}

/// `left` was over before `right` began. The order of recording decides where the
/// clock does not.
pub open spec fn must_precede(left: SequencedView, right: SequencedView) -> bool {
    ||| left.operation.completed_at < right.operation.invoked_at
    ||| left.operation.completed_at == right.operation.invoked_at && left.sequence
        < right.sequence
}

/// The contents after the operation, if its response fits the contents before.
pub open spec fn step(operation: HistoryOperationView, contents: Contents) -> Option<Contents> {
    match operation.request {
        ClientRequestView::Get { key } | ClientRequestView::LocalGet { key } => {
            let expected = if contents.contains_key(key) {
                Some(contents[key])
            } else {
                None
            };
            if operation.response.response == expected {
                Some(contents)
            } else {
                None
            }
        },
        ClientRequestView::Put { key, value } => Some(contents.insert(key, value)),
        ClientRequestView::Delete { key } => Some(contents.remove(key)),
    }
}

/// The responses fit one another when the operations run one after the other.
pub open spec fn replays(order: Seq<SequencedView>, contents: Contents) -> bool
    decreases order.len(),
{
    if order.len() == 0 {
        true
    } else {
        match step(order[0].operation, contents) {
            Some(next) => replays(order.skip(1), next),
            None => false,
        }
    }
}

/// No operation stands behind one that it must precede.
pub open spec fn respects_real_time(order: Seq<SequencedView>) -> bool {
    forall|i: int, j: int|
        0 <= i < j < order.len() ==> !must_precede(#[trigger] order[j], #[trigger] order[i])
}

/// A legal sequential order of the operations, starting at `contents`.
pub open spec fn is_legal_order(
    order: Seq<SequencedView>,
    operations: Seq<SequencedView>,
    contents: Contents,
) -> bool {
    &&& order.to_multiset() == operations.to_multiset()
    &&& respects_real_time(order)
    &&& replays(order, contents)
}

/// There is a legal sequential order of the operations, starting at `contents`.
pub open spec fn has_legal_order(operations: Seq<SequencedView>, contents: Contents) -> bool {
    exists|order: Seq<SequencedView>| is_legal_order(order, operations, contents)
}

/// The checked operations of the history have a legal sequential order.
pub open spec fn is_linearizable(history: Seq<HistoryOperationView>) -> bool {
    has_legal_order(checked_operations(history), Map::empty())
}

// ---- the order in which the search looks at operations ----

/// `left` comes before `right` in the order of the search: by the time of the
/// call, then of the reply, then of recording.
pub open spec fn sorts_before(left: SequencedView, right: SequencedView) -> bool {
    let a = left.operation;
    let b = right.operation;
    ||| a.invoked_at < b.invoked_at
    ||| a.invoked_at == b.invoked_at && {
        ||| a.completed_at < b.completed_at
        ||| a.completed_at == b.completed_at && left.sequence < right.sequence
    }
}

/// How many leading entries sort before `entry`.
pub open spec fn place_of(entries: Seq<SequencedView>, entry: SequencedView) -> nat
    decreases entries.len(),
{
    if entries.len() > 0 && sorts_before(entries[0], entry) {
        1 + place_of(entries.skip(1), entry)
    } else {
        0
    }
}

/// The entries in the order of the search.
pub open spec fn sorted(entries: Seq<SequencedView>) -> Seq<SequencedView>
    decreases entries.len(),
{
    if entries.len() == 0 {
        Seq::empty()
    } else {
        let rest = sorted(entries.drop_last());
        rest.insert(place_of(rest, entries.last()) as int, entries.last())
    }
}

// ---- the search ----

#[derive(Clone, Copy, Debug, PartialEq, Eq, Structural)]
pub enum SearchResult {
    Linearizable,
    NotLinearizable,
    LimitExceeded,
}

/// What the search has found, and what it knows by then.
pub struct Outcome {
    pub result: SearchResult,
    /// Remaining operations and contents that were found to lead nowhere.
    pub rejected: Set<(Seq<usize>, Contents)>,
    pub explored: nat,
}

/// Some other remaining operation must precede the one at `position`.
pub open spec fn has_predecessor(
    operations: Seq<SequencedView>,
    remaining: Seq<usize>,
    position: int,
) -> bool {
    exists|other: int|
        {
            &&& 0 <= other < remaining.len()
            &&& #[trigger] remaining[other] != remaining[position]
            &&& must_precede(
                operations[remaining[other] as int],
                operations[remaining[position] as int],
            )
        }
}

/// Looks for a legal order of the remaining operations, depth first, and
/// remembers what leads nowhere.
pub open spec fn search(
    operations: Seq<SequencedView>,
    remaining: Seq<usize>,
    contents: Contents,
    rejected: Set<(Seq<usize>, Contents)>,
    explored: nat,
) -> Outcome
    decreases remaining.len(), remaining.len() + 1,
{
    if remaining.len() == 0 {
        Outcome { result: SearchResult::Linearizable, rejected, explored }
    } else if rejected.contains((remaining, contents)) {
        Outcome { result: SearchResult::NotLinearizable, rejected, explored }
    } else if explored == MAX_SEARCH_STATES {
        Outcome { result: SearchResult::LimitExceeded, rejected, explored }
    } else {
        search_from(operations, remaining, contents, rejected, explored + 1, 0)
    }
}

/// Tries the remaining operations from `position` on as the next one.
pub open spec fn search_from(
    operations: Seq<SequencedView>,
    remaining: Seq<usize>,
    contents: Contents,
    rejected: Set<(Seq<usize>, Contents)>,
    explored: nat,
    position: nat,
) -> Outcome
    decreases remaining.len(), remaining.len() - position,
{
    if position >= remaining.len() {
        Outcome {
            result: SearchResult::NotLinearizable,
            rejected: rejected.insert((remaining, contents)),
            explored,
        }
    } else {
        let next = step(operations[remaining[position as int] as int].operation, contents);
        if has_predecessor(operations, remaining, position as int) || next is None {
            search_from(operations, remaining, contents, rejected, explored, position + 1)
        } else {
            let deeper = search(
                operations,
                remaining.remove(position as int),
                next->0,
                rejected,
                explored,
            );
            if deeper.result == SearchResult::NotLinearizable {
                search_from(
                    operations,
                    remaining,
                    contents,
                    deeper.rejected,
                    deeper.explored,
                    position + 1,
                )
            } else {
                deeper
            }
        }
    }
}

/// All positions of a sequence of this length.
pub open spec fn positions(length: nat) -> Seq<usize> {
    Seq::new(length, |i: int| i as usize)
}

/// What a search over all the operations finds.
pub open spec fn search_all(operations: Seq<SequencedView>) -> SearchResult {
    search(operations, positions(operations.len()), Map::empty(), Set::empty(), 0).result
}

/// Drops, from `index` on, each operation without which the search still fails.
pub open spec fn minimized(operations: Seq<SequencedView>, index: nat) -> Seq<SequencedView>
    decreases operations.len() - index,
{
    if index >= operations.len() {
        operations
    } else {
        let candidate = operations.remove(index as int);
        if search_all(candidate) == SearchResult::NotLinearizable {
            minimized(candidate, index)
        } else {
            minimized(operations, index + 1)
        }
    }
}

// ---- the verdict ----

#[verifier::ext_equal]
pub struct ViolationView {
    pub counterexample: Seq<HistoryOperationView>,
    pub reason: Seq<char>,
}

pub open spec fn too_many_operations() -> Seq<char> {
    "history exceeds the deterministic checker limit of 64 successful operations"@
}

pub open spec fn too_many_states() -> Seq<char> {
    "linearizability search exceeded the deterministic limit of 100000 states"@
}

pub open spec fn no_legal_order() -> Seq<char> {
    "no legal sequential order matches the successful operations"@
}

pub open spec fn operations_of(entries: Seq<SequencedView>) -> Seq<HistoryOperationView> {
    Seq::new(entries.len(), |i: int| entries[i].operation)
}

/// What the checker says of a history.
pub open spec fn verdict(history: Seq<HistoryOperationView>) -> Result<(), ViolationView> {
    let checked = checked_operations(history);
    let operations = sorted(checked);
    if checked.len() > MAX_CHECKED_OPERATIONS {
        Err(ViolationView { counterexample: Seq::empty(), reason: too_many_operations() })
    } else {
        match search_all(operations) {
            SearchResult::Linearizable => Ok(()),
            SearchResult::LimitExceeded => Err(
                ViolationView {
                    counterexample: operations_of(operations),
                    reason: too_many_states(),
                },
            ),
            SearchResult::NotLinearizable => Err(
                ViolationView {
                    counterexample: operations_of(minimized(operations, 0)),
                    reason: no_legal_order(),
                },
            ),
        }
    }
}

} // verus!
