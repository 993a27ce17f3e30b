//! The linearizability checker.
use crate::decimal::decimal;
use crate::decimal::write_decimal;
use crate::history::copy_operations;
use crate::history::model::checked_operations;
use crate::history::model::minimized;
use crate::history::model::operations_of;
use crate::history::model::place_of;
use crate::history::model::sorted;
use crate::history::model::sorts_before;
use crate::history::model::verdict;
use crate::history::model::SearchResult;
use crate::history::model::ViolationView;
use crate::history::search::search_history;
use crate::history::search::SequencedOperation;
use crate::history::HistoryOperation;
use crate::history::HistoryOperationView;
use crate::history::OperationHistory;
use crate::history::MAX_CHECKED_OPERATIONS;
use crate::types::ClientRequest;
use vstd::prelude::*;
use vstd::string::StringExecFns;

verus! {

/// Why a history is not known to be linearizable.
#[derive(Debug, PartialEq, Eq)]
pub struct LinearizabilityViolation {
    /// A greedily minimized set of successful operations that still fails the
    /// checker. Operations keep their original IDs and timestamps so the
    /// counterexample can be replayed.
    pub counterexample: Vec<HistoryOperation>,
    pub reason: String,
}

impl View for LinearizabilityViolation {
    type V = ViolationView;

    open spec fn view(&self) -> ViolationView {
        ViolationView {
            counterexample: self.counterexample.deep_view(),
            reason: self.reason@,
        }
    }
}

impl Clone for LinearizabilityViolation {
    fn clone(&self) -> (copy: Self)
        ensures
            copy@ == self@,
    {
        LinearizabilityViolation {
            counterexample: copy_operations(&self.counterexample),
            reason: self.reason.clone(),
        }
    }
}

impl ViolationView {
    /// The violation in one line.
    pub open spec fn description(self) -> Seq<char> {
        self.reason + " ("@ + decimal(self.counterexample.len()) + " operations)"@
    }
}

impl LinearizabilityViolation {
    /// The violation in one line: the reason and how many operations the
    /// counterexample holds.
    pub fn describe(&self) -> (text: String)
        ensures
            text@ == self@.description(),
    {
        let mut text = self.reason.clone();
        text.append(" (");
        write_decimal(&mut text, self.counterexample.len());
        text.append(" operations)");
        text
    }
}

/// The result as a mathematical value.
pub open spec fn verdict_view(result: Result<(), LinearizabilityViolation>) -> Result<
    (),
    ViolationView,
> {
    match result {
        Ok(()) => Ok(()),
        Err(violation) => Err(violation@),
    }
}

/// More of a history holds no fewer checked operations.
proof fn lemma_checked_grows(history: Seq<HistoryOperationView>, count: int)
    requires
        0 <= count <= history.len(),
    ensures
        checked_operations(history.take(count)).len() <= checked_operations(history).len(),
    decreases history.len(),
{
    if count < history.len() {
        lemma_checked_grows(history.drop_last(), count);
        assert(history.drop_last().take(count) =~= history.take(count));
    } else {
        assert(history.take(count) =~= history);
    }
}

/// The checked operations, or nothing if there are too many.
fn select_checked(operations: &[HistoryOperation]) -> (selected: Option<Vec<SequencedOperation>>)
    ensures
        ({
            let checked = checked_operations(
                Seq::new(operations@.len(), |i: int| operations@[i]@),
            );
            match selected {
                Some(entries) => entries.deep_view() == checked && checked.len()
                    <= MAX_CHECKED_OPERATIONS,
                None => checked.len() > MAX_CHECKED_OPERATIONS,
            }
        }),
{
    let ghost all = Seq::new(operations@.len(), |i: int| operations@[i]@);
    let mut selected: Vec<SequencedOperation> = Vec::new();
    let mut i: usize = 0;
    while i < operations.len()
        invariant
            i <= operations@.len(),
            all == Seq::new(operations@.len(), |i: int| operations@[i]@),
            selected.deep_view() == checked_operations(all.take(i as int)),
            selected.len() <= MAX_CHECKED_OPERATIONS,
        decreases operations@.len() - i,
    {
        let operation = &operations[i];
        let ghost next = all.take(i + 1);
        assert(next.drop_last() =~= all.take(i as int));
        let local = match operation.request {
            ClientRequest::LocalGet { .. } => true,
            _ => false,
        };
        if operation.response.success && !local {
            if selected.len() == MAX_CHECKED_OPERATIONS {
                proof {
                    lemma_checked_grows(all, i + 1);
                }
                return None;
            }
            let ghost before = selected.deep_view();
            let entry = SequencedOperation { sequence: i, operation: operation.clone() };
            selected.push(entry);
            assert(selected.deep_view() =~= before.push(entry@));
        }
        i += 1;
    }
    assert(all.take(i as int) =~= all);
    Some(selected)
}

/// `left` comes before `right` in the order of the search.
fn comes_before(left: &SequencedOperation, right: &SequencedOperation) -> (before: bool)
    ensures
        before == sorts_before(left@, right@),
{
    let a = &left.operation;
    let b = &right.operation;
    a.invoked_at < b.invoked_at || (a.invoked_at == b.invoked_at && (a.completed_at
        < b.completed_at || (a.completed_at == b.completed_at && left.sequence < right.sequence)))
}

/// How many leading entries sort before `entry`.
fn find_place(entries: &Vec<SequencedOperation>, entry: &SequencedOperation) -> (place: usize)
    ensures
        place == place_of(entries.deep_view(), entry@),
        place <= entries.len(),
{
    let ghost all = entries.deep_view();
    let mut place: usize = 0;
    assert(all.skip(0) =~= all);
    while place < entries.len() && comes_before(&entries[place], entry)
        invariant
            place <= entries.len(),
            all == entries.deep_view(),
            place_of(all, entry@) == place + place_of(all.skip(place as int), entry@),
        decreases entries.len() - place,
    {
        assert(all.skip(place as int).skip(1) =~= all.skip(place + 1));
        place += 1;
    }
    place
}

/// The entries in the order of the search.
fn sort(entries: Vec<SequencedOperation>) -> (result: Vec<SequencedOperation>)
    ensures
        result.deep_view() == sorted(entries.deep_view()),
{
    let ghost all = entries.deep_view();
    let mut result: Vec<SequencedOperation> = Vec::new();
    let mut i: usize = 0;
    while i < entries.len()
        invariant
            i <= entries.len(),
            all == entries.deep_view(),
            result.deep_view() == sorted(all.take(i as int)),
            result.len() == i,
        decreases entries.len() - i,
    {
        let entry = entries[i].clone();
        let place: usize = find_place(&result, &entry);
        let ghost before = result.deep_view();
        assert(all.take(i + 1).drop_last() =~= all.take(i as int));
        result.insert(place, entry);
        assert(result.deep_view() =~= before.insert(place as int, entry@));
        i += 1;
    }
    assert(all.take(i as int) =~= all);
    result
}

/// A copy of the entries without the one at `index`.
fn without(entries: &Vec<SequencedOperation>, index: usize) -> (rest: Vec<SequencedOperation>)
    requires
        index < entries.len(),
    ensures
        rest.deep_view() == entries.deep_view().remove(index as int),
{
    let mut rest: Vec<SequencedOperation> = Vec::new();
    let mut i: usize = 0;
    while i < entries.len()
        invariant
            i <= entries.len(),
            index < entries.len(),
            rest.len() == (if i <= index {
                i as int
            } else {
                i - 1
            }),
            forall|j: int|
                0 <= j < rest.len() ==> (#[trigger] rest[j])@ == entries[if j < index {
                    j
                } else {
                    j + 1
                }]@,
        decreases entries.len() - i,
    {
        if i != index {
            rest.push(entries[i].clone());
        }
        i += 1;
    }
    assert(rest.deep_view() =~= entries.deep_view().remove(index as int));
    rest
}

/// Drops each operation without which the search still fails.
fn minimize(entries: Vec<SequencedOperation>) -> (result: Vec<SequencedOperation>)
    ensures
        result.deep_view() == minimized(entries.deep_view(), 0),
{
    let mut result = entries;
    let mut index: usize = 0;
    while index < result.len()
        invariant
            index <= result.len(),
            minimized(result.deep_view(), index as nat) == minimized(entries.deep_view(), 0),
        decreases result.len() - index,
    {
        let candidate = without(&result, index);
        match search_history(&candidate) {
            SearchResult::NotLinearizable => {
                result = candidate;
            },
            _ => {
                index += 1;
            },
        }
    }
    result
}

/// The operations without their places in the order of recording.
fn operations_in(entries: &Vec<SequencedOperation>) -> (operations: Vec<HistoryOperation>)
    ensures
        operations.deep_view() == operations_of(entries.deep_view()),
{
    let mut operations: Vec<HistoryOperation> = Vec::new();
    let mut i: usize = 0;
    while i < entries.len()
        invariant
            i <= entries.len(),
            operations.len() == i,
            forall|j: int| 0 <= j < i ==> (#[trigger] operations[j])@ == entries[j].operation@,
        decreases entries.len() - i,
    {
        operations.push(entries[i].operation.clone());
        i += 1;
    }
    assert(operations.deep_view() =~= operations_of(entries.deep_view()));
    operations
}

/// Checks successful leader-backed operations for a legal sequential history.
///
/// `LocalGet` is intentionally excluded: it is a local, potentially stale
/// observation and therefore does not have the strong read contract that a
/// leader-backed `Get` has. It remains in the recorded history for diagnostics.
///
/// The history's insertion order breaks ties at equal simulator timestamps.
/// This preserves the real-time order of synchronous calls without adding a
/// field to the public operation format. Histories and search states are
/// bounded; exceeding either limit returns an error rather than claiming that
/// an unchecked history is linearizable.
pub fn check_linearizable(history: &OperationHistory) -> (result: Result<
    (),
    LinearizabilityViolation,
>)
    ensures
        verdict_view(result) == verdict(history@),
{
    let operations = match select_checked(history.operations()) {
        Some(selected) => sort(selected),
        None => {
            let violation = LinearizabilityViolation {
                counterexample: Vec::new(),
                reason: String::from_str(
                    "history exceeds the deterministic checker limit of 64 successful operations",
                ),
            };
            assert(violation@.counterexample =~= Seq::empty());
            return Err(violation);
        },
    };
    match search_history(&operations) {
        SearchResult::Linearizable => Ok(()),
        SearchResult::LimitExceeded => Err(
            LinearizabilityViolation {
                counterexample: operations_in(&operations),
                reason: String::from_str(
                    "linearizability search exceeded the deterministic limit of 100000 states",
                ),
            },
        ),
        SearchResult::NotLinearizable => Err(
            LinearizabilityViolation {
                counterexample: operations_in(&minimize(operations)),
                reason: String::from_str(
                    "no legal sequential order matches the successful operations",
                ),
            },
        ),
    }
}

} // verus!
