//! What the checker's verdict means.
use crate::history::MAX_SEARCH_STATES;
use crate::history::model::checked_operations;
use crate::history::model::has_legal_order;
use crate::history::model::has_predecessor;
use crate::history::model::is_checked;
use crate::history::model::is_legal_order;
use crate::history::model::is_linearizable;
use crate::history::model::minimized;
use crate::history::model::must_precede;
use crate::history::model::no_legal_order;
use crate::history::model::operations_of;
use crate::history::model::place_of;
use crate::history::model::positions;
use crate::history::model::replays;
use crate::history::model::respects_real_time;
use crate::history::model::search;
use crate::history::model::search_all;
use crate::history::model::search_from;
use crate::history::model::sorted;
use crate::history::model::sorts_before;
use crate::history::model::step;
use crate::history::model::too_many_operations;
use crate::history::model::too_many_states;
use crate::history::model::verdict;
use crate::history::model::Contents;
use crate::history::model::SearchResult;
use crate::history::model::SequencedView;
use crate::history::HistoryOperationView;
use crate::history::MAX_CHECKED_OPERATIONS;
use crate::history::model::ViolationView;
use vstd::prelude::*;
use vstd::seq_lib::group_to_multiset_ensures;

verus! {

/// The operations at the given positions.
spec fn chosen(operations: Seq<SequencedView>, remaining: Seq<usize>) -> Seq<SequencedView> {
    Seq::new(remaining.len(), |i: int| operations[remaining[i] as int])
}

/// None of the states leads to a legal order.
spec fn all_hopeless(
    operations: Seq<SequencedView>,
    rejected: Set<(Seq<usize>, Contents)>,
) -> bool {
    forall|remaining: Seq<usize>, contents: Contents|
        rejected.contains((remaining, contents)) ==> !#[trigger] has_legal_order(
            chosen(operations, remaining),
            contents,
        )
}

/// No legal order starts with the operation at `position`.
spec fn is_dead_end(
    operations: Seq<SequencedView>,
    remaining: Seq<usize>,
    contents: Contents,
    position: int,
) -> bool {
    ||| has_predecessor(operations, remaining, position)
    ||| match step(operations[remaining[position] as int].operation, contents) {
        None => true,
        Some(next) => !has_legal_order(chosen(operations, remaining.remove(position)), next),
    }
}

spec fn distinct(remaining: Seq<usize>) -> bool {
    forall|i: int, j: int|
        0 <= i < j < remaining.len() ==> #[trigger] remaining[i] != #[trigger] remaining[j]
}

/// Taking out one element takes it out of the multiset.
proof fn lemma_insert_multiset<A>(entries: Seq<A>, place: int, entry: A)
    requires
        0 <= place <= entries.len(),
    ensures
        entries.insert(place, entry).to_multiset() == entries.to_multiset().insert(entry),
{
    broadcast use group_to_multiset_ensures;

    let longer = entries.insert(place, entry);
    assert(longer.remove(place) =~= entries);
    assert(longer[place] == entry);
    assert(longer.contains(entry));
    assert(longer.to_multiset().count(entry) > 0);
    assert(longer.to_multiset() =~= entries.to_multiset().insert(entry));
}

/// A legal order of the rest, behind an operation that may go first, is legal.
proof fn lemma_order_extends(
    operations: Seq<SequencedView>,
    remaining: Seq<usize>,
    contents: Contents,
    position: int,
)
    requires
        0 <= position < remaining.len(),
        distinct(remaining),
        !is_dead_end(operations, remaining, contents, position),
    ensures
        has_legal_order(chosen(operations, remaining), contents),
{
    broadcast use group_to_multiset_ensures;

    let first = operations[remaining[position] as int];
    let next = step(first.operation, contents)->0;
    let rest = remaining.remove(position);
    let others = chosen(operations, rest);
    let tail = choose|order: Seq<SequencedView>| is_legal_order(order, others, next);
    let order = tail.insert(0, first);
    assert(order.skip(1) =~= tail);
    assert(chosen(operations, remaining) =~= others.insert(position, first));
    lemma_insert_multiset(others, position, first);
    lemma_insert_multiset(tail, 0, first);
    assert forall|i: int, j: int| 0 <= i < j < order.len() implies !must_precede(
        #[trigger] order[j],
        #[trigger] order[i],
    ) by {
        assert(order[j] == tail[j - 1]);
        if i == 0 {
            assert(tail.contains(tail[j - 1]));
            assert(tail.to_multiset().count(tail[j - 1]) > 0);
            assert(others.contains(tail[j - 1]));
            let k = choose|k: int| 0 <= k < others.len() && others[k] == tail[j - 1];
            let other = if k < position {
                k
            } else {
                k + 1
            };
            assert(remaining[other] == rest[k]);
            assert(remaining[other] != remaining[position]);
        } else {
            assert(order[i] == tail[i - 1]);
        }
    }
    assert(replays(order, contents));
    assert(is_legal_order(order, chosen(operations, remaining), contents));
}

/// A legal order starts with an operation that is no dead end.
proof fn lemma_order_starts(
    operations: Seq<SequencedView>,
    remaining: Seq<usize>,
    contents: Contents,
)
    requires
        remaining.len() > 0,
        has_legal_order(chosen(operations, remaining), contents),
    ensures
        exists|position: int|
            0 <= position < remaining.len() && !#[trigger] is_dead_end(
                operations,
                remaining,
                contents,
                position,
            ),
{
    broadcast use group_to_multiset_ensures;

    let all = chosen(operations, remaining);
    let order = choose|order: Seq<SequencedView>| is_legal_order(order, all, contents);
    assert(order.len() == order.to_multiset().len());
    assert(all.len() == all.to_multiset().len());
    assert(order.contains(order[0]));
    assert(order.to_multiset().count(order[0]) > 0);
    assert(all.contains(order[0]));
    let position = choose|k: int| 0 <= k < all.len() && all[k] == order[0];
    let rest = remaining.remove(position);
    let others = chosen(operations, rest);
    let tail = order.skip(1);
    let next = step(order[0].operation, contents)->0;
    assert(all.remove(position) =~= others);
    assert(order.remove(0) =~= tail);
    assert(tail.to_multiset() =~= others.to_multiset());
    assert(respects_real_time(tail)) by {
        assert forall|i: int, j: int| 0 <= i < j < tail.len() implies !must_precede(
            #[trigger] tail[j],
            #[trigger] tail[i],
        ) by {
            assert(tail[i] == order[i + 1]);
            assert(tail[j] == order[j + 1]);
        }
    }
    assert(is_legal_order(tail, others, next));
    assert(!has_predecessor(operations, remaining, position)) by {
        if has_predecessor(operations, remaining, position) {
            let other = choose|other: int|
                {
                    &&& 0 <= other < remaining.len()
                    &&& #[trigger] remaining[other] != remaining[position]
                    &&& must_precede(
                        operations[remaining[other] as int],
                        operations[remaining[position] as int],
                    )
                };
            let k = if other < position {
                other
            } else {
                other - 1
            };
            let earlier = operations[remaining[other] as int];
            assert(rest[k] == remaining[other]);
            assert(others[k] == earlier);
            assert(others.contains(earlier));
            assert(others.to_multiset().count(earlier) > 0);
            assert(tail.contains(earlier));
            let j = choose|j: int| 0 <= j < tail.len() && tail[j] == earlier;
            assert(order[j + 1] == earlier);
            assert(!must_precede(order[j + 1], order[0]));
        }
    }
    assert(!is_dead_end(operations, remaining, contents, position));
}

/// The search finds what there is, and what it rejects leads nowhere.
proof fn lemma_search(
    operations: Seq<SequencedView>,
    remaining: Seq<usize>,
    contents: Contents,
    rejected: Set<(Seq<usize>, Contents)>,
    explored: nat,
)
    requires
        distinct(remaining),
        all_hopeless(operations, rejected),
    ensures
        ({
            let outcome = search(operations, remaining, contents, rejected, explored);
            let possible = has_legal_order(chosen(operations, remaining), contents);
            &&& all_hopeless(operations, outcome.rejected)
            &&& outcome.result == SearchResult::Linearizable ==> possible
            &&& outcome.result == SearchResult::NotLinearizable ==> !possible
        }),
    decreases remaining.len(), remaining.len() + 1,
{
    if remaining.len() == 0 {
        let nothing = chosen(operations, remaining);
        assert(is_legal_order(nothing, nothing, contents));
    } else if !rejected.contains((remaining, contents)) && explored
        != MAX_SEARCH_STATES {
        lemma_search_from(operations, remaining, contents, rejected, explored + 1, 0);
    }
}

proof fn lemma_search_from(
    operations: Seq<SequencedView>,
    remaining: Seq<usize>,
    contents: Contents,
    rejected: Set<(Seq<usize>, Contents)>,
    explored: nat,
    position: nat,
)
    requires
        remaining.len() > 0,
        position <= remaining.len(),
        distinct(remaining),
        all_hopeless(operations, rejected),
        forall|earlier: int|
            0 <= earlier < position ==> #[trigger] is_dead_end(
                operations,
                remaining,
                contents,
                earlier,
            ),
    ensures
        ({
            let outcome = search_from(
                operations,
                remaining,
                contents,
                rejected,
                explored,
                position,
            );
            let possible = has_legal_order(chosen(operations, remaining), contents);
            &&& all_hopeless(operations, outcome.rejected)
            &&& outcome.result == SearchResult::Linearizable ==> possible
            &&& outcome.result == SearchResult::NotLinearizable ==> !possible
        }),
    decreases remaining.len(), remaining.len() - position,
{
    if position >= remaining.len() {
        if has_legal_order(chosen(operations, remaining), contents) {
            lemma_order_starts(operations, remaining, contents);
        }
    } else {
        let at = position as int;
        let next = step(operations[remaining[at] as int].operation, contents);
        if has_predecessor(operations, remaining, at) || next is None {
            assert(is_dead_end(operations, remaining, contents, at));
            lemma_search_from(
                operations,
                remaining,
                contents,
                rejected,
                explored,
                position + 1,
            );
        } else {
            let rest = remaining.remove(at);
            assert(distinct(rest)) by {
                assert forall|i: int, j: int| 0 <= i < j < rest.len() implies #[trigger] rest[i]
                    != #[trigger] rest[j] by {
                    let a = if i < at {
                        i
                    } else {
                        i + 1
                    };
                    let b = if j < at {
                        j
                    } else {
                        j + 1
                    };
                    assert(remaining[a] != remaining[b]);
                }
            }
            lemma_search(operations, rest, next->0, rejected, explored);
            let deeper = search(operations, rest, next->0, rejected, explored);
            if deeper.result == SearchResult::NotLinearizable {
                assert(is_dead_end(operations, remaining, contents, at));
                lemma_search_from(
                    operations,
                    remaining,
                    contents,
                    deeper.rejected,
                    deeper.explored,
                    position + 1,
                );
            } else if deeper.result == SearchResult::Linearizable {
                lemma_order_extends(operations, remaining, contents, at);
            }
        }
    }
}

/// A search over all the operations finds a legal order only where there is one,
/// and denies one only where there is none.
proof fn lemma_search_all(operations: Seq<SequencedView>)
    requires
        operations.len() <= usize::MAX,
    ensures
        search_all(operations) == SearchResult::Linearizable ==> has_legal_order(
            operations,
            Map::empty(),
        ),
        search_all(operations) == SearchResult::NotLinearizable ==> !has_legal_order(
            operations,
            Map::empty(),
        ),
{
    let remaining = positions(operations.len());
    assert(chosen(operations, remaining) =~= operations);
    lemma_search(operations, remaining, Map::empty(), Set::empty(), 0);
}

/// Sorting keeps the operations.
proof fn lemma_sorted_keeps(entries: Seq<SequencedView>)
    ensures
        sorted(entries).to_multiset() == entries.to_multiset(),
        sorted(entries).len() == entries.len(),
    decreases entries.len(),
{
    broadcast use group_to_multiset_ensures;

    if entries.len() > 0 {
        let earlier = entries.drop_last();
        let rest = sorted(earlier);
        lemma_sorted_keeps(earlier);
        lemma_place(rest, entries.last());
        lemma_insert_multiset(
            rest,
            place_of(rest, entries.last()) as int,
            entries.last(),
        );
        assert(earlier.push(entries.last()) =~= entries);
    }
}

proof fn lemma_place(entries: Seq<SequencedView>, entry: SequencedView)
    ensures
        place_of(entries, entry) <= entries.len(),
        forall|i: int|
            0 <= i < place_of(entries, entry) ==> sorts_before(#[trigger] entries[i], entry),
        place_of(entries, entry) < entries.len() ==> !sorts_before(
            entries[place_of(entries, entry) as int],
            entry,
        ),
    decreases entries.len(),
{
    if entries.len() > 0 && sorts_before(entries[0], entry) {
        lemma_place(entries.skip(1), entry);
        assert forall|i: int| 0 <= i < place_of(entries, entry) implies sorts_before(
            #[trigger] entries[i],
            entry,
        ) by {
            if i > 0 {
                assert(entries[i] == entries.skip(1)[i - 1]);
            }
        }
    }
}

/// The search looks at operations in the order of their calls, then of their
/// replies, then of recording.
pub proof fn law_search_order(entries: Seq<SequencedView>)
    ensures
        sorted(entries).to_multiset() == entries.to_multiset(),
        forall|i: int, j: int|
            0 <= i < j < sorted(entries).len() ==> !sorts_before(
                #[trigger] sorted(entries)[j],
                #[trigger] sorted(entries)[i],
            ),
    decreases entries.len(),
{
    lemma_sorted_keeps(entries);
    if entries.len() > 0 {
        let rest = sorted(entries.drop_last());
        let entry = entries.last();
        let place = place_of(rest, entry) as int;
        law_search_order(entries.drop_last());
        lemma_place(rest, entry);
        let all = rest.insert(place, entry);
        assert forall|i: int, j: int| 0 <= i < j < all.len() implies !sorts_before(
            #[trigger] all[j],
            #[trigger] all[i],
        ) by {
            let a = if i < place {
                i
            } else {
                i - 1
            };
            let b = if j < place {
                j
            } else {
                j - 1
            };
            if i != place && j != place {
                assert(all[i] == rest[a] && all[j] == rest[b]);
            } else if j == place {
                assert(all[i] == rest[i]);
            } else {
                assert(all[j] == rest[b]);
                if b > place {
                    assert(!sorts_before(rest[b], rest[place]));
                }
            }
        }
    }
}

proof fn lemma_same_orders(left: Seq<SequencedView>, right: Seq<SequencedView>)
    requires
        left.to_multiset() == right.to_multiset(),
        has_legal_order(left, Map::empty()),
    ensures
        has_legal_order(right, Map::empty()),
{
    let order = choose|order: Seq<SequencedView>| is_legal_order(order, left, Map::empty());
    assert(is_legal_order(order, right, Map::empty()));
}

/// Minimizing keeps the failure, and drops operations without reordering them.
proof fn lemma_minimized(operations: Seq<SequencedView>, index: nat)
    requires
        search_all(operations) == SearchResult::NotLinearizable,
    ensures
        search_all(minimized(operations, index)) == SearchResult::NotLinearizable,
        minimized(operations, index).len() <= operations.len(),
        forall|entry: SequencedView|
            minimized(operations, index).contains(entry) ==> operations.contains(entry),
    decreases operations.len() - index,
{
    if index < operations.len() {
        let candidate = operations.remove(index as int);
        if search_all(candidate) == SearchResult::NotLinearizable {
            lemma_minimized(candidate, index);
            assert forall|entry: SequencedView|
                minimized(operations, index).contains(entry) implies operations.contains(entry) by {
                assert(candidate.contains(entry));
                let k = choose|k: int| 0 <= k < candidate.len() && candidate[k] == entry;
                assert(operations[if k < index {
                    k
                } else {
                    k + 1
                }] == entry);
            }
        } else {
            lemma_minimized(operations, index + 1);
        }
    }
}

/// A history that passes is linearizable.
pub proof fn law_passing_history_is_linearizable(history: Seq<HistoryOperationView>)
    requires
        verdict(history) is Ok,
    ensures
        is_linearizable(history),
{
    let checked = checked_operations(history);
    lemma_sorted_keeps(checked);
    lemma_search_all(sorted(checked));
    lemma_same_orders(sorted(checked), checked);
}

/// A linearizable history is never said to have no legal order: it passes unless
/// one of the two limits is exceeded.
pub proof fn law_linearizable_history_passes(history: Seq<HistoryOperationView>)
    requires
        is_linearizable(history),
    ensures
        match verdict(history) {
            Ok(()) => true,
            Err(violation) => {
                ||| {
                    &&& violation.reason == too_many_operations()
                    &&& checked_operations(history).len() > MAX_CHECKED_OPERATIONS
                }
                ||| {
                    &&& violation.reason == too_many_states()
                    &&& search_all(sorted(checked_operations(history)))
                        == SearchResult::LimitExceeded
                }
            },
        },
{
    let checked = checked_operations(history);
    lemma_sorted_keeps(checked);
    if checked.len() <= MAX_CHECKED_OPERATIONS {
        lemma_search_all(sorted(checked));
        lemma_same_orders(checked, sorted(checked));
    }
}

/// Where the checker denies a legal order, the history has none, and neither has
/// the counterexample, which holds operations of the history only.
pub proof fn law_counterexample_is_real(history: Seq<HistoryOperationView>)
    requires
        checked_operations(history).len() <= MAX_CHECKED_OPERATIONS,
        search_all(sorted(checked_operations(history))) == SearchResult::NotLinearizable,
    ensures
        !is_linearizable(history),
        ({
            let kept = minimized(sorted(checked_operations(history)), 0);
            &&& verdict(history) == Err::<(), _>(
                (ViolationView {
                    counterexample: operations_of(kept),
                    reason: no_legal_order(),
                }),
            )
            &&& !has_legal_order(kept, Map::empty())
            &&& forall|entry: SequencedView|
                kept.contains(entry) ==> checked_operations(history).contains(entry)
        }),
{
    broadcast use group_to_multiset_ensures;

    let checked = checked_operations(history);
    let operations = sorted(checked);
    let kept = minimized(operations, 0);
    lemma_sorted_keeps(checked);
    lemma_search_all(operations);
    lemma_minimized(operations, 0);
    lemma_search_all(kept);
    if has_legal_order(checked, Map::empty()) {
        lemma_same_orders(checked, operations);
    }
    assert forall|entry: SequencedView| kept.contains(entry) implies checked.contains(entry) by {
        assert(operations.contains(entry));
        assert(operations.to_multiset().count(entry) > 0);
    }
}

/// The reason alone tells that the search denied a legal order: the three reasons
/// differ.
pub proof fn law_reasons_differ()
    ensures
        no_legal_order() != too_many_states(),
        no_legal_order() != too_many_operations(),
        too_many_states() != too_many_operations(),
{
    reveal_strlit("history exceeds the deterministic checker limit of 64 successful operations");
    reveal_strlit("linearizability search exceeded the deterministic limit of 100000 states");
    reveal_strlit("no legal sequential order matches the successful operations");
    assert(no_legal_order()[0] == 'n');
    assert(too_many_states()[0] == 'l');
    assert(too_many_operations()[0] == 'h');
}

proof fn lemma_checked_ignores(
    history: Seq<HistoryOperationView>,
    index: int,
    other: HistoryOperationView,
)
    requires
        0 <= index < history.len(),
        !is_checked(history[index]),
        !is_checked(other),
    ensures
        checked_operations(history.update(index, other)) == checked_operations(history),
    decreases history.len(),
{
    let changed = history.update(index, other);
    if index == history.len() - 1 {
        assert(changed.drop_last() =~= history.drop_last());
    } else {
        lemma_checked_ignores(history.drop_last(), index, other);
        assert(changed.drop_last() =~= history.drop_last().update(index, other));
    }
}

/// Local reads and failed operations do not count: whatever they hold, the
/// verdict is the same.
pub proof fn law_unchecked_operations_do_not_count(
    history: Seq<HistoryOperationView>,
    index: int,
    other: HistoryOperationView,
)
    requires
        0 <= index < history.len(),
        !is_checked(history[index]),
        !is_checked(other),
    ensures
        verdict(history.update(index, other)) == verdict(history),
{
    lemma_checked_ignores(history, index, other);
}

} // verus!
