//! What the checker's verdict says of the records themselves, and when it gives one.
use crate::decimal::decimal;
use crate::decimal::law_decimal_stands_for_its_number;
use crate::decimal::number_of;
use crate::history::laws::law_counterexample_is_real;
use crate::history::laws::law_passing_history_is_linearizable;
use crate::history::laws::law_reasons_differ;
use crate::history::laws::law_search_order;
use crate::history::model::checked_operations;
use crate::history::model::has_legal_order;
use crate::history::model::has_predecessor;
use crate::history::model::is_checked;
use crate::history::model::is_legal_order;
use crate::history::model::is_linearizable;
use crate::history::model::minimized;
use crate::history::model::must_precede;
use crate::history::model::no_legal_order;
use crate::history::model::operations_of;
use crate::history::model::positions;
use crate::history::model::replays;
use crate::history::model::search;
use crate::history::model::search_all;
use crate::history::model::search_from;
use crate::history::model::sorted;
use crate::history::model::sorts_before;
use crate::history::model::step;
use crate::history::model::too_many_operations;
use crate::history::model::too_many_states;
use crate::history::model::verdict;
use crate::history::model::Contents;
use crate::history::model::SearchResult;
use crate::history::model::SequencedView;
use crate::history::model::ViolationView;
use crate::history::HistoryOperationView;
use crate::types::ClientRequestView;
use vstd::prelude::*;
use vstd::seq_lib::group_to_multiset_ensures;

verus! {

/// The record takes part: it was answered with success and is no local read.
pub open spec fn takes_part(record: HistoryOperationView) -> bool {
    record.response.success && !(record.request is LocalGet)
}

/// One record was answered before the other was asked, or at that very moment and was
/// recorded before it.
pub open spec fn was_over_before(
    history: Seq<HistoryOperationView>,
    one: int,
    other: int,
) -> bool {
    ||| history[one].completed_at < history[other].invoked_at
    ||| history[one].completed_at == history[other].invoked_at && one < other
}

/// What the first `count` records of the order leave at a key: what the last of them that
/// writes the key put there, and nothing if that deleted it or there is none.
pub open spec fn value_after(
    history: Seq<HistoryOperationView>,
    order: Seq<int>,
    count: int,
    key: Seq<char>,
) -> Option<Seq<char>>
    decreases count,
{
    if count <= 0 {
        None
    } else {
        match history[order[count - 1]].request {
            ClientRequestView::Put { key: other, value } if other == key => Some(value),
            ClientRequestView::Delete { key: other } if other == key => None,
            _ => value_after(history, order, count - 1, key),
        }
    }
}

/// The read at a place of the order was answered with what the records before it left.
pub open spec fn is_answered_rightly(
    history: Seq<HistoryOperationView>,
    order: Seq<int>,
    place: int,
) -> bool {
    let record = history[order[place]];
    match record.request {
        ClientRequestView::Get { key } => record.response.response == value_after(
            history,
            order,
            place,
            key,
        ),
        _ => true,
    }
}

/// One order of all the records that take part explains their answers: no record stands
/// behind one that it was over before, and every read was answered with what the records
/// before it left at its key.
pub open spec fn explains(history: Seq<HistoryOperationView>, order: Seq<int>) -> bool {
    &&& order.no_duplicates()
    &&& forall|i: int| #[trigger]
        order.contains(i) <==> 0 <= i < history.len() && takes_part(history[i])
    &&& forall|a: int, b: int|
        0 <= a < b < order.len() ==> !was_over_before(
            history,
            #[trigger] order[b],
            #[trigger] order[a],
        )
    &&& forall|place: int|
        0 <= place < order.len() ==> #[trigger] is_answered_rightly(history, order, place)
}

/// The records at the places of an order.
spec fn in_order(history: Seq<HistoryOperationView>, order: Seq<int>) -> Seq<SequencedView> {
    Seq::new(
        order.len(),
        |i: int| SequencedView { sequence: order[i] as usize, operation: history[order[i]] },
    )
}

/// The contents after the first `count` operations.
spec fn contents_after(order: Seq<SequencedView>, count: int) -> Contents
    decreases count,
{
    if count <= 0 {
        Map::empty()
    } else {
        let before = contents_after(order, count - 1);
        match order[count - 1].operation.request {
            ClientRequestView::Put { key, value } => before.insert(key, value),
            ClientRequestView::Delete { key } => before.remove(key),
            _ => before,
        }
    }
}

proof fn lemma_contents_are_values(
    history: Seq<HistoryOperationView>,
    order: Seq<int>,
    count: int,
    key: Seq<char>,
)
    requires
        count <= order.len(),
    ensures
        ({
            let contents = contents_after(in_order(history, order), count);
            value_after(history, order, count, key) == (if contents.contains_key(key) {
                Some(contents[key])
            } else {
                None
            })
        }),
    decreases count,
{
    if count > 0 {
        lemma_contents_are_values(history, order, count - 1, key);
    }
}

/// What replays, replays from every place on.
proof fn lemma_replays_on(order: Seq<SequencedView>, count: int)
    requires
        0 <= count <= order.len(),
        replays(order, Map::empty()),
    ensures
        replays(order.skip(count), contents_after(order, count)),
    decreases count,
{
    if count == 0 {
        assert(order.skip(0) =~= order);
    } else {
        lemma_replays_on(order, count - 1);
        assert(order.skip(count - 1).skip(1) =~= order.skip(count));
        assert(order.skip(count - 1)[0] == order[count - 1]);
    }
}

proof fn lemma_replays_from(history: Seq<HistoryOperationView>, order: Seq<int>, count: int)
    requires
        0 <= count <= order.len(),
        explains(history, order),
    ensures
        replays(
            in_order(history, order).skip(count),
            contents_after(in_order(history, order), count),
        ),
    decreases order.len() - count,
{
    if count < order.len() {
        let all = in_order(history, order);
        lemma_replays_from(history, order, count + 1);
        assert(all.skip(count).skip(1) =~= all.skip(count + 1));
        assert(all.skip(count)[0] == all[count]);
        assert(is_answered_rightly(history, order, count));
        assert(order.contains(order[count]));
        if let ClientRequestView::Get { key } = history[order[count]].request {
            lemma_contents_are_values(history, order, count, key);
        }
    }
}

/// The checked operations are the records that take part, each with its place, in the
/// order of recording.
proof fn lemma_checked(history: Seq<HistoryOperationView>)
    requires
        history.len() <= usize::MAX,
    ensures
        ({
            let checked = checked_operations(history);
            &&& checked.no_duplicates()
            &&& checked.len() == history.filter(|record| takes_part(record)).len()
            &&& forall|entry: SequencedView| #[trigger]
                checked.contains(entry) <==> {
                    &&& 0 <= entry.sequence < history.len()
                    &&& entry.operation == history[entry.sequence as int]
                    &&& takes_part(entry.operation)
                }
        }),
    decreases history.len(),
{
    let checked = checked_operations(history);
    reveal(Seq::filter);
    if history.len() > 0 {
        let shorter = history.drop_last();
        let earlier = checked_operations(shorter);
        lemma_checked(shorter);
        assert(is_checked(history.last()) == takes_part(history.last()));
        let newest = SequencedView {
            sequence: (history.len() - 1) as usize,
            operation: history.last(),
        };
        assert(!earlier.contains(newest));
        assert forall|entry: SequencedView| #[trigger] checked.contains(entry) <==> {
            &&& 0 <= entry.sequence < history.len()
            &&& entry.operation == history[entry.sequence as int]
            &&& takes_part(entry.operation)
        } by {
            if entry.sequence < history.len() - 1 {
                assert(shorter[entry.sequence as int] == history[entry.sequence as int]);
            }
            assert(earlier.contains(entry) <==> {
                &&& 0 <= entry.sequence < shorter.len()
                &&& entry.operation == shorter[entry.sequence as int]
                &&& takes_part(entry.operation)
            });
            if takes_part(history.last()) {
                assert(checked == earlier.push(newest));
                if checked.contains(entry) {
                    let k = choose|k: int| 0 <= k < checked.len() && checked[k] == entry;
                    if k < earlier.len() {
                        assert(earlier[k] == entry);
                    }
                }
                if earlier.contains(entry) {
                    let k = choose|k: int| 0 <= k < earlier.len() && earlier[k] == entry;
                    assert(checked[k] == entry);
                }
                assert(checked[earlier.len() as int] == newest);
            }
        }
        if takes_part(history.last()) {
            assert forall|i: int, j: int|
                0 <= i < checked.len() && 0 <= j < checked.len() && i != j implies checked[i]
                != checked[j] by {
                if i < earlier.len() {
                    assert(earlier.contains(earlier[i]));
                }
                if j < earlier.len() {
                    assert(earlier.contains(earlier[j]));
                }
            }
        }
    }
}

/// Sequences without repetition that hold the same hold it equally often.
proof fn lemma_same_multiset(one: Seq<SequencedView>, other: Seq<SequencedView>)
    requires
        one.no_duplicates(),
        other.no_duplicates(),
        forall|entry: SequencedView| #[trigger] one.contains(entry) <==> other.contains(entry),
    ensures
        one.to_multiset() == other.to_multiset(),
{
    broadcast use group_to_multiset_ensures;

    one.lemma_multiset_has_no_duplicates();
    other.lemma_multiset_has_no_duplicates();
    assert forall|entry: SequencedView| one.to_multiset().count(entry)
        == other.to_multiset().count(entry) by {
        assert(one.contains(entry) <==> one.to_multiset().count(entry) > 0);
        assert(other.contains(entry) <==> other.to_multiset().count(entry) > 0);
        assert(one.contains(entry) <==> other.contains(entry));
    }
    assert(one.to_multiset() =~= other.to_multiset());
}

proof fn lemma_legal_order_explains(
    history: Seq<HistoryOperationView>,
    legal: Seq<SequencedView>,
)
    requires
        history.len() <= usize::MAX,
        is_legal_order(legal, checked_operations(history), Map::empty()),
    ensures
        explains(history, Seq::new(legal.len(), |i: int| legal[i].sequence as int)),
{
    broadcast use group_to_multiset_ensures;

    let checked = checked_operations(history);
    let order = Seq::new(legal.len(), |i: int| legal[i].sequence as int);
    lemma_checked(history);
    checked.lemma_multiset_has_no_duplicates();
    legal.lemma_multiset_has_no_duplicates_conv();
    assert forall|entry: SequencedView| #[trigger] legal.contains(entry) <==> checked.contains(
        entry,
    ) by {
        assert(legal.contains(entry) <==> legal.to_multiset().count(entry) > 0);
        assert(checked.contains(entry) <==> checked.to_multiset().count(entry) > 0);
    }
    assert forall|i: int| 0 <= i < legal.len() implies {
        &&& 0 <= (#[trigger] legal[i]).sequence < history.len()
        &&& legal[i].operation == history[legal[i].sequence as int]
        &&& takes_part(legal[i].operation)
    } by {
        assert(legal.contains(legal[i]));
        assert(checked.contains(legal[i]));
    }
    assert forall|i: int| #[trigger] order.contains(i) <==> 0 <= i < history.len() && takes_part(
        history[i],
    ) by {
        if order.contains(i) {
            let k = choose|k: int| 0 <= k < order.len() && order[k] == i;
            assert(legal[k].sequence == i);
        }
        if 0 <= i < history.len() && takes_part(history[i]) {
            let entry = SequencedView { sequence: i as usize, operation: history[i] };
            assert(checked.contains(entry));
            assert(legal.contains(entry));
            let k = choose|k: int| 0 <= k < legal.len() && legal[k] == entry;
            assert(order[k] == i);
        }
    }
    assert forall|i: int, j: int|
        0 <= i < order.len() && 0 <= j < order.len() && i != j implies order[i] != order[j] by {
        assert(legal[i] != legal[j]);
    }
    assert forall|a: int, b: int| 0 <= a < b < order.len() implies !was_over_before(
        history,
        #[trigger] order[b],
        #[trigger] order[a],
    ) by {
        assert(!must_precede(legal[b], legal[a]));
    }
    assert(in_order(history, order) =~= legal);
    assert forall|place: int| 0 <= place < order.len() implies #[trigger] is_answered_rightly(
        history,
        order,
        place,
    ) by {
        lemma_replays_on(legal, place);
        assert(legal.skip(place)[0] == legal[place]);
        if let ClientRequestView::Get { key } = history[order[place]].request {
            lemma_contents_are_values(history, order, place, key);
        }
    }
}

proof fn lemma_explaining_order_is_legal(history: Seq<HistoryOperationView>, order: Seq<int>)
    requires
        history.len() <= usize::MAX,
        explains(history, order),
    ensures
        is_legal_order(in_order(history, order), checked_operations(history), Map::empty()),
{
    let checked = checked_operations(history);
    let legal = in_order(history, order);
    lemma_checked(history);
    assert forall|i: int| 0 <= i < order.len() implies 0 <= #[trigger] order[i] < history.len()
        && takes_part(history[order[i]]) by {
        assert(order.contains(order[i]));
    }
    assert forall|entry: SequencedView| #[trigger] legal.contains(entry) <==> checked.contains(
        entry,
    ) by {
        if legal.contains(entry) {
            let k = choose|k: int| 0 <= k < legal.len() && legal[k] == entry;
            assert(0 <= order[k] < history.len());
        }
        if checked.contains(entry) {
            assert(order.contains(entry.sequence as int));
            let k = choose|k: int| 0 <= k < order.len() && order[k] == entry.sequence;
            assert(legal[k] == entry);
        }
    }
    assert forall|i: int, j: int|
        0 <= i < legal.len() && 0 <= j < legal.len() && i != j implies legal[i] != legal[j] by {
        assert(order[i] != order[j]);
    }
    lemma_same_multiset(legal, checked);
    assert forall|i: int, j: int| 0 <= i < j < legal.len() implies !must_precede(
        #[trigger] legal[j],
        #[trigger] legal[i],
    ) by {
        assert(!was_over_before(history, order[j], order[i]));
    }
    lemma_replays_from(history, order, 0);
    assert(legal.skip(0) =~= legal);
}

/// A history is linearizable exactly if one order of the records that take part explains
/// all their answers.
pub proof fn law_linearizable_means_explained(history: Seq<HistoryOperationView>)
    requires
        history.len() <= usize::MAX,
    ensures
        is_linearizable(history) <==> exists|order: Seq<int>| #[trigger] explains(history, order),
{
    if is_linearizable(history) {
        let legal = choose|legal: Seq<SequencedView>|
            is_legal_order(legal, checked_operations(history), Map::empty());
        lemma_legal_order_explains(history, legal);
    }
    if exists|order: Seq<int>| #[trigger] explains(history, order) {
        let order = choose|order: Seq<int>| #[trigger] explains(history, order);
        lemma_explaining_order_is_legal(history, order);
        assert(has_legal_order(checked_operations(history), Map::empty()));
    }
}

/// What the verdict says of the records: one that passes is explained by some order of
/// those that take part; one that is said to have no legal order is explained by none; and
/// the checker says that there are too many operations exactly if more than 64 take part.
pub proof fn law_verdict_speaks_of_the_records(history: Seq<HistoryOperationView>)
    requires
        history.len() <= usize::MAX,
    ensures
        verdict(history) is Ok ==> exists|order: Seq<int>| #[trigger] explains(history, order),
        verdict(history) matches Err(violation) ==> {
            let many = history.filter(|record| takes_part(record)).len() > 64;
            &&& violation.reason
                == "no legal sequential order matches the successful operations"@ ==> !exists|
                order: Seq<int>,
            | #[trigger]
                explains(history, order)
            &&& many <==> violation.reason
                == "history exceeds the deterministic checker limit of 64 successful operations"@
            &&& many ==> violation.counterexample.len() == 0
            &&& violation.reason == no_legal_order() || violation.reason == too_many_operations()
                || violation.reason == too_many_states()
        },
        verdict(history) is Ok ==> history.filter(|record| takes_part(record)).len() <= 64,
{
    law_linearizable_means_explained(history);
    law_reasons_differ();
    lemma_checked(history);
    if verdict(history) is Ok {
        law_passing_history_is_linearizable(history);
    } else if verdict(history)->Err_0.reason == no_legal_order() {
        law_counterexample_is_real(history);
    }
}

// ---- when the search gives up ----

/// How many states a search without memory looks at, at most, for so many operations.
pub open spec fn most_states(count: nat) -> nat
    decreases count,
{
    if count == 0 {
        0
    } else {
        1 + count * most_states((count - 1) as nat)
    }
}

proof fn lemma_search_counts(
    operations: Seq<SequencedView>,
    remaining: Seq<usize>,
    contents: Contents,
    rejected: Set<(Seq<usize>, Contents)>,
    explored: nat,
)
    requires
        explored <= 100000,
    ensures
        ({
            let outcome = search(operations, remaining, contents, rejected, explored);
            &&& explored <= outcome.explored <= 100000
            &&& outcome.result == SearchResult::LimitExceeded ==> outcome.explored == 100000
            &&& outcome.explored <= explored + most_states(remaining.len())
            &&& explored + most_states(remaining.len()) <= 100000 ==> outcome.result
                != SearchResult::LimitExceeded
        }),
    decreases remaining.len(), remaining.len() + 1,
{
    if remaining.len() > 0 && !rejected.contains((remaining, contents)) && explored != 100000 {
        lemma_search_from_counts(operations, remaining, contents, rejected, explored + 1, 0);
        assert((remaining.len() - 0) * most_states((remaining.len() - 1) as nat)
            == remaining.len() * most_states((remaining.len() - 1) as nat));
    }
}

proof fn lemma_search_from_counts(
    operations: Seq<SequencedView>,
    remaining: Seq<usize>,
    contents: Contents,
    rejected: Set<(Seq<usize>, Contents)>,
    explored: nat,
    position: nat,
)
    requires
        remaining.len() > 0,
        position <= remaining.len(),
        explored <= 100000,
    ensures
        ({
            let outcome = search_from(
                operations,
                remaining,
                contents,
                rejected,
                explored,
                position,
            );
            let more = (remaining.len() - position) * most_states((remaining.len() - 1) as nat);
            &&& explored <= outcome.explored <= 100000
            &&& outcome.result == SearchResult::LimitExceeded ==> outcome.explored == 100000
            &&& outcome.explored <= explored + more
            &&& explored + more <= 100000 ==> outcome.result != SearchResult::LimitExceeded
        }),
    decreases remaining.len(), remaining.len() - position,
{
    let each = most_states((remaining.len() - 1) as nat);
    if position < remaining.len() {
        let left = remaining.len() - position;
        assert(left * each == each + (left - 1) * each) by (nonlinear_arith);
        assert((left - 1) * each >= 0) by (nonlinear_arith)
            requires
                left >= 1,
                each >= 0,
        ;
        let at = position as int;
        let next = step(operations[remaining[at] as int].operation, contents);
        if has_predecessor(operations, remaining, at) || next is None {
            lemma_search_from_counts(
                operations,
                remaining,
                contents,
                rejected,
                explored,
                position + 1,
            );
        } else {
            let rest = remaining.remove(at);
            lemma_search_counts(operations, rest, next->0, rejected, explored);
            let deeper = search(operations, rest, next->0, rejected, explored);
            if deeper.result == SearchResult::NotLinearizable {
                lemma_search_from_counts(
                    operations,
                    remaining,
                    contents,
                    deeper.rejected,
                    deeper.explored,
                    position + 1,
                );
            }
        }
    } else {
        assert(0 * each == 0) by (nonlinear_arith);
    }
}

/// The search gives up only after a hundred thousand states.
pub proof fn law_search_gives_up_only_at_its_limit(operations: Seq<SequencedView>)
    requires
        search_all(operations) == SearchResult::LimitExceeded,
    ensures
        search(
            operations,
            positions(operations.len()),
            Map::empty(),
            Set::empty(),
            0,
        ).explored == 100000,
{
    lemma_search_counts(
        operations,
        positions(operations.len()),
        Map::empty(),
        Set::empty(),
        0,
    );
}

/// Whatever the records hold, a history of which at most eight take part is decided: it
/// passes if some order explains it, and is said to have no legal order if none does.
pub proof fn law_short_history_is_decided(history: Seq<HistoryOperationView>)
    requires
        history.len() <= usize::MAX,
        history.filter(|record| takes_part(record)).len() <= 8,
    ensures
        verdict(history) is Ok <==> exists|order: Seq<int>| #[trigger] explains(history, order),
        verdict(history) matches Err(violation) ==> violation.reason
            == "no legal sequential order matches the successful operations"@,
{
    let operations = sorted(checked_operations(history));
    lemma_checked(history);
    law_search_order(checked_operations(history));
    lemma_sorted_length(checked_operations(history));
    lemma_search_counts(
        operations,
        positions(operations.len()),
        Map::empty(),
        Set::empty(),
        0,
    );
    assert(most_states(operations.len()) <= 100000) by {
        lemma_most_states(operations.len(), 8);
        reveal_with_fuel(most_states, 2);
        assert(most_states(1) == 1);
        assert(most_states(2) == 3);
        assert(most_states(3) == 10);
        assert(most_states(4) == 41);
        assert(most_states(5) == 206);
        assert(most_states(6) == 1237);
        assert(most_states(7) == 8660);
        assert(most_states(8) == 69281);
    }
    lemma_decided(history);
}

proof fn lemma_sorted_length(entries: Seq<SequencedView>)
    ensures
        sorted(entries).len() == entries.len(),
{
    broadcast use group_to_multiset_ensures;

    law_search_order(entries);
    assert(sorted(entries).to_multiset().len() == sorted(entries).len());
    assert(entries.to_multiset().len() == entries.len());
}

proof fn lemma_most_states(count: nat, more: nat)
    requires
        count <= more,
    ensures
        most_states(count) <= most_states(more),
    decreases more,
{
    if count < more {
        lemma_most_states(count, (more - 1) as nat);
        let fewer = most_states((more - 1) as nat);
        assert(more * fewer >= fewer) by (nonlinear_arith)
            requires
                more >= 1,
                fewer >= 0,
        ;
    }
}

proof fn lemma_decided(history: Seq<HistoryOperationView>)
    requires
        history.len() <= usize::MAX,
        history.filter(|record| takes_part(record)).len() <= 64,
        search_all(sorted(checked_operations(history))) != SearchResult::LimitExceeded,
    ensures
        verdict(history) is Ok <==> exists|order: Seq<int>| #[trigger] explains(history, order),
        verdict(history) matches Err(violation) ==> violation.reason == no_legal_order(),
{
    lemma_checked(history);
    law_linearizable_means_explained(history);
    if verdict(history) is Ok {
        law_passing_history_is_linearizable(history);
    } else {
        law_counterexample_is_real(history);
    }
}

/// The states hold, with each of theirs, every one that one more operation leads to: one
/// that no other remaining operation must precede and whose answer fits.
pub open spec fn is_closed(
    operations: Seq<SequencedView>,
    states: Set<(Seq<usize>, Contents)>,
) -> bool {
    forall|remaining: Seq<usize>, contents: Contents, position: int|
        #![trigger states.contains((remaining, contents)), remaining.remove(position)]
        states.contains((remaining, contents)) && 0 <= position < remaining.len()
            && !has_predecessor(operations, remaining, position) ==> {
            step(operations[remaining[position] as int].operation, contents) matches Some(next)
                ==> states.contains((remaining.remove(position), next))
        }
}

/// All of `some` are among the states and have more operations left than `count`.
spec fn are_longer(
    some: Set<(Seq<usize>, Contents)>,
    states: Set<(Seq<usize>, Contents)>,
    count: nat,
) -> bool {
    &&& some.subset_of(states)
    &&& forall|state: (Seq<usize>, Contents)| #[trigger]
        some.contains(state) ==> state.0.len() > count
}

proof fn lemma_search_distinct(
    operations: Seq<SequencedView>,
    remaining: Seq<usize>,
    contents: Contents,
    rejected: Set<(Seq<usize>, Contents)>,
    explored: nat,
    states: Set<(Seq<usize>, Contents)>,
    open: Set<(Seq<usize>, Contents)>,
)
    requires
        states.finite(),
        states.len() <= 100000,
        is_closed(operations, states),
        states.contains((remaining, contents)),
        rejected.subset_of(states),
        are_longer(open, states, remaining.len()),
        rejected.disjoint(open),
        explored == rejected.len() + open.len(),
    ensures
        ({
            let outcome = search(operations, remaining, contents, rejected, explored);
            &&& outcome.result != SearchResult::LimitExceeded
            &&& outcome.result == SearchResult::NotLinearizable ==> {
                &&& outcome.rejected.subset_of(states)
                &&& outcome.rejected.disjoint(open)
                &&& outcome.explored == outcome.rejected.len() + open.len()
            }
        }),
    decreases remaining.len(), remaining.len() + 1,
{
    let here = (remaining, contents);
    vstd::set_lib::lemma_len_subset(rejected, states);
    vstd::set_lib::lemma_len_subset(open, states);
    if remaining.len() > 0 && !rejected.contains(here) {
        let opened = open.insert(here);
        assert(!open.contains(here));
        vstd::set_lib::lemma_set_disjoint_lens(rejected, opened);
        vstd::set_lib::lemma_len_subset(rejected + opened, states);
        assert(opened.len() == open.len() + 1);
        assert(explored < 100000);
        lemma_search_from_distinct(
            operations,
            remaining,
            contents,
            rejected,
            explored + 1,
            0,
            states,
            open,
        );
    }
}

proof fn lemma_search_from_distinct(
    operations: Seq<SequencedView>,
    remaining: Seq<usize>,
    contents: Contents,
    rejected: Set<(Seq<usize>, Contents)>,
    explored: nat,
    position: nat,
    states: Set<(Seq<usize>, Contents)>,
    open: Set<(Seq<usize>, Contents)>,
)
    requires
        remaining.len() > 0,
        position <= remaining.len(),
        states.finite(),
        states.len() <= 100000,
        is_closed(operations, states),
        states.contains((remaining, contents)),
        rejected.subset_of(states),
        !rejected.contains((remaining, contents)),
        are_longer(open, states, remaining.len()),
        rejected.disjoint(open),
        explored == rejected.len() + open.len() + 1,
    ensures
        ({
            let outcome = search_from(
                operations,
                remaining,
                contents,
                rejected,
                explored,
                position,
            );
            &&& outcome.result != SearchResult::LimitExceeded
            &&& outcome.result == SearchResult::NotLinearizable ==> {
                &&& outcome.rejected.subset_of(states)
                &&& outcome.rejected.disjoint(open)
                &&& outcome.explored == outcome.rejected.len() + open.len()
            }
        }),
    decreases remaining.len(), remaining.len() - position,
{
    let here = (remaining, contents);
    vstd::set_lib::lemma_len_subset(rejected, states);
    vstd::set_lib::lemma_len_subset(open, states);
    assert(!open.contains(here));
    if position < remaining.len() {
        let at = position as int;
        let next = step(operations[remaining[at] as int].operation, contents);
        if has_predecessor(operations, remaining, at) || next is None {
            lemma_search_from_distinct(
                operations,
                remaining,
                contents,
                rejected,
                explored,
                position + 1,
                states,
                open,
            );
        } else {
            let rest = remaining.remove(at);
            let opened = open.insert(here);
            assert(states.contains((rest, next->0)));
            assert(are_longer(opened, states, rest.len()));
            lemma_search_distinct(
                operations,
                rest,
                next->0,
                rejected,
                explored,
                states,
                opened,
            );
            let deeper = search(operations, rest, next->0, rejected, explored);
            if deeper.result == SearchResult::NotLinearizable {
                assert(deeper.rejected.disjoint(open));
                assert(opened.contains(here));
                lemma_search_from_distinct(
                    operations,
                    remaining,
                    contents,
                    deeper.rejected,
                    deeper.explored,
                    position + 1,
                    states,
                    open,
                );
            }
        }
    }
}

/// A history with no more than a hundred thousand states to look at is decided, however
/// many ways lead to them: it passes if some order of the records explains it, and is said
/// to have no legal order if none does. A state is what remains to be ordered together
/// with the contents then; `states` holds the first and all that follow from it.
pub proof fn law_history_of_few_states_is_decided(
    history: Seq<HistoryOperationView>,
    states: Set<(Seq<usize>, Contents)>,
)
    requires
        history.len() <= usize::MAX,
        history.filter(|record| takes_part(record)).len() <= 64,
        states.finite(),
        states.len() <= 100000,
        is_closed(sorted(checked_operations(history)), states),
        states.contains(
            (positions(sorted(checked_operations(history)).len()), Map::empty()),
        ),
    ensures
        verdict(history) is Ok <==> exists|order: Seq<int>| #[trigger] explains(history, order),
        verdict(history) matches Err(violation) ==> violation.reason
            == "no legal sequential order matches the successful operations"@,
{
    let operations = sorted(checked_operations(history));
    lemma_search_distinct(
        operations,
        positions(operations.len()),
        Map::empty(),
        Set::empty(),
        0,
        states,
        Set::empty(),
    );
    lemma_decided(history);
}

// ---- counterexamples ----

proof fn lemma_minimized_is_needed(operations: Seq<SequencedView>, index: nat)
    requires
        index <= operations.len(),
    ensures
        ({
            let kept = minimized(operations, index);
            &&& index <= kept.len()
            &&& kept.take(index as int) == operations.take(index as int)
            &&& forall|p: int|
                index <= p < kept.len() ==> #[trigger] is_needed(operations, kept, p)
        }),
    decreases operations.len() - index,
{
    let kept = minimized(operations, index);
    let at = index as int;
    if index < operations.len() {
        let candidate = operations.remove(at);
        if search_all(candidate) == SearchResult::NotLinearizable {
            lemma_minimized_is_needed(candidate, index);
            assert(candidate.take(at) =~= operations.take(at));
            assert forall|p: int| at <= p < kept.len() implies #[trigger] is_needed(
                operations,
                kept,
                p,
            ) by {
                assert(is_needed(candidate, kept, p));
                let q = choose|q: int| #[trigger] is_needed_at(candidate, kept, p, q);
                assert(candidate.skip(q + 1) =~= operations.skip(q + 2));
                assert(is_needed_at(operations, kept, p, q + 1));
            }
        } else {
            lemma_minimized_is_needed(operations, index + 1);
            assert(kept.take(at) =~= kept.take(at + 1).take(at));
            assert(operations.take(at) =~= operations.take(at + 1).take(at));
            assert(kept.take(at + 1)[at] == operations.take(at + 1)[at]);
            assert(kept.take(at) + operations.skip(at + 1) =~= candidate);
            assert(is_needed_at(operations, kept, at, at));
            assert forall|p: int| at <= p < kept.len() implies #[trigger] is_needed(
                operations,
                kept,
                p,
            ) by {
                if p > at {
                    assert(is_needed(operations, kept, p));
                }
            }
        }
    } else {
        assert(kept.take(at) =~= operations.take(at));
    }
}

/// The kept operation at `p` is that at `q`; and what is kept before it, with all that
/// follows it, would not be said to have no legal order.
pub open spec fn is_needed_at(
    operations: Seq<SequencedView>,
    kept: Seq<SequencedView>,
    p: int,
    q: int,
) -> bool {
    &&& p <= q < operations.len()
    &&& kept[p] == operations[q]
    &&& search_all(kept.take(p) + operations.skip(q + 1)) != SearchResult::NotLinearizable
}

pub open spec fn is_needed(
    operations: Seq<SequencedView>,
    kept: Seq<SequencedView>,
    p: int,
) -> bool {
    exists|q: int| #[trigger] is_needed_at(operations, kept, p, q)
}

/// A counterexample is minimized: of the operations, taken in the order of the search,
/// none is kept that could have been left out when it was its turn, with what was kept
/// before it and all that follows it.
pub proof fn law_counterexample_is_minimized(history: Seq<HistoryOperationView>)
    requires
        verdict(history) matches Err(violation) && violation.reason == no_legal_order(),
    ensures
        ({
            let operations = sorted(checked_operations(history));
            exists|kept: Seq<SequencedView>|
                {
                    &&& verdict(history)->Err_0.counterexample == #[trigger] operations_of(kept)
                    &&& search_all(kept) == SearchResult::NotLinearizable
                    &&& forall|p: int|
                        0 <= p < kept.len() ==> #[trigger] is_needed(operations, kept, p)
                }
        }),
{
    let operations = sorted(checked_operations(history));
    law_reasons_differ();
    lemma_minimized_is_needed(operations, 0);
    lemma_minimized_fails(operations, 0);
    let kept = minimized(operations, 0);
    assert(verdict(history)->Err_0.counterexample == operations_of(kept));
}

/// The records stand in the order in which they were asked, and those that were asked at
/// one time in the order in which they were answered.
pub open spec fn is_in_call_order(records: Seq<HistoryOperationView>) -> bool {
    forall|i: int, j: int|
        0 <= i < j < records.len() ==> {
            &&& (#[trigger] records[i]).invoked_at <= (#[trigger] records[j]).invoked_at
            &&& records[i].invoked_at == records[j].invoked_at ==> records[i].completed_at
                <= records[j].completed_at
        }
}

proof fn lemma_minimized_stays_in_order(operations: Seq<SequencedView>, index: nat)
    requires
        is_in_call_order(operations_of(operations)),
    ensures
        is_in_call_order(operations_of(minimized(operations, index))),
    decreases operations.len() - index,
{
    if index < operations.len() {
        let candidate = operations.remove(index as int);
        if search_all(candidate) == SearchResult::NotLinearizable {
            let all = operations_of(operations);
            let fewer = operations_of(candidate);
            assert forall|i: int, j: int| 0 <= i < j < fewer.len() implies {
                &&& (#[trigger] fewer[i]).invoked_at <= (#[trigger] fewer[j]).invoked_at
                &&& fewer[i].invoked_at == fewer[j].invoked_at ==> fewer[i].completed_at
                    <= fewer[j].completed_at
            } by {
                let a = if i < index {
                    i
                } else {
                    i + 1
                };
                let b = if j < index {
                    j
                } else {
                    j + 1
                };
                assert(fewer[i] == all[a] && fewer[j] == all[b]);
            }
            lemma_minimized_stays_in_order(candidate, index);
        } else {
            lemma_minimized_stays_in_order(operations, index + 1);
        }
    }
}

/// A counterexample stands in the order of the calls; where the search gave up it holds
/// every record that takes part.
pub proof fn law_counterexample_is_in_call_order(history: Seq<HistoryOperationView>)
    requires
        history.len() <= usize::MAX,
    ensures
        verdict(history) matches Err(violation) ==> {
            &&& is_in_call_order(violation.counterexample)
            &&& violation.reason
                == "linearizability search exceeded the deterministic limit of 100000 states"@
                ==> violation.counterexample.len() == history.filter(
                |record| takes_part(record),
            ).len()
        },
{
    let checked = checked_operations(history);
    let operations = sorted(checked);
    law_reasons_differ();
    lemma_checked(history);
    law_search_order(checked);
    lemma_sorted_length(checked);
    assert(is_in_call_order(operations_of(operations))) by {
        let all = operations_of(operations);
        assert forall|i: int, j: int| 0 <= i < j < all.len() implies {
            &&& (#[trigger] all[i]).invoked_at <= (#[trigger] all[j]).invoked_at
            &&& all[i].invoked_at == all[j].invoked_at ==> all[i].completed_at
                <= all[j].completed_at
        } by {
            assert(!sorts_before(operations[j], operations[i]));
        }
    }
    lemma_minimized_stays_in_order(operations, 0);
}

proof fn lemma_minimized_fails(operations: Seq<SequencedView>, index: nat)
    requires
        search_all(operations) == SearchResult::NotLinearizable,
    ensures
        search_all(minimized(operations, index)) == SearchResult::NotLinearizable,
    decreases operations.len() - index,
{
    if index < operations.len() {
        let candidate = operations.remove(index as int);
        if search_all(candidate) == SearchResult::NotLinearizable {
            lemma_minimized_fails(candidate, index);
        } else {
            lemma_minimized_fails(operations, index + 1);
        }
    }
}

/// A violation is described by its reason and by how many operations its counterexample
/// holds.
pub proof fn law_description_counts_the_operations(violation: ViolationView)
    ensures
        ({
            let text = violation.description();
            let reason = violation.reason;
            exists|digits: Seq<char>| #[trigger]
                number_of(digits) == violation.counterexample.len() && text == reason + seq![
                    ' ',
                    '(',
                ] + digits + seq![
                    ' ', 'o', 'p', 'e', 'r', 'a', 't', 'i', 'o', 'n', 's', ')',
                ]
        }),
{
    reveal_strlit(" (");
    reveal_strlit(" operations)");
    let digits = decimal(violation.counterexample.len());
    law_decimal_stands_for_its_number(violation.counterexample.len());
    assert(" ("@ =~= seq![' ', '(']);
    assert(" operations)"@ =~= seq![' ', 'o', 'p', 'e', 'r', 'a', 't', 'i', 'o', 'n', 's', ')']);
    assert(number_of(digits) == violation.counterexample.len());
}

/// The search looks at the records that take part in the order in which they were asked;
/// those asked at one time in the order in which they were answered; and those answered at
/// one time too in the order of recording.
pub proof fn law_search_follows_the_records(history: Seq<HistoryOperationView>)
    requires
        history.len() <= usize::MAX,
    ensures
        ({
            let operations = sorted(checked_operations(history));
            forall|i: int, j: int|
                0 <= i < j < operations.len() ==> is_looked_at_before(
                    #[trigger] operations[i],
                    #[trigger] operations[j],
                )
        }),
{
    broadcast use group_to_multiset_ensures;

    let checked = checked_operations(history);
    let operations = sorted(checked);
    lemma_checked(history);
    law_search_order(checked);
    checked.lemma_multiset_has_no_duplicates();
    operations.lemma_multiset_has_no_duplicates_conv();
    assert forall|i: int, j: int| 0 <= i < j < operations.len() implies is_looked_at_before(
        #[trigger] operations[i],
        #[trigger] operations[j],
    ) by {
        let left = operations[i];
        let right = operations[j];
        assert(operations.contains(left) && operations.contains(right));
        assert(operations.to_multiset().count(left) > 0);
        assert(operations.to_multiset().count(right) > 0);
        assert(checked.contains(left) && checked.contains(right));
        assert(left != right);
        assert(!sorts_before(right, left));
    }
}

/// By the time of asking, then of answering, then of recording.
pub open spec fn is_looked_at_before(left: SequencedView, right: SequencedView) -> bool {
    let one = left.operation;
    let other = right.operation;
    ||| one.invoked_at < other.invoked_at
    ||| one.invoked_at == other.invoked_at && one.completed_at < other.completed_at
    ||| one.invoked_at == other.invoked_at && one.completed_at == other.completed_at
        && left.sequence < right.sequence
}

/// Where the search gives up the checker says so, and shows all the records that take part.
pub proof fn law_giving_up_is_told(history: Seq<HistoryOperationView>)
    requires
        history.len() <= usize::MAX,
        history.filter(|record| takes_part(record)).len() <= 64,
        search_all(sorted(checked_operations(history))) == SearchResult::LimitExceeded,
    ensures
        verdict(history) == Err::<(), ViolationView>(
            (ViolationView {
                counterexample: operations_of(sorted(checked_operations(history))),
                reason:
                    "linearizability search exceeded the deterministic limit of 100000 states"@,
            }),
        ),
{
    lemma_checked(history);
}

} // verus!
