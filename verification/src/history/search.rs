//! The depth-first search for a legal order.
use crate::history::model::has_predecessor;
use crate::history::model::must_precede;
use crate::history::model::positions;
use crate::history::model::search;
use crate::history::model::search_all;
use crate::history::model::search_from;
use crate::history::model::step;
use crate::history::model::Contents;
use crate::history::model::Outcome;
use crate::history::model::SearchResult;
use crate::history::model::SequencedView;
use crate::history::HistoryOperation;
use crate::history::MAX_SEARCH_STATES;
use crate::kv_map::KeyValueMap;
use crate::types::ClientRequest;
use std::collections::HashMap;
use vstd::prelude::*;

verus! {

broadcast use vstd::std_specs::hash::group_hash_axioms;

pub const DIGEST_START: u64 = 14695981039346656037;

pub const DIGEST_PRIME: u64 = 1099511628211;

/// An operation with its place in the order of recording.
pub struct SequencedOperation {
    pub sequence: usize,
    pub operation: HistoryOperation,
}

impl View for SequencedOperation {
    type V = SequencedView;

    open spec fn view(&self) -> SequencedView {
        SequencedView { sequence: self.sequence, operation: self.operation@ }
    }
}

impl DeepView for SequencedOperation {
    type V = SequencedView;

    open spec fn deep_view(&self) -> SequencedView {
        self@
    }
}

impl Clone for SequencedOperation {
    fn clone(&self) -> (copy: Self)
        ensures
            copy@ == self@,
    {
        SequencedOperation { sequence: self.sequence, operation: self.operation.clone() }
    }
}

/// A number that files states away by their remaining operations.
pub open spec fn digest(remaining: Seq<usize>) -> u64
    decreases remaining.len(),
{
    if remaining.len() == 0 {
        DIGEST_START
    } else {
        (digest(remaining.drop_last()) ^ (remaining.last() as u64)).wrapping_mul(DIGEST_PRIME)
    }
}

fn digest_of(remaining: &Vec<usize>) -> (number: u64)
    ensures
        number == digest(remaining@),
{
    let mut number: u64 = DIGEST_START;
    let mut i: usize = 0;
    while i < remaining.len()
        invariant
            i <= remaining.len(),
            number == digest(remaining@.take(i as int)),
        decreases remaining.len() - i,
    {
        assert(remaining@.take(i + 1).drop_last() =~= remaining@.take(i as int));
        number = (number ^ (remaining[i] as u64)).wrapping_mul(DIGEST_PRIME);
        i += 1;
    }
    assert(remaining@.take(i as int) =~= remaining@);
    number
}

/// A state of the search: what remains to be ordered, and the contents.
struct SearchState {
    remaining: Vec<usize>,
    contents: KeyValueMap,
}

impl SearchState {
    spec fn key(self) -> (Seq<usize>, Contents) {
        (self.remaining@, self.contents@)
    }
}

/// What the search has found to lead nowhere, and how far it has come.
pub struct Memory {
    buckets: HashMap<u64, Vec<SearchState>>,
    explored: usize,
}

impl Memory {
    /// Each state stands in the bucket of its digest.
    pub closed spec fn well_formed(self) -> bool {
        &&& forall|number: u64, i: int|
            self.buckets@.contains_key(number) && 0 <= i < self.buckets@[number]@.len()
                ==> digest((#[trigger] self.buckets@[number]@[i]).remaining@) == number
    }

    /// The states that were found to lead nowhere.
    pub closed spec fn rejected(self) -> Set<(Seq<usize>, Contents)> {
        Set::new(
            |state: (Seq<usize>, Contents)|
                {
                    &&& self.buckets@.contains_key(digest(state.0))
                    &&& exists|i: int|
                        0 <= i < self.buckets@[digest(state.0)]@.len()
                            && #[trigger] self.buckets@[digest(state.0)]@[i].key() == state
                },
        )
    }

    pub closed spec fn explored(self) -> nat {
        self.explored as nat
    }

    fn new() -> (memory: Self)
        ensures
            memory.well_formed(),
            memory.rejected() == Set::<(Seq<usize>, Contents)>::empty(),
            memory.explored() == 0,
    {
        let memory = Memory { buckets: HashMap::new(), explored: 0 };
        assert(memory.rejected() =~= Set::<(Seq<usize>, Contents)>::empty());
        memory
    }

    fn has_rejected(&self, remaining: &Vec<usize>, contents: &KeyValueMap) -> (found: bool)
        requires
            self.well_formed(),
        ensures
            found == self.rejected().contains((remaining@, contents@)),
    {
        let number: u64 = digest_of(remaining);
        match self.buckets.get(&number) {
            None => false,
            Some(bucket) => {
                let mut i: usize = 0;
                while i < bucket.len()
                    invariant
                        i <= bucket.len(),
                        number == digest(remaining@),
                        self.buckets@.contains_key(number),
                        *bucket == self.buckets@[number],
                        forall|j: int|
                            0 <= j < i ==> #[trigger] bucket@[j].key() != (
                                remaining@,
                                contents@,
                            ),
                    decreases bucket.len() - i,
                {
                    if same_positions(&bucket[i].remaining, remaining)
                        && bucket[i].contents.same_as(contents) {
                        assert(bucket@[i as int].key() == (remaining@, contents@));
                        return true;
                    }
                    i += 1;
                }
                false
            },
        }
    }

    fn reject(&mut self, remaining: &Vec<usize>, contents: &KeyValueMap)
        requires
            old(self).well_formed(),
        ensures
            final(self).well_formed(),
            final(self).rejected() == old(self).rejected().insert((remaining@, contents@)),
            final(self).explored() == old(self).explored(),
    {
        let ghost before = *self;
        let number: u64 = digest_of(remaining);
        let mut bucket: Vec<SearchState> = match self.buckets.remove(&number) {
            Some(bucket) => bucket,
            None => Vec::new(),
        };
        let ghost kept = bucket@;
        let state = SearchState {
            remaining: copy_positions(remaining),
            contents: contents.clone(),
        };
        bucket.push(state);
        self.buckets.insert(number, bucket);
        proof {
            let entry = (remaining@, contents@);
            let now = self.buckets@;
            assert(now[number]@[kept.len() as int].key() == entry);
            assert forall|n: u64, i: int|
                now.contains_key(n) && 0 <= i < now[n]@.len() implies digest(
                (#[trigger] now[n]@[i]).remaining@,
            ) == n by {
                if n == number && i < kept.len() {
                    assert(now[n]@[i] == before.buckets@[number]@[i]);
                } else if n != number {
                    assert(now[n] == before.buckets@[n]);
                }
            }
            assert forall|state: (Seq<usize>, Contents)|
                self.rejected().contains(state) == before.rejected().insert(entry).contains(state)
                by {
                let n = digest(state.0);
                if n == number {
                    if before.rejected().contains(state) {
                        let i = choose|i: int|
                            0 <= i < before.buckets@[n]@.len()
                                && #[trigger] before.buckets@[n]@[i].key() == state;
                        assert(now[n]@[i].key() == state);
                    }
                    if self.rejected().contains(state) {
                        let i = choose|i: int|
                            0 <= i < now[n]@.len() && #[trigger] now[n]@[i].key() == state;
                        if i < kept.len() {
                            assert(before.buckets@[n]@[i].key() == state);
                        }
                    }
                } else if now.contains_key(n) {
                    assert(now[n] == before.buckets@[n]);
                }
            }
            assert(self.rejected() =~= before.rejected().insert(entry));
        }
    }
}

fn copy_positions(positions: &Vec<usize>) -> (copy: Vec<usize>)
    ensures
        copy@ == positions@,
{
    let mut copy: Vec<usize> = Vec::new();
    let mut i: usize = 0;
    while i < positions.len()
        invariant
            i <= positions.len(),
            copy@ == positions@.take(i as int),
        decreases positions.len() - i,
    {
        copy.push(positions[i]);
        i += 1;
    }
    assert(copy@ =~= positions@);
    copy
}

fn same_positions(left: &Vec<usize>, right: &Vec<usize>) -> (same: bool)
    ensures
        same == (left@ == right@),
{
    if left.len() != right.len() {
        return false;
    }
    let mut i: usize = 0;
    while i < left.len()
        invariant
            i <= left.len(),
            left.len() == right.len(),
            forall|j: int| 0 <= j < i ==> left[j] == right[j],
        decreases left.len() - i,
    {
        if left[i] != right[i] {
            return false;
        }
        i += 1;
    }
    assert(left@ =~= right@);
    true
}

/// `left` was over before `right` began.
pub fn precedes(left: &SequencedOperation, right: &SequencedOperation) -> (before: bool)
    ensures
        before == must_precede(left@, right@),
{
    left.operation.completed_at < right.operation.invoked_at || (left.operation.completed_at
        == right.operation.invoked_at && left.sequence < right.sequence)
}

/// The contents after the operation, if its response fits the contents before.
pub fn apply(operation: &HistoryOperation, contents: &KeyValueMap) -> (next: Option<KeyValueMap>)
    ensures
        (match next {
            Some(after) => Some(after@),
            None => None,
        }) == step(operation@, contents@),
{
    match &operation.request {
        ClientRequest::Get { key } | ClientRequest::LocalGet { key } => {
            let fits = match (&operation.response.response, contents.get(key.as_str())) {
                (Some(response), Some(value)) => *response == *value,
                (None, None) => true,
                _ => false,
            };
            if fits {
                Some(contents.clone())
            } else {
                None
            }
        },
        ClientRequest::Put { key, value } => {
            let mut after = contents.clone();
            after.insert(key.clone(), value.clone());
            Some(after)
        },
        ClientRequest::Delete { key } => {
            let mut after = contents.clone();
            after.remove(key.as_str());
            Some(after)
        },
    }
}

/// Some other remaining operation must precede the one at `position`.
fn waits_for_another(
    operations: &Vec<SequencedOperation>,
    remaining: &Vec<usize>,
    position: usize,
) -> (waits: bool)
    requires
        position < remaining.len(),
        forall|i: int| 0 <= i < remaining.len() ==> #[trigger] remaining[i] < operations.len(),
    ensures
        waits == has_predecessor(operations.deep_view(), remaining@, position as int),
{
    let index: usize = remaining[position];
    let mut other: usize = 0;
    while other < remaining.len()
        invariant
            other <= remaining.len(),
            position < remaining.len(),
            index == remaining[position as int],
            forall|i: int| 0 <= i < remaining.len() ==> #[trigger] remaining[i] < operations.len(),
            forall|i: int|
                0 <= i < other && #[trigger] remaining[i] != index ==> !must_precede(
                    operations.deep_view()[remaining[i] as int],
                    operations.deep_view()[index as int],
                ),
        decreases remaining.len() - other,
    {
        let other_index: usize = remaining[other];
        if other_index != index && precedes(&operations[other_index], &operations[index]) {
            assert(remaining@[other as int] != remaining@[position as int]);
            return true;
        }
        other += 1;
    }
    false
}

/// Looks for a legal order of the remaining operations.
pub fn search_remaining(
    operations: &Vec<SequencedOperation>,
    remaining: &Vec<usize>,
    contents: &KeyValueMap,
    memory: &mut Memory,
) -> (result: SearchResult)
    requires
        old(memory).well_formed(),
        old(memory).explored() <= MAX_SEARCH_STATES,
        forall|i: int| 0 <= i < remaining.len() ==> #[trigger] remaining[i] < operations.len(),
    ensures
        final(memory).well_formed(),
        final(memory).explored() <= MAX_SEARCH_STATES,
        (Outcome {
            result,
            rejected: final(memory).rejected(),
            explored: final(memory).explored(),
        }) == search(
            operations.deep_view(),
            remaining@,
            contents@,
            old(memory).rejected(),
            old(memory).explored(),
        ),
    decreases remaining.len(),
{
    if remaining.len() == 0 {
        return SearchResult::Linearizable;
    }
    if memory.has_rejected(remaining, contents) {
        return SearchResult::NotLinearizable;
    }
    if memory.explored == MAX_SEARCH_STATES {
        return SearchResult::LimitExceeded;
    }
    memory.explored = memory.explored + 1;
    assert(memory.rejected() =~= old(memory).rejected());
    let ghost expected = search(
        operations.deep_view(),
        remaining@,
        contents@,
        old(memory).rejected(),
        old(memory).explored(),
    );
    let mut position: usize = 0;
    while position < remaining.len()
        invariant
            position <= remaining.len(),
            expected == search(
                operations.deep_view(),
                remaining@,
                contents@,
                old(memory).rejected(),
                old(memory).explored(),
            ),
            memory.well_formed(),
            memory.explored() <= MAX_SEARCH_STATES,
            forall|i: int| 0 <= i < remaining.len() ==> #[trigger] remaining[i] < operations.len(),
            expected == search_from(
                operations.deep_view(),
                remaining@,
                contents@,
                memory.rejected(),
                memory.explored(),
                position as nat,
            ),
        decreases remaining.len() - position,
    {
        let index: usize = remaining[position];
        if !waits_for_another(operations, remaining, position) {
            match apply(&operations[index].operation, contents) {
                None => {},
                Some(next) => {
                    let mut rest: Vec<usize> = copy_positions(remaining);
                    rest.remove(position);
                    assert(rest@ == remaining@.remove(position as int));
                    match search_remaining(operations, &rest, &next, memory) {
                        SearchResult::Linearizable => return SearchResult::Linearizable,
                        SearchResult::LimitExceeded => return SearchResult::LimitExceeded,
                        SearchResult::NotLinearizable => {},
                    }
                },
            }
        }
        position += 1;
    }
    memory.reject(remaining, contents);
    SearchResult::NotLinearizable
}

/// Looks for a legal order of all the operations.
pub fn search_history(operations: &Vec<SequencedOperation>) -> (result: SearchResult)
    ensures
        result == search_all(operations.deep_view()),
{
    let mut remaining: Vec<usize> = Vec::new();
    let mut i: usize = 0;
    while i < operations.len()
        invariant
            i <= operations.len(),
            remaining.len() == i,
            forall|j: int| 0 <= j < i ==> #[trigger] remaining[j] == j,
        decreases operations.len() - i,
    {
        remaining.push(i);
        i += 1;
    }
    assert(remaining@ =~= positions(operations.deep_view().len()));
    let mut memory = Memory::new();
    search_remaining(operations, &remaining, &KeyValueMap::new(), &mut memory)
}

} // verus!
