//! A map from strings to strings that keeps its pairs in the order of keys.
use crate::key_order::key_precedes;
use crate::key_order::lemma_key_asymmetric;
use crate::key_order::lemma_key_irreflexive;
use crate::key_order::lemma_key_total;
use crate::key_order::lemma_key_transitive;
use crate::key_order::str_precedes;
use vstd::prelude::*;

verus! {

/// Keys and values as mathematical strings.
pub type Pairs = Seq<(Seq<char>, Seq<char>)>;

/// The keys are strictly increasing, so that none occurs twice.
pub open spec fn ordered(pairs: Pairs) -> bool {
    forall|i: int, j: int|
        0 <= i < j < pairs.len() ==> key_precedes(#[trigger] pairs[i].0, #[trigger] pairs[j].0)
}

/// `key` stands at some position.
pub open spec fn has_key(pairs: Pairs, key: Seq<char>) -> bool {
    exists|i: int| 0 <= i < pairs.len() && #[trigger] pairs[i].0 == key
}

/// A position at which `key` stands.
pub open spec fn key_position(pairs: Pairs, key: Seq<char>) -> int {
    choose|i: int| 0 <= i < pairs.len() && #[trigger] pairs[i].0 == key
}

/// The map that holds exactly these pairs.
pub open spec fn pairs_map(pairs: Pairs) -> Map<Seq<char>, Seq<char>> {
    Map::new(
        |key: Seq<char>| has_key(pairs, key),
        |key: Seq<char>| pairs[key_position(pairs, key)].1,
    )
}

/// The pairs of `map` in the order of keys.
pub open spec fn sorted_pairs(map: Map<Seq<char>, Seq<char>>) -> Pairs {
    choose|pairs: Pairs| ordered(pairs) && pairs_map(pairs) == map
}

/// In an ordered sequence a key stands at one position only.
pub proof fn lemma_position_unique(pairs: Pairs, i: int)
    requires
        ordered(pairs),
        0 <= i < pairs.len(),
    ensures
        has_key(pairs, pairs[i].0),
        key_position(pairs, pairs[i].0) == i,
        pairs_map(pairs).contains_key(pairs[i].0),
        pairs_map(pairs)[pairs[i].0] == pairs[i].1,
{
    let p = key_position(pairs, pairs[i].0);
    assert(pairs[p].0 == pairs[i].0);
    lemma_key_irreflexive(pairs[i].0);
    if p < i {
        assert(key_precedes(pairs[p].0, pairs[i].0));
    } else if i < p {
        assert(key_precedes(pairs[i].0, pairs[p].0));
    }
}

/// Dropping the last pair drops its key from the map.
proof fn lemma_map_drop_last(pairs: Pairs)
    requires
        ordered(pairs),
        pairs.len() > 0,
    ensures
        ordered(pairs.drop_last()),
        pairs_map(pairs.drop_last()) == pairs_map(pairs).remove(pairs.last().0),
{
    let rest = pairs.drop_last();
    let n = pairs.len() - 1;
    assert forall|i: int, j: int| 0 <= i < j < rest.len() implies key_precedes(
        #[trigger] rest[i].0,
        #[trigger] rest[j].0,
    ) by {
        assert(rest[i] == pairs[i] && rest[j] == pairs[j]);
    }
    assert forall|key: Seq<char>|
        pairs_map(rest).contains_key(key) <==> pairs_map(pairs).remove(
            pairs.last().0,
        ).contains_key(key) by {
        if has_key(rest, key) {
            let i = key_position(rest, key);
            assert(rest[i].0 == key);
            assert(pairs[i].0 == key);
            assert(key_precedes(pairs[i].0, pairs[n].0));
            lemma_key_asymmetric(pairs[i].0, pairs[n].0);
        }
        if has_key(pairs, key) && key != pairs.last().0 {
            let i = key_position(pairs, key);
            assert(pairs[i].0 == key);
            assert(rest[i].0 == key);
        }
    }
    assert forall|key: Seq<char>| pairs_map(rest).contains_key(key) implies pairs_map(rest)[key]
        == pairs_map(pairs).remove(pairs.last().0)[key] by {
        let i = key_position(rest, key);
        assert(rest[i].0 == key);
        lemma_position_unique(pairs, i);
    }
    assert(pairs_map(rest) =~= pairs_map(pairs).remove(pairs.last().0));
}

/// Two ordered sequences that hold the same map are the same sequence.
pub proof fn lemma_ordered_unique(a: Pairs, b: Pairs)
    requires
        ordered(a),
        ordered(b),
        pairs_map(a) == pairs_map(b),
    ensures
        a == b,
    decreases a.len(),
{
    if a.len() == 0 {
        if b.len() > 0 {
            lemma_position_unique(b, 0);
            assert(has_key(a, b[0].0));
        }
        assert(a =~= b);
    } else if b.len() == 0 {
        lemma_position_unique(a, 0);
        assert(has_key(b, a[0].0));
    } else {
        let m = a.len() - 1;
        let n = b.len() - 1;
        lemma_position_unique(a, m);
        lemma_position_unique(b, n);
        // The last keys agree: each is the greatest key of the same map.
        let i = key_position(a, b[n].0);
        let j = key_position(b, a[m].0);
        assert(has_key(a, b[n].0));
        assert(has_key(b, a[m].0));
        assert(a[i].0 == b[n].0);
        assert(b[j].0 == a[m].0);
        if a[m].0 != b[n].0 {
            assert(key_precedes(a[i].0, a[m].0));
            assert(key_precedes(b[j].0, b[n].0));
            lemma_key_asymmetric(a[m].0, b[n].0);
        }
        lemma_map_drop_last(a);
        lemma_map_drop_last(b);
        lemma_ordered_unique(a.drop_last(), b.drop_last());
        assert(a[m] == b[n]);
        assert(a =~= a.drop_last().push(a[m]));
        assert(b =~= b.drop_last().push(b[n]));
    }
}

/// The ordered pairs of a map are the only ordered sequence that holds it.
pub proof fn lemma_sorted_pairs(pairs: Pairs)
    requires
        ordered(pairs),
    ensures
        sorted_pairs(pairs_map(pairs)) == pairs,
{
    let found = sorted_pairs(pairs_map(pairs));
    assert(ordered(found) && pairs_map(found) == pairs_map(pairs));
    lemma_ordered_unique(found, pairs);
}

/// A copy of the given pairs.
pub fn copy_pairs(pairs: &Vec<(String, String)>) -> (copy: Vec<(String, String)>)
    ensures
        copy.deep_view() == pairs.deep_view(),
{
    let mut copy: Vec<(String, String)> = Vec::new();
    let mut i: usize = 0;
    while i < pairs.len()
        invariant
            i <= pairs.len(),
            copy.len() == i,
            forall|j: int| 0 <= j < i ==> #[trigger] copy[j] == pairs[j],
        decreases pairs.len() - i,
    {
        copy.push((pairs[i].0.clone(), pairs[i].1.clone()));
        i += 1;
    }
    assert(copy.deep_view() =~= pairs.deep_view());
    copy
}

/// A map from strings to strings. Its pairs stand in the order of keys.
#[derive(Debug)]
pub struct KeyValueMap {
    pairs: Vec<(String, String)>,
}

impl View for KeyValueMap {
    type V = Map<Seq<char>, Seq<char>>;

    closed spec fn view(&self) -> Map<Seq<char>, Seq<char>> {
        pairs_map(self.pairs.deep_view())
    }
}

/// The first position whose key does not precede `key`.
fn lower_bound(pairs: &Vec<(String, String)>, key: &str) -> (at: usize)
    requires
        ordered(pairs.deep_view()),
    ensures
        at <= pairs.len(),
        forall|i: int| 0 <= i < at ==> key_precedes(#[trigger] pairs.deep_view()[i].0, key@),
        forall|i: int|
            at <= i < pairs.len() ==> !key_precedes(#[trigger] pairs.deep_view()[i].0, key@),
{
    let ghost all = pairs.deep_view();
    let mut low: usize = 0;
    let mut high: usize = pairs.len();
    while low < high
        invariant
            all == pairs.deep_view(),
            ordered(all),
            low <= high <= pairs.len(),
            forall|i: int| 0 <= i < low ==> key_precedes(#[trigger] all[i].0, key@),
            forall|i: int| high <= i < pairs.len() ==> !key_precedes(#[trigger] all[i].0, key@),
        decreases high - low,
    {
        let middle: usize = low + (high - low) / 2;
        assert(all[middle as int].0 == pairs[middle as int].0@);
        if str_precedes(pairs[middle].0.as_str(), key) {
            proof {
                assert forall|i: int| 0 <= i < middle + 1 implies key_precedes(
                    #[trigger] all[i].0,
                    key@,
                ) by {
                    if i < middle {
                        lemma_key_transitive(all[i].0, all[middle as int].0, key@);
                    }
                }
            }
            low = middle + 1;
        } else {
            proof {
                assert forall|i: int| middle <= i < pairs.len() implies !key_precedes(
                    #[trigger] all[i].0,
                    key@,
                ) by {
                    if i > middle && key_precedes(all[i].0, key@) {
                        lemma_key_transitive(all[middle as int].0, all[i].0, key@);
                    }
                }
            }
            high = middle;
        }
    }
    low
}

/// Whether `key` stands at position `at`.
fn stands_at(pairs: &Vec<(String, String)>, at: usize, key: &str) -> (found: bool)
    requires
        ordered(pairs.deep_view()),
        at <= pairs.len(),
        forall|i: int| 0 <= i < at ==> key_precedes(#[trigger] pairs.deep_view()[i].0, key@),
        forall|i: int|
            at <= i < pairs.len() ==> !key_precedes(#[trigger] pairs.deep_view()[i].0, key@),
    ensures
        found <==> at < pairs.len() && pairs.deep_view()[at as int].0 == key@,
        found <==> has_key(pairs.deep_view(), key@),
{
    let ghost all = pairs.deep_view();
    let found = at < pairs.len() && !str_precedes(key, pairs[at].0.as_str());
    proof {
        if at < pairs.len() {
            assert(all[at as int].0 == pairs[at as int].0@);
            lemma_key_total(all[at as int].0, key@);
            lemma_key_irreflexive(key@);
        }
        if has_key(all, key@) {
            let i = key_position(all, key@);
            assert(all[i].0 == key@);
            lemma_key_irreflexive(key@);
            if at < i {
                assert(key_precedes(all[at as int].0, all[i].0));
            }
        }
    }
    found
}

impl KeyValueMap {
    #[verifier::type_invariant]
    spec fn well_formed(self) -> bool {
        ordered(self.pairs.deep_view())
    }

    /// The empty map.
    pub fn new() -> (map: Self)
        ensures
            map@ == Map::<Seq<char>, Seq<char>>::empty(),
    {
        let map = KeyValueMap { pairs: Vec::new() };
        assert(map@ =~= Map::<Seq<char>, Seq<char>>::empty());
        map
    }

    /// The map that holds the given pairs, whose keys must be strictly increasing.
    pub fn from_ordered(pairs: Vec<(String, String)>) -> (map: Self)
        requires
            ordered(pairs.deep_view()),
        ensures
            map@ == pairs_map(pairs.deep_view()),
    {
        KeyValueMap { pairs }
    }

    /// The pairs, in the order of keys.
    pub fn pairs(&self) -> (pairs: &Vec<(String, String)>)
        ensures
            pairs.deep_view() == sorted_pairs(self@),
            ordered(pairs.deep_view()),
            pairs_map(pairs.deep_view()) == self@,
    {
        proof {
            use_type_invariant(self);
            lemma_sorted_pairs(self.pairs.deep_view());
        }
        &self.pairs
    }

    /// The value of `key`, if it has one.
    pub fn get(&self, key: &str) -> (value: Option<&String>)
        ensures
            value.deep_view() == (if self@.contains_key(key@) {
                Some(self@[key@])
            } else {
                None
            }),
    {
        proof {
            use_type_invariant(self);
        }
        let at: usize = lower_bound(&self.pairs, key);
        if stands_at(&self.pairs, at, key) {
            proof {
                lemma_position_unique(self.pairs.deep_view(), at as int);
            }
            Some(&self.pairs[at].1)
        } else {
            None
        }
    }

    /// Gives `key` the value `value`.
    pub fn insert(&mut self, key: String, value: String)
        ensures
            final(self)@ == old(self)@.insert(key@, value@),
    {
        proof {
            use_type_invariant(&*self);
        }
        let mut pairs: Vec<(String, String)> = Vec::new();
        std::mem::swap(&mut pairs, &mut self.pairs);
        let ghost before = pairs.deep_view();
        let ghost pair = (key@, value@);
        let at: usize = lower_bound(&pairs, key.as_str());
        if stands_at(&pairs, at, key.as_str()) {
            pairs.set(at, (key, value));
            proof {
                let after = pairs.deep_view();
                assert(after =~= before.update(at as int, pair));
                lemma_replaced(before, at as int, pair);
            }
        } else {
            pairs.insert(at, (key, value));
            proof {
                let after = pairs.deep_view();
                assert(after =~= before.insert(at as int, pair));
                lemma_inserted(before, at as int, pair);
            }
        }
        self.pairs = pairs;
    }

    /// Takes `key` out of the map.
    pub fn remove(&mut self, key: &str)
        ensures
            final(self)@ == old(self)@.remove(key@),
    {
        proof {
            use_type_invariant(&*self);
        }
        let mut pairs: Vec<(String, String)> = Vec::new();
        std::mem::swap(&mut pairs, &mut self.pairs);
        let ghost before = pairs.deep_view();
        let at: usize = lower_bound(&pairs, key);
        if stands_at(&pairs, at, key) {
            pairs.remove(at);
            proof {
                let after = pairs.deep_view();
                assert(after =~= before.remove(at as int));
                lemma_removed(before, at as int);
            }
        } else {
            assert(pairs_map(before) =~= pairs_map(before).remove(key@));
        }
        self.pairs = pairs;
    }

    /// Whether both maps hold the same pairs.
    pub fn same_as(&self, other: &KeyValueMap) -> (same: bool)
        ensures
            same == (self@ == other@),
    {
        proof {
            use_type_invariant(self);
            use_type_invariant(other);
            if self@ == other@ {
                lemma_ordered_unique(self.pairs.deep_view(), other.pairs.deep_view());
            }
        }
        let ghost left = self.pairs.deep_view();
        let ghost right = other.pairs.deep_view();
        if self.pairs.len() != other.pairs.len() {
            return false;
        }
        let mut i: usize = 0;
        while i < self.pairs.len()
            invariant
                left == self.pairs.deep_view(),
                right == other.pairs.deep_view(),
                self.pairs.len() == other.pairs.len(),
                self@ == other@ ==> left == right,
                i <= self.pairs.len(),
                forall|j: int| 0 <= j < i ==> left[j] == right[j],
            decreases self.pairs.len() - i,
        {
            assert(left[i as int] == self.pairs[i as int]@);
            assert(right[i as int] == other.pairs[i as int]@);
            if !(self.pairs[i].0 == other.pairs[i].0 && self.pairs[i].1 == other.pairs[i].1) {
                return false;
            }
            i += 1;
        }
        assert(left =~= right);
        true
    }
}

impl Clone for KeyValueMap {
    fn clone(&self) -> (copy: Self)
        ensures
            copy@ == self@,
    {
        proof {
            use_type_invariant(self);
        }
        KeyValueMap { pairs: copy_pairs(&self.pairs) }
    }
}

proof fn lemma_replaced(before: Pairs, at: int, pair: (Seq<char>, Seq<char>))
    requires
        ordered(before),
        0 <= at < before.len(),
        before[at].0 == pair.0,
    ensures
        ordered(before.update(at, pair)),
        pairs_map(before.update(at, pair)) == pairs_map(before).insert(pair.0, pair.1),
{
    let after = before.update(at, pair);
    assert forall|i: int| 0 <= i < after.len() implies #[trigger] after[i].0 == before[i].0 by {}
    assert(ordered(after));
    assert forall|key: Seq<char>|
        pairs_map(after).contains_key(key) <==> pairs_map(before).insert(
            pair.0,
            pair.1,
        ).contains_key(key) by {
        if has_key(before, key) {
            let i = key_position(before, key);
            assert(after[i].0 == key);
        }
        if has_key(after, key) {
            let i = key_position(after, key);
            assert(before[i].0 == key);
        }
        assert(after[at].0 == pair.0);
    }
    assert forall|key: Seq<char>| pairs_map(after).contains_key(key) implies pairs_map(after)[key]
        == pairs_map(before).insert(pair.0, pair.1)[key] by {
        let i = key_position(after, key);
        assert(after[i].0 == key);
        lemma_position_unique(after, i);
        lemma_position_unique(before, i);
        lemma_position_unique(after, at);
    }
    assert(pairs_map(after) =~= pairs_map(before).insert(pair.0, pair.1));
}

proof fn lemma_inserted(before: Pairs, at: int, pair: (Seq<char>, Seq<char>))
    requires
        ordered(before),
        0 <= at <= before.len(),
        !has_key(before, pair.0),
        forall|i: int| 0 <= i < at ==> key_precedes(#[trigger] before[i].0, pair.0),
        forall|i: int| at <= i < before.len() ==> !key_precedes(#[trigger] before[i].0, pair.0),
    ensures
        ordered(before.insert(at, pair)),
        pairs_map(before.insert(at, pair)) == pairs_map(before).insert(pair.0, pair.1),
{
    let after = before.insert(at, pair);
    assert forall|i: int, j: int| 0 <= i < j < after.len() implies key_precedes(
        #[trigger] after[i].0,
        #[trigger] after[j].0,
    ) by {
        if i == at {
            assert(after[j] == before[j - 1]);
            lemma_key_total(pair.0, before[j - 1].0);
        } else if j == at {
            assert(after[i] == before[i]);
        } else {
            let p = if i < at { i } else { i - 1 };
            let q = if j < at { j } else { j - 1 };
            assert(after[i] == before[p] && after[j] == before[q]);
        }
    }
    assert forall|key: Seq<char>|
        pairs_map(after).contains_key(key) <==> pairs_map(before).insert(
            pair.0,
            pair.1,
        ).contains_key(key) by {
        if has_key(before, key) {
            let i = key_position(before, key);
            assert(before[i].0 == key);
            let p = if i < at { i } else { i + 1 };
            assert(after[p].0 == key);
        }
        if has_key(after, key) {
            let i = key_position(after, key);
            assert(after[i].0 == key);
            if i != at {
                let p = if i < at { i } else { i - 1 };
                assert(before[p].0 == key);
            }
        }
        assert(after[at].0 == pair.0);
    }
    assert forall|key: Seq<char>| pairs_map(after).contains_key(key) implies pairs_map(after)[key]
        == pairs_map(before).insert(pair.0, pair.1)[key] by {
        let i = key_position(after, key);
        assert(after[i].0 == key);
        lemma_position_unique(after, i);
        lemma_position_unique(after, at);
        if i != at {
            let p = if i < at { i } else { i - 1 };
            assert(before[p] == after[i]);
            lemma_position_unique(before, p);
        }
    }
    assert(pairs_map(after) =~= pairs_map(before).insert(pair.0, pair.1));
}

proof fn lemma_removed(before: Pairs, at: int)
    requires
        ordered(before),
        0 <= at < before.len(),
    ensures
        ordered(before.remove(at)),
        pairs_map(before.remove(at)) == pairs_map(before).remove(before[at].0),
{
    let after = before.remove(at);
    let key_out = before[at].0;
    assert forall|i: int, j: int| 0 <= i < j < after.len() implies key_precedes(
        #[trigger] after[i].0,
        #[trigger] after[j].0,
    ) by {
        let p = if i < at { i } else { i + 1 };
        let q = if j < at { j } else { j + 1 };
        assert(after[i] == before[p] && after[j] == before[q]);
    }
    assert forall|key: Seq<char>|
        pairs_map(after).contains_key(key) <==> pairs_map(before).remove(key_out).contains_key(
            key,
        ) by {
        if has_key(before, key) && key != key_out {
            let i = key_position(before, key);
            assert(before[i].0 == key);
            let p = if i < at { i } else { i - 1 };
            assert(after[p].0 == key);
        }
        if has_key(after, key) {
            let i = key_position(after, key);
            assert(after[i].0 == key);
            let p = if i < at { i } else { i + 1 };
            assert(before[p].0 == key);
            lemma_position_unique(before, p);
            lemma_position_unique(before, at);
        }
    }
    assert forall|key: Seq<char>| pairs_map(after).contains_key(key) implies pairs_map(after)[key]
        == pairs_map(before).remove(key_out)[key] by {
        let i = key_position(after, key);
        assert(after[i].0 == key);
        let p = if i < at { i } else { i + 1 };
        assert(before[p] == after[i]);
        lemma_position_unique(after, i);
        lemma_position_unique(before, p);
    }
    assert(pairs_map(after) =~= pairs_map(before).remove(key_out));
}

/// How many leading keys precede `key`.
spec fn place_for(pairs: Pairs, key: Seq<char>) -> nat
    decreases pairs.len(),
{
    if pairs.len() > 0 && key_precedes(pairs[0].0, key) {
        1 + place_for(pairs.skip(1), key)
    } else {
        0
    }
}

proof fn lemma_place_for(pairs: Pairs, key: Seq<char>)
    requires
        ordered(pairs),
    ensures
        place_for(pairs, key) <= pairs.len(),
        forall|i: int|
            0 <= i < place_for(pairs, key) ==> key_precedes(#[trigger] pairs[i].0, key),
        forall|i: int|
            place_for(pairs, key) <= i < pairs.len() ==> !key_precedes(#[trigger] pairs[i].0, key),
    decreases pairs.len(),
{
    if pairs.len() > 0 {
        let rest = pairs.skip(1);
        assert(ordered(rest)) by {
            assert forall|i: int, j: int| 0 <= i < j < rest.len() implies key_precedes(
                #[trigger] rest[i].0,
                #[trigger] rest[j].0,
            ) by {
                assert(rest[i] == pairs[i + 1] && rest[j] == pairs[j + 1]);
            }
        }
        if key_precedes(pairs[0].0, key) {
            lemma_place_for(rest, key);
            assert forall|i: int| 0 <= i < pairs.len() implies key_precedes(
                #[trigger] pairs[i].0,
                key,
            ) == (i < place_for(pairs, key)) by {
                if i > 0 {
                    assert(pairs[i] == rest[i - 1]);
                }
            }
        } else {
            assert forall|i: int| 0 <= i < pairs.len() implies !key_precedes(
                #[trigger] pairs[i].0,
                key,
            ) by {
                if i > 0 && key_precedes(pairs[i].0, key) {
                    assert(key_precedes(pairs[0].0, pairs[i].0));
                    lemma_key_transitive(pairs[0].0, pairs[i].0, key);
                }
            }
        }
    }
}

/// A finite map has its pairs in the order of keys.
pub proof fn lemma_finite_map_has_pairs(map: Map<Seq<char>, Seq<char>>)
    requires
        map.dom().finite(),
    ensures
        ordered(sorted_pairs(map)),
        pairs_map(sorted_pairs(map)) == map,
    decreases map.dom().len(),
{
    if map.dom().len() == 0 {
        let none: Pairs = Seq::empty();
        assert(map.dom() =~= Set::empty());
        assert(pairs_map(none) =~= map);
        assert(ordered(none));
    } else {
        let key = map.dom().choose();
        let smaller = map.remove(key);
        assert(smaller.dom() =~= map.dom().remove(key));
        lemma_finite_map_has_pairs(smaller);
        let pairs = sorted_pairs(smaller);
        let at = place_for(pairs, key) as int;
        lemma_place_for(pairs, key);
        if has_key(pairs, key) {
            assert(pairs_map(pairs).contains_key(key));
        }
        lemma_inserted(pairs, at, (key, map[key]));
        assert(smaller.insert(key, map[key]) =~= map);
        assert(ordered(pairs.insert(at, (key, map[key]))));
    }
}

/// The map of finitely many pairs is finite.
pub proof fn lemma_pairs_map_is_finite(pairs: Pairs)
    ensures
        pairs_map(pairs).dom().finite(),
{
    let keys = Seq::new(pairs.len(), |i: int| pairs[i].0);
    vstd::seq_lib::seq_to_set_is_finite(keys);
    assert forall|key: Seq<char>| pairs_map(pairs).dom().contains(key) implies keys.to_set().contains(
        key,
    ) by {
        let i = key_position(pairs, key);
        assert(pairs[i].0 == key);
        assert(keys[i] == key);
    }
    vstd::set_lib::lemma_set_subset_finite(keys.to_set(), pairs_map(pairs).dom());
}

/// Pairs are in order exactly if each key comes before the one that follows it; so no key
/// stands twice.
pub proof fn law_ordered_pairs_rise_step_by_step(pairs: Pairs)
    ensures
        ordered(pairs) <==> forall|i: int|
            0 <= i < pairs.len() - 1 ==> #[trigger] rises_at(pairs, i),
{
    if forall|i: int| 0 <= i < pairs.len() - 1 ==> #[trigger] rises_at(pairs, i) {
        assert forall|i: int, j: int| 0 <= i < j < pairs.len() implies key_precedes(
            #[trigger] pairs[i].0,
            #[trigger] pairs[j].0,
        ) by {
            lemma_rises_to(pairs, i, j);
        }
    }
    if ordered(pairs) {
        assert forall|i: int| 0 <= i < pairs.len() - 1 implies #[trigger] rises_at(pairs, i) by {
            assert(key_precedes(pairs[i].0, pairs[i + 1].0));
        }
    }
}

/// The key at a position comes before the next.
pub open spec fn rises_at(pairs: Pairs, i: int) -> bool {
    key_precedes(pairs[i].0, pairs[i + 1].0)
}

proof fn lemma_rises_to(pairs: Pairs, i: int, j: int)
    requires
        0 <= i < j < pairs.len(),
        forall|k: int| 0 <= k < pairs.len() - 1 ==> #[trigger] rises_at(pairs, k),
    ensures
        key_precedes(pairs[i].0, pairs[j].0),
    decreases j - i,
{
    assert(rises_at(pairs, j - 1));
    if i < j - 1 {
        lemma_rises_to(pairs, i, j - 1);
        lemma_key_transitive(pairs[i].0, pairs[j - 1].0, pairs[j].0);
    }
}

} // verus!
