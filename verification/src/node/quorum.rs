//! Counting members by what the leader knows of them.
use crate::node::model::minus;
use crate::node::Node;
use crate::node::QUORUM_LEASE_MS;
use crate::state_machine::StateMachine;
use crate::types::LogIndex;
use crate::types::NodeId;
use std::collections::HashMap;
use vstd::prelude::*;

verus! {

broadcast use vstd::std_specs::hash::group_hash_axioms;

/// The keys of a map, in any order.
pub(super) fn keys_of<K: Copy + Eq + std::hash::Hash, V>(map: &HashMap<K, V>) -> (keys: Vec<K>)
    requires
        vstd::std_specs::hash::obeys_key_model::<K>(),
    ensures
        keys@.no_duplicates(),
        keys@.to_set() == map@.dom(),
{
    let mut keys: Vec<K> = Vec::new();
    for key in all: map.keys()
        invariant
            all.seq().unref().to_set() == map@.dom(),
            all.seq().no_duplicates(),
            keys@ == all.seq().unref().take(all.index()),
            all.index() == all.seq().len() ==> keys@ == all.seq().unref(),
    {
        assert(all.seq().unref().take(all.index() + 1) =~= keys@.push(*key));
        keys.push(*key);
    }
    assert(keys@.no_duplicates());
    keys
}

/// Adding the next of some distinct keys adds at most one member to the chosen.
proof fn lemma_chosen_so_far(keys: Seq<NodeId>, chosen: spec_fn(NodeId) -> bool, upto: int)
    requires
        keys.no_duplicates(),
        0 <= upto < keys.len(),
    ensures
        ({
            let before = keys.take(upto).to_set().filter(chosen);
            let after = keys.take(upto + 1).to_set().filter(chosen);
            &&& before.finite()
            &&& chosen(keys[upto]) ==> after.len() == before.len() + 1
            &&& !chosen(keys[upto]) ==> after.len() == before.len()
        }),
{
    let first = keys.take(upto);
    let more = keys.take(upto + 1);
    let before = first.to_set().filter(chosen);
    let after = more.to_set().filter(chosen);
    let key = keys[upto];
    vstd::seq_lib::seq_to_set_is_finite(first);
    if first.contains(key) {
        let j = choose|j: int| 0 <= j < first.len() && first[j] == key;
        assert(keys[j] == key);
    }
    assert forall|member: NodeId|
        after.contains(member) <==> (before.contains(member) || (member == key && chosen(key))) by {
        if more.contains(member) {
            let j = choose|j: int| 0 <= j < more.len() && more[j] == member;
            if j < upto {
                assert(first[j] == member);
            }
        }
        if first.contains(member) {
            let j = choose|j: int| 0 <= j < first.len() && first[j] == member;
            assert(more[j] == member);
        }
        assert(more[upto] == key);
    }
    if chosen(key) {
        assert(after =~= before.insert(key));
    } else {
        assert(after =~= before);
    }
}

impl<S: StateMachine> Node<S> {
    /// Counts the members known to hold the log up to `index`.
    pub(super) fn count_holders(&self, index: LogIndex) -> (count: usize)
        ensures
            count == self@.holders(index as int).len(),
            self@.holders(index as int).finite(),
    {
        let keys = keys_of(&self.match_index);
        let ghost chosen = |member: NodeId| self@.match_index[member] >= index as int;
        let mut count: usize = 0;
        let mut i: usize = 0;
        assert(keys@.take(0).to_set().filter(chosen) =~= Set::empty());
        while i < keys.len()
            invariant
                chosen == (|member: NodeId| self@.match_index[member] >= index as int),
                keys@.no_duplicates(),
                keys@.to_set() == self@.match_index.dom(),
                i <= keys.len(),
                count <= i,
                count == keys@.take(i as int).to_set().filter(chosen).len(),
            decreases keys.len() - i,
        {
            proof {
                lemma_chosen_so_far(keys@, chosen, i as int);
                assert(keys@.to_set().contains(keys@[i as int]));
            }
            if let Some(matched) = self.match_index.get(&keys[i]) {
                if *matched >= index {
                    count += 1;
                }
            }
            i += 1;
        }
        assert(keys@.take(i as int) =~= keys@);
        assert(self@.holders(index as int) =~= self@.match_index.dom().filter(chosen));
        count
    }

    /// Whether a majority was heard from recently enough.
    pub(super) fn has_quorum_contact(&self, now_ms: u64) -> (enough: bool)
        requires
            self@.well_formed(),
        ensures
            enough == self@.has_quorum_contact(now_ms),
    {
        let keys = keys_of(&self.last_quorum_contact);
        let ghost chosen = |voter: NodeId|
            minus(now_ms as int, self@.last_quorum_contact[voter] as int) <= QUORUM_LEASE_MS;
        let mut active: usize = 0;
        let mut i: usize = 0;
        assert(keys@.take(0).to_set().filter(chosen) =~= Set::empty());
        while i < keys.len()
            invariant
                chosen == (|voter: NodeId|
                    minus(now_ms as int, self@.last_quorum_contact[voter] as int)
                        <= QUORUM_LEASE_MS),
                keys@.no_duplicates(),
                keys@.to_set() == self@.last_quorum_contact.dom(),
                i <= keys.len(),
                active <= i,
                active == keys@.take(i as int).to_set().filter(chosen).len(),
            decreases keys.len() - i,
        {
            proof {
                lemma_chosen_so_far(keys@, chosen, i as int);
                assert(keys@.to_set().contains(keys@[i as int]));
            }
            if let Some(contact) = self.last_quorum_contact.get(&keys[i]) {
                if now_ms.saturating_sub(*contact) <= QUORUM_LEASE_MS {
                    active += 1;
                }
            }
            i += 1;
        }
        assert(keys@.take(i as int) =~= keys@);
        assert(self@.active_contacts(now_ms) =~= self@.last_quorum_contact.dom().filter(chosen));
        active >= self.majority()
    }
}

} // verus!
