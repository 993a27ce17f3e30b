//! What a leader has committed, every later leader has.
use crate::cluster::growth::lemma_beginning;
use crate::cluster::ledger::Ledger;
use crate::node::laws::histories::last_term;
use crate::node::laws::histories::match_up;
use crate::node::laws::histories::merged;
use crate::node::model::larger;
use crate::node::model::NodeModel;
use crate::state_machine::MemoryStateMachine;
use crate::types::LogEntryView;
use crate::types::MessageView;
use crate::types::NodeId;
use crate::types::Term;
use vstd::prelude::*;

verus! {

/// What two logs share with a third, merging keeps.
pub proof fn lemma_merged_holds(
    full: Seq<LogEntryView>,
    source: Seq<LogEntryView>,
    upto: int,
    k: int,
)
    requires
        0 <= k <= full.len(),
        k <= source.len(),
        0 <= upto <= source.len(),
        full.take(k) == source.take(k),
    ensures
        k <= merged(full, source, upto).len(),
        merged(full, source, upto).take(k) == full.take(k),
{
    if upto < k {
        lemma_beginning(full, source, k, upto);
    } else {
        assert(source.take(upto).take(k) =~= source.take(k));
    }
}

pub proof fn lemma_merged_source(full: Seq<LogEntryView>, source: Seq<LogEntryView>, upto: int)
    requires
        0 <= upto <= source.len(),
    ensures
        upto <= merged(full, source, upto).len(),
        merged(full, source, upto).take(upto) == source.take(upto),
{
    assert(source.take(upto).take(upto) =~= source.take(upto));
}

impl Ledger {
    /// Any two majorities share a member.
    pub proof fn lemma_majorities_meet(self, first: Set<NodeId>, second: Set<NodeId>) -> (member:
        NodeId)
        requires
            self.size <= usize::MAX + 1,
            self.is_majority(first),
            self.is_majority(second),
        ensures
            first.contains(member),
            second.contains(member),
    {
        let ids = Seq::new(self.size, |i: int| i as NodeId);
        let members = ids.to_set();
        assert(ids.no_duplicates());
        ids.unique_seq_to_set();
        assert forall|id: NodeId| self.is_member(id) implies members.contains(id) by {
            assert(ids[id as int] == id);
        }
        vstd::set_lib::lemma_len_subset(first, members);
        vstd::set_lib::lemma_len_subset(second, members);
        if !exists|member: NodeId| first.contains(member) && second.contains(member) {
            assert(first.disjoint(second));
            vstd::set_lib::lemma_set_disjoint_lens(first, second);
            vstd::set_lib::lemma_len_subset(first + second, members);
        }
        choose|member: NodeId| first.contains(member) && second.contains(member)
    }

    pub proof fn lemma_size(self, nodes: Seq<NodeModel<MemoryStateMachine>>, queue: Seq<MessageView>)
        requires
            self.is_sound(nodes, queue),
        ensures
            self.size <= usize::MAX + 1,
    {
        if self.size > usize::MAX + 1 {
            assert(self.node_holds(nodes, usize::MAX + 1));
        }
    }

    /// Entries of one term at one place mean the same log up to there.
    pub proof fn lemma_match_up(self, first: Seq<LogEntryView>, second: Seq<LogEntryView>)
        requires
            self.is_coherent(first),
            self.is_coherent(second),
        ensures
            match_up(first, second),
    {
        assert forall|i: int|
            0 < i <= first.len() && i <= second.len() && (#[trigger] first[i - 1]).term == second[i
                - 1].term implies first.take(i) == second.take(i) by {
            assert(self.agrees(first, i));
            assert(self.agrees(second, i));
        }
    }

    /// What a majority stores of a leader's own entries, every later leader has from
    /// the start.
    pub proof fn lemma_stored_stays(
        self,
        nodes: Seq<NodeModel<MemoryStateMachine>>,
        queue: Seq<MessageView>,
        term: Term,
        count: int,
        storers: Set<NodeId>,
        later: Term,
    )
        requires
            self.is_sound(nodes, queue),
            self.has(term),
            self.has(later),
            term < later,
            1 <= count <= self.log(term).len(),
            self.log(term)[count - 1].term == term,
            self.is_majority(storers),
            forall|id: NodeId| #[trigger]
                storers.contains(id) ==> self.acked(term, id) >= count,
        ensures
            count <= self.terms[later].start,
            self.log(later).take(count) == self.log(term).take(count),
        decreases later,
    {
        self.lemma_size(nodes, queue);
        assert(self.term_holds(nodes, later));
        let voter = self.lemma_majorities_meet(storers, self.terms[later].voters);
        assert(self.ballots.contains_key((later, voter)));
        assert(self.ballot_holds(nodes, later, voter));
        let ballot = self.ballots[(later, voter)];
        assert(self.acked(term, voter) >= count);
        assert(self.stands(ballot.log, term, count, later as int));
        if !self.holds(ballot.log, term, count) {
            let between = choose|between: Term|
                self.has(between) && term < between < later && #[trigger] self.lacks(
                    between,
                    term,
                    count,
                );
            self.lemma_stored_stays(nodes, queue, term, count, storers, between);
        }
        let log = ballot.log;
        let length = log.len() as int;
        assert(log.take(count)[count - 1] == self.log(term).take(count)[count - 1]);
        assert(self.agrees(log, length));
        let own = last_term(log);
        assert(self.term_holds(nodes, own));
        assert(log.take(length)[count - 1] == self.log(own).take(length)[count - 1]);
        assert(self.log(own)[count - 1].term == term);
        assert(term <= own);
        let start = self.terms[later].start;
        let begun = self.log(later).take(start);
        if start > 0 {
            let last = self.log(later)[start - 1].term;
            assert(begun.last() == self.log(later)[start - 1]);
            assert(self.agrees(self.log(later), start));
            if last == own {
                lemma_beginning(self.log(later), self.log(own), start, count);
                lemma_beginning(log, self.log(own), length, count);
            } else {
                self.lemma_stored_stays(nodes, queue, term, count, storers, last);
                assert(self.term_holds(nodes, last));
                assert(self.log(later).take(start)[start - 1] == self.log(last).take(start)[start
                    - 1]);
                assert(start - 1 >= self.terms[last].start);
                lemma_beginning(self.log(later), self.log(last), start, count);
            }
        }
    }

    /// What the leader of a term has committed, every later leader has from the start.
    pub proof fn lemma_committed_stays(
        self,
        nodes: Seq<NodeModel<MemoryStateMachine>>,
        queue: Seq<MessageView>,
        term: Term,
        later: Term,
    )
        requires
            self.is_sound(nodes, queue),
            self.has(term),
            self.has(later),
            term < later,
        ensures
            self.terms[term].done <= self.terms[later].start,
            self.log(later).take(self.terms[term].done) == self.log(term).take(
                self.terms[term].done,
            ),
    {
        assert(self.term_holds(nodes, term));
        assert(self.term_holds(nodes, later));
        let done = self.terms[term].done;
        if done > 0 {
            self.lemma_stored_stays(nodes, queue, term, done, self.terms[term].storers, later);
        } else {
            assert(self.log(later).take(0) =~= self.log(term).take(0));
        }
    }

    /// What is covered in a log stands in the log of a leader of a term that is not
    /// before.
    pub proof fn lemma_covered_stays(
        self,
        nodes: Seq<NodeModel<MemoryStateMachine>>,
        queue: Seq<MessageView>,
        log: Seq<LogEntryView>,
        count: int,
        bound: Term,
        later: Term,
    )
        requires
            self.is_sound(nodes, queue),
            self.has(later),
            bound <= later,
            0 <= count <= log.len(),
            self.is_covered(log, count, bound),
        ensures
            count <= self.log(later).len(),
            self.log(later).take(count) == log.take(count),
    {
        if count > 0 {
            let term = choose|term: Term|
                term <= bound && #[trigger] self.is_covered_by(log, count, term);
            assert(self.term_holds(nodes, term));
            assert(self.term_holds(nodes, later));
            if term < later {
                self.lemma_committed_stays(nodes, queue, term, later);
                lemma_beginning(self.log(later), self.log(term), self.terms[term].done, count);
            }
        } else {
            assert(self.log(later).take(0) =~= log.take(0));
        }
    }

    /// What is covered in two logs is the same in both.
    pub proof fn lemma_covered_agree(
        self,
        nodes: Seq<NodeModel<MemoryStateMachine>>,
        queue: Seq<MessageView>,
        first: Seq<LogEntryView>,
        first_bound: Term,
        second: Seq<LogEntryView>,
        second_bound: Term,
        count: int,
    )
        requires
            self.is_sound(nodes, queue),
            0 <= count <= first.len(),
            count <= second.len(),
            self.is_covered(first, count, first_bound),
            self.is_covered(second, count, second_bound),
        ensures
            first.take(count) == second.take(count),
    {
        if count > 0 {
            let one = choose|term: Term|
                term <= first_bound && #[trigger] self.is_covered_by(first, count, term);
            let other = choose|term: Term|
                term <= second_bound && #[trigger] self.is_covered_by(second, count, term);
            assert(self.is_covered_by(first, count, one));
            assert(self.is_covered_by(second, count, other));
            let later = if one < other {
                other
            } else {
                one
            };
            assert(self.is_covered(first, count, one));
            assert(self.is_covered(second, count, other));
            self.lemma_covered_stays(nodes, queue, first, count, one, later);
            self.lemma_covered_stays(nodes, queue, second, count, other, later);
        } else {
            assert(first.take(0) =~= second.take(0));
        }
    }

    // ---- merging ----

    /// The ledger once the node has the first `upto` entries of the term's leader.
    pub open spec fn merge(self, id: NodeId, term: Term, upto: int) -> Ledger {
        Ledger {
            fulls: self.fulls.insert(id, merged(self.fulls[id], self.log(term), upto)),
            acks: if self.terms[term].owner == id {
                self.acks
            } else {
                self.acks.insert((term, id), larger(self.acked(term, id), upto))
            },
            ..self
        }
    }

    pub proof fn lemma_merge(
        self,
        nodes: Seq<NodeModel<MemoryStateMachine>>,
        queue: Seq<MessageView>,
        id: NodeId,
        term: Term,
        upto: int,
    )
        requires
            self.is_sound(nodes, queue),
            id < nodes.len(),
            self.has(term),
            term >= nodes[id as int].current_term,
            0 <= upto <= self.log(term).len(),
        ensures
            ({
                let after = self.merge(id, term, upto);
                let node = nodes[id as int];
                let full = after.fulls[id];
                let commit = node.commit_index as int;
                &&& self.grows(after, id)
                &&& after.is_coherent(full)
                &&& forall|i: int| 0 <= i < full.len() ==> (#[trigger] full[i]).term <= term
                &&& after.keeps(id, full, Term::MAX + 1, term + 1)
                &&& upto <= full.len()
                &&& full.take(upto) == self.log(term).take(upto)
                &&& commit <= full.len()
                &&& full.take(commit) == self.fulls[id].take(commit)
                &&& after.is_covered(full, commit, term)
                &&& match_up(self.fulls[id], self.log(term))
                &&& self.terms[term].owner == id && node.current_term == term ==> full
                    == self.fulls[id]
                &&& upto <= after.acked(term, id)
            }),
    {
        let after = self.merge(id, term, upto);
        let node = nodes[id as int];
        let old_full = self.fulls[id];
        let source = self.log(term);
        let full = after.fulls[id];
        let count = node.commit_index as int;
        self.lemma_shape(nodes, queue);
        assert(self.node_holds(nodes, id as int));
        assert(self.term_holds(nodes, term));
        assert forall|t: Term| #[trigger] self.has(t) implies after.log(t).take(
            self.log(t).len() as int,
        ) == self.log(t) by {
            assert(self.log(t).take(self.log(t).len() as int) =~= self.log(t));
        }
        assert forall|t: Term, other: NodeId|
            self.acked(t, other) <= #[trigger] after.acked(t, other) && (other != id || t != term
                ==> self.acked(t, other) == after.acked(t, other)) by {
            assert(0 <= self.acked(t, other));
        }
        assert(self.grows(after, id));
        self.lemma_match_up(old_full, source);
        self.lemma_coherent_grows(after, id, old_full);
        self.lemma_coherent_grows(after, id, source);
        lemma_merged_source(old_full, source, upto);
        assert forall|i: int| 0 < i <= full.len() implies #[trigger] after.agrees(full, i) by {
            assert(after.agrees(old_full, i) || i > old_full.len());
            if full != old_full {
                assert(after.agrees(source, i));
                assert(full.take(i) =~= source.take(i));
            }
        }
        assert forall|i: int| 0 <= i < full.len() implies (#[trigger] full[i]).term <= term by {
            if full != old_full {
                assert(full[i] == source[i]);
            } else {
                assert(old_full[i].term <= node.current_term);
            }
        }
        self.lemma_covered_stays(nodes, queue, old_full, count, node.current_term, term);
        lemma_merged_holds(old_full, source, upto, count);
        self.lemma_covered_grows(after, id, old_full, full, count, node.current_term, term);
        assert forall|t: Term, k: int|
            t < Term::MAX + 1 && 1 <= k <= after.acked(t, id) implies #[trigger] after.stands(
            full,
            t,
            k,
            term + 1,
        ) by {
            assert(self.acked(t, id) >= 0);
            if k <= self.acked(t, id) {
                assert(self.stands(old_full, t, k, node.current_term + 1));
                assert(self.has(t));
                if self.holds(old_full, t, k) {
                    if t == term {
                        lemma_merged_holds(old_full, source, upto, k);
                        assert(after.holds(full, t, k));
                    } else if t > term {
                        if self.acks.contains_key((t, id)) {
                            assert(self.ack_is_sound(nodes, t, id));
                        }
                        assert(self.term_holds(nodes, t));
                        assert(false);
                    } else if self.lacks(term, t, k) {
                        assert(after.lacks(term, t, k));
                        assert(after.has(term));
                    } else {
                        lemma_merged_holds(old_full, source, upto, k);
                        assert(after.holds(full, t, k));
                    }
                } else {
                    self.lemma_stands_grows(
                        after,
                        id,
                        old_full,
                        t,
                        k,
                        node.current_term + 1,
                        term + 1,
                    );
                    let later = choose|later: Term|
                        self.has(later) && t < later < node.current_term + 1 && #[trigger] self.lacks(
                            later,
                            t,
                            k,
                        );
                    assert(after.has(later));
                    assert(after.lacks(later, t, k));
                }
            } else {
                assert(t == term && k <= upto);
                lemma_beginning(full, source, upto, k);
                assert(after.holds(full, t, k));
            }
        }
        if self.terms[term].owner == id && node.current_term == term {
            assert(old_full == source);
        }
        assert(upto <= after.acked(term, id));
    }
}

} // verus!
