//! One node moves, and the ledger goes along.
use crate::cluster::ledger::are_distinct;
use crate::cluster::ledger::Ledger;
use crate::node::model::NodeModel;
use crate::state_machine::MemoryStateMachine;
use crate::types::MessageView;
use crate::types::NodeId;
use crate::types::Role;
use crate::types::Term;
use vstd::prelude::*;

verus! {

impl Ledger {
    pub proof fn lemma_shape(
        self,
        nodes: Seq<NodeModel<MemoryStateMachine>>,
        queue: Seq<MessageView>,
    )
        requires
            self.is_sound(nodes, queue),
        ensures
            self.is_shaped(),
            self.acks_fit(),
    {
        assert forall|term: Term| #[trigger] self.has(term) implies {
            &&& 0 <= self.terms[term].start < self.log(term).len()
            &&& self.terms[term].done <= self.log(term).len()
        } by {
            assert(self.term_holds(nodes, term));
        }
        assert forall|term: Term, other: NodeId|
            0 <= #[trigger] self.acked(term, other) && (self.acked(term, other) > 0 ==> self.has(
                term,
            ) && self.acked(term, other) <= self.log(term).len()) by {
            if self.acks.contains_key((term, other)) {
                assert(self.ack_is_sound(nodes, term, other));
            }
        }
    }

    /// The term's record is as it was, or it is the node's own and in order.
    pub open spec fn term_goes_along(self, after: Self, term: Term, id: NodeId) -> bool {
        ||| self.has(term) && after.terms[term] == self.terms[term]
        ||| after.terms[term].owner == id && after.term_is_sound(term)
    }

    /// The ballot is an old one, or new and in order.
    pub open spec fn ballot_goes_along(
        self,
        after: Self,
        later: Seq<NodeModel<MemoryStateMachine>>,
        term: Term,
        voter: NodeId,
    ) -> bool {
        ||| self.ballots.contains_key((term, voter))
        ||| after.ballot_is_sound(term, voter) && after.ballot_is_kept(later, term, voter)
    }

    /// The acknowledgement is as it was, or it is the node's own in its present term.
    pub open spec fn ack_goes_along(
        self,
        after: Self,
        term: Term,
        other: NodeId,
        id: NodeId,
        current_term: Term,
    ) -> bool {
        ||| self.acks.contains_key((term, other)) && after.acks[(term, other)] == self.acks[(
            term,
            other,
        )]
        ||| {
            &&& other == id
            &&& term == current_term
            &&& after.has(term)
            &&& 0 <= after.acks[(term, other)] <= after.log(term).len()
        }
    }

    /// The ledger goes along with one node's move.
    pub open spec fn goes_along(
        self,
        after: Self,
        nodes: Seq<NodeModel<MemoryStateMachine>>,
        id: NodeId,
        next: NodeModel<MemoryStateMachine>,
    ) -> bool {
        let later = nodes.update(id as int, next);
        &&& self.grows(after, id)
        &&& after.mark == self.mark
        &&& after.watch == self.watch
        &&& self.moves(after, nodes[id as int], next)
        &&& after.node_is_sound(next)
        &&& forall|term: Term|
            after.has(term) ==> #[trigger] self.term_goes_along(after, term, id)
        &&& forall|term: Term| #[trigger]
            after.has(term) && after.terms[term].owner == id ==> {
                &&& term <= next.current_term
                &&& term == next.current_term ==> after.fulls[id] == after.log(term) && next.role
                    != Role::Candidate
            }
        &&& forall|term: Term, voter: NodeId|
            after.ballots.contains_key((term, voter)) ==> #[trigger] self.ballot_goes_along(
                after,
                later,
                term,
                voter,
            )
        &&& forall|term: Term, other: NodeId|
            after.acks.contains_key((term, other)) ==> #[trigger] self.ack_goes_along(
                after,
                term,
                other,
                id,
                next.current_term,
            )
        &&& forall|term: Term|
            term != next.current_term ==> self.acked(term, id) == #[trigger] after.acked(term, id)
    }

    pub proof fn lemma_move(
        self,
        after: Self,
        nodes: Seq<NodeModel<MemoryStateMachine>>,
        queue: Seq<MessageView>,
        id: NodeId,
        next: NodeModel<MemoryStateMachine>,
        sent: Seq<MessageView>,
        later_queue: Seq<MessageView>,
    )
        requires
            self.is_sound(nodes, queue),
            id < nodes.len(),
            self.goes_along(after, nodes, id, next),
            forall|k: int|
                0 <= k < sent.len() ==> after.message_holds(
                    nodes.update(id as int, next),
                    #[trigger] sent[k],
                ),
            forall|k: int|
                0 <= k < later_queue.len() ==> queue.contains(#[trigger] later_queue[k])
                    || sent.contains(later_queue[k]),
        ensures
            after.is_sound(nodes.update(id as int, next), later_queue),
    {
        let later = nodes.update(id as int, next);
        let node = nodes[id as int];
        self.lemma_shape(nodes, queue);
        assert(self.node_holds(nodes, id as int));
        assert forall|i: int| 0 <= i < later.len() implies #[trigger] after.node_holds(
            later,
            i,
        ) by {
            assert(self.node_holds(nodes, i));
            if i != id {
                let other = nodes[i];
                self.lemma_store_stays(after, id, other);
                let term = other.current_term;
                if self.has(term) && self.terms[term].owner == other.id {
                    assert(after.has(term));
                    assert(self.term_goes_along(after, term, id));
                    assert(self.terms[term].owner == after.terms[term].owner);
                }
                self.lemma_office_stays(after, id, other);
            }
        }
        assert forall|term: Term| after.has(term) implies #[trigger] after.term_holds(
            later,
            term,
        ) by {
            assert(self.term_goes_along(after, term, id));
            let owner = after.terms[term].owner;
            if self.has(term) {
                assert(self.term_holds(nodes, term));
                assert(self.terms[term].owner == owner);
            }
            if self.has(term) && after.terms[term] == self.terms[term] {
                self.lemma_term_stays(after, id, term);
            }
            if owner != id {
                assert(after.fulls[owner] == self.fulls[owner]);
                assert(later[owner as int] == nodes[owner as int]);
            }
        }
        assert forall|term: Term, voter: NodeId|
            after.ballots.contains_key((term, voter)) implies #[trigger] after.ballot_holds(
            later,
            term,
            voter,
        ) by {
            assert(self.ballot_goes_along(after, later, term, voter));
            if self.ballots.contains_key((term, voter)) {
                assert(self.ballot_holds(nodes, term, voter));
                self.lemma_ballot_stays(after, id, term, voter);
                let candidate = self.ballots[(term, voter)].candidate;
                assert(candidate != id ==> after.fulls[candidate] == self.fulls[candidate]);
            }
        }
        assert forall|term: Term, other: NodeId|
            after.acks.contains_key((term, other)) implies #[trigger] after.ack_is_sound(
            later,
            term,
            other,
        ) by {
            assert(self.ack_goes_along(after, term, other, id, next.current_term));
            if self.acks.contains_key((term, other)) {
                assert(self.ack_is_sound(nodes, term, other));
                assert(self.has(term));
            }
        }
        assert forall|term: Term| #[trigger] self.has(term) implies self.terms[term].owner
            < nodes.len() by {
            assert(self.term_holds(nodes, term));
        }
        assert forall|k: int| 0 <= k < later_queue.len() implies after.message_holds(
            later,
            #[trigger] later_queue[k],
        ) by {
            let message = later_queue[k];
            if queue.contains(message) {
                let j = choose|j: int| 0 <= j < queue.len() && queue[j] == message;
                assert(self.message_holds(nodes, queue[j]));
                self.lemma_message_stays(after, nodes, later, id, message);
            } else {
                let j = choose|j: int| 0 <= j < sent.len() && sent[j] == message;
                assert(after.message_holds(later, sent[j]));
            }
        }
        assert(are_distinct(after.taken));
        if let Some(mark) = self.mark {
            assert(self.has(mark.term));
        }
    }
}

} // verus!
