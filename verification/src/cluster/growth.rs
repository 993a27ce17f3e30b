//! What a ledger says stays true as more happens.
use crate::cluster::ledger::is_piece;
use crate::cluster::ledger::Ledger;
use crate::node::laws::histories::last_term;
use crate::node::model::larger;
use crate::node::model::NodeModel;
use crate::state_machine::MemoryStateMachine;
use crate::types::AppendEntriesView;
use crate::types::LogEntryView;
use crate::types::MessageView;
use crate::types::NodeId;
use crate::types::Role;
use crate::types::RpcView;
use crate::types::SnapshotView;
use crate::types::Term;
use vstd::prelude::*;

verus! {

/// A log that begins with another begins with each beginning of it.
pub proof fn lemma_beginning(
    longer: Seq<LogEntryView>,
    shorter: Seq<LogEntryView>,
    upto: int,
    k: int,
)
    requires
        0 <= k <= upto <= longer.len(),
        upto <= shorter.len(),
        longer.take(upto) == shorter.take(upto),
    ensures
        longer.take(k) == shorter.take(k),
{
    assert(longer.take(k) =~= longer.take(upto).take(k));
    assert(shorter.take(k) =~= shorter.take(upto).take(k));
}

impl Ledger {
    pub proof fn lemma_log_grows(self, after: Self, id: NodeId, term: Term, k: int)
        requires
            self.grows(after, id),
            self.has(term),
            0 <= k <= self.log(term).len(),
        ensures
            after.has(term),
            k <= after.log(term).len(),
            after.log(term).take(k) == self.log(term).take(k),
            k > 0 ==> after.log(term)[k - 1] == self.log(term)[k - 1],
    {
        let upto = self.log(term).len() as int;
        assert(self.log(term).take(upto) =~= self.log(term));
        lemma_beginning(after.log(term), self.log(term), upto, k);
        if k > 0 {
            assert(after.log(term).take(k)[k - 1] == self.log(term).take(k)[k - 1]);
        }
    }

    pub proof fn lemma_coherent_grows(self, after: Self, id: NodeId, log: Seq<LogEntryView>)
        requires
            self.grows(after, id),
            self.is_coherent(log),
        ensures
            after.is_coherent(log),
    {
        assert forall|i: int| 0 < i <= log.len() implies #[trigger] after.agrees(log, i) by {
            assert(self.agrees(log, i));
            self.lemma_log_grows(after, id, log[i - 1].term, i);
        }
    }

    pub proof fn lemma_covered_grows(
        self,
        after: Self,
        id: NodeId,
        log: Seq<LogEntryView>,
        later: Seq<LogEntryView>,
        count: int,
        bound: Term,
        after_bound: Term,
    )
        requires
            self.grows(after, id),
            self.is_covered(log, count, bound),
            bound <= after_bound,
            count > 0 ==> count <= later.len() && later.take(count) == log.take(count),
            forall|term: Term| #[trigger] self.has(term) ==> self.terms[term].done <= self.log(
                term,
            ).len(),
        ensures
            after.is_covered(later, count, after_bound),
    {
        if count > 0 {
            let term = choose|term: Term|
                term <= bound && #[trigger] self.is_covered_by(log, count, term);
            assert(self.has(term));
            self.lemma_log_grows(after, id, term, count);
            assert(after.is_covered_by(later, count, term));
        }
    }

    pub proof fn lemma_stands_grows(
        self,
        after: Self,
        id: NodeId,
        log: Seq<LogEntryView>,
        term: Term,
        k: int,
        bound: int,
        after_bound: int,
    )
        requires
            self.grows(after, id),
            self.has(term),
            0 <= k <= self.log(term).len(),
            bound <= after_bound,
            self.stands(log, term, k, bound),
            forall|other: Term| #[trigger] self.has(other) ==> self.terms[other].start < self.log(
                other,
            ).len(),
        ensures
            after.stands(log, term, k, after_bound),
    {
        self.lemma_log_grows(after, id, term, k);
        if self.holds(log, term, k) {
            assert(after.holds(log, term, k));
        } else {
            let later = choose|later: Term|
                self.has(later) && term < later < bound && #[trigger] self.lacks(later, term, k);
            if k <= self.terms[later].start {
                self.lemma_log_grows(after, id, later, k);
            }
            assert(after.has(later));
            assert(after.lacks(later, term, k));
        }
    }

    pub open spec fn is_shaped(self) -> bool {
        forall|term: Term| #[trigger]
            self.has(term) ==> {
                &&& 0 <= self.terms[term].start < self.log(term).len()
                &&& self.terms[term].done <= self.log(term).len()
            }
    }

    pub open spec fn acks_fit(self) -> bool {
        forall|term: Term, other: NodeId|
            0 <= #[trigger] self.acked(term, other) && (self.acked(term, other) > 0 ==> self.has(
                term,
            ) && self.acked(term, other) <= self.log(term).len())
    }

    pub proof fn lemma_keeps_grows(
        self,
        after: Self,
        id: NodeId,
        other: NodeId,
        log: Seq<LogEntryView>,
        upto: int,
        bound: int,
        after_bound: int,
    )
        requires
            self.grows(after, id),
            self.is_shaped(),
            self.acks_fit(),
            bound <= after_bound,
            self.keeps(other, log, upto, bound),
            forall|term: Term|
                term < upto ==> self.acked(term, other) == #[trigger] after.acked(term, other),
        ensures
            after.keeps(other, log, upto, after_bound),
    {
        assert forall|term: Term, k: int|
            term < upto && 1 <= k <= after.acked(term, other) implies #[trigger] after.stands(
            log,
            term,
            k,
            after_bound,
        ) by {
            assert(self.acked(term, other) == after.acked(term, other));
            assert(self.stands(log, term, k, bound));
            self.lemma_stands_grows(after, id, log, term, k, bound, after_bound);
        }
    }

    pub proof fn lemma_backs_grows(
        self,
        after: Self,
        id: NodeId,
        snapshot: SnapshotView,
        term: Term,
    )
        requires
            self.grows(after, id),
            self.is_shaped(),
            self.backs(snapshot, term),
        ensures
            after.backs(snapshot, term),
    {
        let index = snapshot.last_included_index as int;
        self.lemma_log_grows(after, id, term, index);
        self.lemma_covered_grows(
            after,
            id,
            self.log(term),
            after.log(term),
            index,
            term,
            term,
        );
        assert(index != 0);
    }

    pub proof fn lemma_batch_grows(
        self,
        after: Self,
        id: NodeId,
        request: AppendEntriesView,
    )
        requires
            self.grows(after, id),
            self.is_shaped(),
            self.batch_is_sound(request),
        ensures
            after.batch_is_sound(request),
    {
        let prev = request.prev_log_index as int;
        let upto = prev + request.entries.len();
        let term = request.term;
        self.lemma_log_grows(after, id, term, upto);
        assert(self.log(term).subrange(prev, upto) =~= self.log(term).take(upto).skip(prev));
        assert(after.log(term).subrange(prev, upto) =~= after.log(term).take(upto).skip(prev));
        self.lemma_log_grows(after, id, term, prev);
        let count = request.leader_commit as int;
        if count > 0 {
            let by = choose|by: Term|
                by <= term && #[trigger] self.is_covered_by(self.log(term), count, by);
            assert(self.is_covered_by(self.log(term), count, by));
            self.lemma_log_grows(after, id, term, count);
        }
        self.lemma_covered_grows(after, id, self.log(term), after.log(term), count, term, term);
    }

    pub proof fn lemma_claims_grow(
        self,
        after: Self,
        id: NodeId,
        term: Term,
        voter: NodeId,
        candidate: NodeId,
    )
        requires
            self.grows(after, id),
            self.claims(term, voter, candidate),
        ensures
            after.claims(term, voter, candidate),
    {
        assert(self.ballots.contains_key((term, voter)) ==> after.ballots.contains_key(
            (term, voter),
        ));
    }

    /// What the node becomes leaves what it stands for in order: its term does not fall,
    /// it does not take back a vote, and it stands for election only anew or as before.
    pub open spec fn moves(
        self,
        after: Self,
        node: NodeModel<MemoryStateMachine>,
        next: NodeModel<MemoryStateMachine>,
    ) -> bool {
        &&& next.id == node.id
        &&& next.current_term >= node.current_term
        &&& next.next_read_id >= node.next_read_id
        &&& next.log_base_index >= node.log_base_index
        &&& next.commit_index >= node.commit_index
        &&& next.role == Role::Candidate && next.current_term == node.current_term ==> node.role
            == Role::Candidate && after.fulls[node.id] == self.fulls[node.id]
        &&& next.current_term == node.current_term ==> forall|other: NodeId|
            node.voted_for == Some(other) && other != node.id ==> next.voted_for == Some(other)
    }

    pub proof fn lemma_message_stays(
        self,
        after: Self,
        nodes: Seq<NodeModel<MemoryStateMachine>>,
        later: Seq<NodeModel<MemoryStateMachine>>,
        id: NodeId,
        message: MessageView,
    )
        requires
            self.grows(after, id),
            self.is_shaped(),
            forall|term: Term| #[trigger]
                self.has(term) ==> self.terms[term].owner < nodes.len(),
            self.message_is_sound(nodes, message),
            message.from < nodes.len(),
            message.to < nodes.len(),
            later.len() == nodes.len(),
            id < nodes.len(),
            nodes[id as int].id == id,
            later == nodes.update(id as int, later[id as int]),
            self.moves(after, nodes[id as int], later[id as int]),
            after.watch == self.watch || message.rpc !is ReadIndexReply,
        ensures
            after.message_is_sound(later, message),
    {
        match message.rpc {
            RpcView::AppendEntries(request) => {
                self.lemma_batch_grows(after, id, request);
            },
            RpcView::InstallSnapshotRequest(request) => {
                self.lemma_backs_grows(after, id, request.snapshot, request.term);
                assert(self.has(request.term));
            },
            RpcView::InstallSnapshotChunk(chunk) => {
                let snapshot = choose|snapshot: SnapshotView|
                    is_piece(chunk, snapshot) && #[trigger] self.backs(snapshot, chunk.term);
                self.lemma_backs_grows(after, id, snapshot, chunk.term);
            },
            RpcView::RequestVoteReply(reply) => {
                if reply.vote_granted && message.to != message.from {
                    self.lemma_claims_grow(after, id, reply.term, message.from, message.to);
                }
            },
            RpcView::AppendEntriesReply(reply) => {
                assert(self.acked(reply.term, message.from) <= after.acked(
                    reply.term,
                    message.from,
                ));
            },
            RpcView::InstallSnapshotReply(reply) => {
                assert(self.acked(reply.term, message.from) <= after.acked(
                    reply.term,
                    message.from,
                ));
            },
            RpcView::RequestVote(request) => {
                assert(message.from != id ==> after.fulls[message.from]
                    == self.fulls[message.from]);
            },
            _ => {},
        }
    }

    /// Another node's log and state stay in order.
    pub proof fn lemma_store_stays(
        self,
        after: Self,
        id: NodeId,
        node: NodeModel<MemoryStateMachine>,
    )
        requires
            self.grows(after, id),
            self.is_shaped(),
            self.acks_fit(),
            node.id != id,
            self.store_is_sound(node),
        ensures
            after.store_is_sound(node),
    {
        let full = self.fulls[node.id];
        assert(after.fulls[node.id] == full);
        self.lemma_coherent_grows(after, id, full);
        self.lemma_covered_grows(
            after,
            id,
            full,
            full,
            node.commit_index as int,
            node.current_term,
            node.current_term,
        );
        self.lemma_keeps_grows(
            after,
            id,
            node.id,
            full,
            Term::MAX + 1,
            node.current_term + 1,
            node.current_term + 1,
        );
        if let Some((transfer_id, transfer)) = node.incoming_snapshot {
            let snapshot = choose|snapshot: SnapshotView| #[trigger]
                self.carries(transfer_id, transfer, snapshot);
            self.lemma_backs_grows(after, id, snapshot, transfer.term);
            assert(after.carries(transfer_id, transfer, snapshot));
        }
    }

    pub proof fn lemma_office_stays(
        self,
        after: Self,
        id: NodeId,
        node: NodeModel<MemoryStateMachine>,
    )
        requires
            self.grows(after, id),
            node.id != id,
            self.has(node.current_term) && self.terms[node.current_term].owner == node.id
                ==> after.log(node.current_term) == self.log(node.current_term)
                && after.terms[node.current_term].done == self.terms[node.current_term].done,
            self.office_is_sound(node),
            after.watch == self.watch,
        ensures
            after.office_is_sound(node),
    {
        assert(after.fulls[node.id] == self.fulls[node.id]);
        if node.role == Role::Candidate {
            assert forall|voter: NodeId| #[trigger] node.granted_voters.contains(voter) implies
                after.is_member(voter) && (voter == node.id || after.claims(
                node.current_term,
                voter,
                node.id,
            )) by {
                if voter != node.id {
                    self.lemma_claims_grow(after, id, node.current_term, voter, node.id);
                }
            }
        }
        if node.role == Role::Leader {
            assert forall|peer: NodeId| #[trigger] node.match_index.contains_key(peer) implies {
                &&& after.is_member(peer)
                &&& node.match_index[peer] <= larger(
                    after.acked(node.current_term, peer),
                    node.log_base_index as int,
                )
            } by {
                assert(self.acked(node.current_term, peer) <= after.acked(node.current_term, peer));
            }
        }
    }

    /// A term in which nothing happened stays in order.
    pub proof fn lemma_term_stays(self, after: Self, id: NodeId, term: Term)
        requires
            self.grows(after, id),
            self.has(term),
            self.term_is_sound(term),
            after.terms[term] == self.terms[term],
            after.mark == self.mark,
        ensures
            after.term_is_sound(term),
    {
        let tenure = self.terms[term];
        self.lemma_coherent_grows(after, id, tenure.log);
        assert forall|voter: NodeId| #[trigger] tenure.voters.contains(voter) implies {
            let ballot = after.ballots[(term, voter)];
            &&& after.ballots.contains_key((term, voter))
            &&& ballot.candidate == tenure.owner
            &&& ballot.index == tenure.start
            &&& ballot.term == last_term(tenure.log.take(tenure.start))
        } by {
            assert(self.ballots.contains_key((term, voter)));
        }
        if tenure.done > 0 {
            assert forall|other: NodeId| #[trigger] tenure.storers.contains(other) implies
                after.acked(term, other) >= tenure.done by {
                assert(self.acked(term, other) <= after.acked(term, other));
            }
        }
        if let Some(mark) = self.mark {
            if mark.index >= 0 {
                self.lemma_log_grows(after, id, mark.term, mark.index);
            } else {
                assert(self.has(mark.term));
            }
            if after.holds(after.log(term), mark.term, mark.index) && mark.index >= 0 {
                assert(self.holds(self.log(term), mark.term, mark.index));
            }
        }
    }

    pub proof fn lemma_ballot_stays(self, after: Self, id: NodeId, term: Term, voter: NodeId)
        requires
            self.grows(after, id),
            self.is_shaped(),
            self.acks_fit(),
            self.ballots.contains_key((term, voter)),
            self.ballot_is_sound(term, voter),
            forall|earlier: Term|
                earlier < term ==> self.acked(earlier, voter) == #[trigger] after.acked(
                    earlier,
                    voter,
                ),
        ensures
            after.ballot_is_sound(term, voter),
    {
        let ballot = self.ballots[(term, voter)];
        assert(after.ballots[(term, voter)] == ballot);
        self.lemma_coherent_grows(after, id, ballot.log);
        self.lemma_keeps_grows(
            after,
            id,
            voter,
            ballot.log,
            term as int,
            term as int,
            term as int,
        );
    }
}

} // verus!
