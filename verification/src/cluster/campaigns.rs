//! What elections and the clock do, as the ledger sees it.
use crate::cluster::growth::lemma_beginning;
use crate::cluster::ledger::are_distinct;
use crate::cluster::ledger::is_complete_enough;
use crate::cluster::ledger::is_piece;
use crate::cluster::ledger::Ballot;
use crate::cluster::ledger::Ledger;
use crate::node::laws::histories::last_term;
use crate::node::laws::histories::law_batch_is_part_of_the_log;
use crate::node::laws::histories::lemma_full_terms;
use crate::node::laws::histories::lemma_same_full;
use crate::node::model::larger;
use crate::node::model::NodeModel;
use crate::node::model::PendingReadModel;
use crate::state_machine::MemoryStateMachine;
use crate::types::LogEntryView;
use crate::types::MessageView;
use crate::types::NodeId;
use crate::types::RequestVote;
use crate::types::Role;
use crate::types::RpcView;
use crate::types::SnapshotView;
use crate::types::Term;
use vstd::prelude::*;

verus! {

/// The node stays what it is in its term, or becomes a follower.
pub open spec fn stays(
    node: NodeModel<MemoryStateMachine>,
    next: NodeModel<MemoryStateMachine>,
) -> bool {
    &&& same_store(node, next)
    &&& next.next_read_id == node.next_read_id
    &&& {
        ||| {
            &&& next.current_term == node.current_term
            &&& next.role == node.role
            &&& next.granted_voters == node.granted_voters
            &&& next.match_index == node.match_index
            &&& next.next_index == node.next_index
            &&& next.term_start_index == node.term_start_index
            &&& next.pending_reads == node.pending_reads
            &&& next.voted_for == node.voted_for || (node.voted_for is None && node.role
                == Role::Follower)
        }
        ||| {
            &&& next.role == Role::Follower
            &&& next.pending_reads == Map::<
                u64,
                PendingReadModel,
            >::empty()
            &&& next.current_term > node.current_term || (next.current_term == node.current_term
                && node.role != Role::Follower)
        }
    }
}

/// The node's log and state are untouched.
pub open spec fn same_store(
    node: NodeModel<MemoryStateMachine>,
    next: NodeModel<MemoryStateMachine>,
) -> bool {
    &&& next.id == node.id
    &&& next.peers == node.peers
    &&& next.log == node.log
    &&& next.log_base_index == node.log_base_index
    &&& next.snapshot == node.snapshot
    &&& next.commit_index == node.commit_index
    &&& next.last_applied == node.last_applied
    &&& next.state == node.state
    &&& next.incoming_snapshot == node.incoming_snapshot
}

impl Ledger {
    /// A node's move, with the messages that it sends, is in order.
    pub open spec fn advances(
        self,
        after: Self,
        nodes: Seq<NodeModel<MemoryStateMachine>>,
        id: NodeId,
        next: NodeModel<MemoryStateMachine>,
        sent: Seq<MessageView>,
    ) -> bool {
        &&& self.goes_along(after, nodes, id, next)
        &&& forall|k: int|
            0 <= k < sent.len() ==> after.message_holds(
                nodes.update(id as int, next),
                #[trigger] sent[k],
            )
    }

    /// The node at `id` is there, with its peers.
    pub open spec fn is_ready(
        self,
        nodes: Seq<NodeModel<MemoryStateMachine>>,
        queue: Seq<MessageView>,
        id: NodeId,
    ) -> bool {
        &&& self.is_sound(nodes, queue)
        &&& id < nodes.len()
        &&& nodes[id as int].well_formed()
        &&& forall|i: int|
            0 <= i < nodes[id as int].peers.len() ==> self.is_member(
                #[trigger] nodes[id as int].peers[i],
            )
    }

    pub proof fn lemma_same_store(
        self,
        node: NodeModel<MemoryStateMachine>,
        next: NodeModel<MemoryStateMachine>,
    )
        requires
            self.store_is_sound(node),
            same_store(node, next),
            next.current_term >= node.current_term,
        ensures
            self.store_is_sound(next),
    {
        let full = self.fulls[node.id];
        lemma_same_full(node, next, full);
        let count = node.commit_index as int;
        if count > 0 {
            let term = choose|term: Term|
                term <= node.current_term && #[trigger] self.is_covered_by(full, count, term);
            assert(self.is_covered_by(full, count, term));
        }
        assert forall|term: Term, k: int|
            term < Term::MAX + 1 && 1 <= k <= self.acked(term, node.id) implies #[trigger] self.stands(
            full,
            term,
            k,
            next.current_term + 1,
        ) by {
            assert(self.stands(full, term, k, node.current_term + 1));
            if !self.holds(full, term, k) {
                let later = choose|later: Term|
                    self.has(later) && term < later < node.current_term + 1
                        && #[trigger] self.lacks(later, term, k);
                assert(self.lacks(later, term, k));
            }
        }
    }

    /// A move that leaves the node's log and state alone needs nothing new in the
    /// ledger.
    pub proof fn lemma_quiet(
        self,
        nodes: Seq<NodeModel<MemoryStateMachine>>,
        queue: Seq<MessageView>,
        id: NodeId,
        next: NodeModel<MemoryStateMachine>,
    )
        requires
            self.is_ready(nodes, queue, id),
            same_store(nodes[id as int], next),
            self.moves(self, nodes[id as int], next),
            self.office_is_sound(next),
        ensures
            self.advances(self, nodes, id, next, Seq::empty()),
            self.node_is_sound(next),
    {
        let node = nodes[id as int];
        assert(self.node_holds(nodes, id as int));
        self.lemma_same_store(node, next);
        assert forall|term: Term| #[trigger] self.has(term) implies self.log(term).take(
            self.log(term).len() as int,
        ) == self.log(term) by {
            assert(self.log(term).take(self.log(term).len() as int) =~= self.log(term));
        }
        assert(self.grows(self, id));
        assert forall|term: Term| #[trigger] self.has(term) && self.terms[term].owner == id implies {
            &&& term <= next.current_term
            &&& term == next.current_term ==> self.fulls[id] == self.log(term) && next.role
                != Role::Candidate
        } by {
            assert(self.term_holds(nodes, term));
        }
    }

    /// Who stays what it is, or becomes a follower, stays in order.
    pub proof fn lemma_stays(
        self,
        nodes: Seq<NodeModel<MemoryStateMachine>>,
        queue: Seq<MessageView>,
        id: NodeId,
        next: NodeModel<MemoryStateMachine>,
    )
        requires
            self.is_ready(nodes, queue, id),
            stays(nodes[id as int], next),
        ensures
            self.advances(self, nodes, id, next, Seq::empty()),
            self.node_is_sound(next),
    {
        let node = nodes[id as int];
        assert(self.node_holds(nodes, id as int));
        assert(self.moves(self, node, next));
        if next.role == Role::Leader {
            assert(self.notes_are_sound(node));
            assert forall|peer: NodeId| 1 <= #[trigger] next.next_for(peer) <= self.log(
                next.current_term,
            ).len() + 1 by {
                assert(node.next_for(peer) == next.next_for(peer));
            }
            assert(self.notes_are_sound(next));
        }
        assert(self.office_is_sound(next));
        self.lemma_quiet(nodes, queue, id, next);
    }

    pub proof fn lemma_covered_less(
        self,
        log: Seq<LogEntryView>,
        count: int,
        less: int,
        bound: Term,
    )
        requires
            self.is_shaped(),
            self.is_covered(log, count, bound),
            0 <= less <= count,
        ensures
            self.is_covered(log, less, bound),
    {
        if less > 0 {
            let term = choose|term: Term|
                term <= bound && #[trigger] self.is_covered_by(log, count, term);
            assert(self.has(term));
            lemma_beginning(log, self.log(term), count, less);
            assert(self.is_covered_by(log, less, term));
        }
    }

    /// What a leader sends of its log is in order.
    pub proof fn lemma_leader_sends(
        self,
        nodes: Seq<NodeModel<MemoryStateMachine>>,
        leader: NodeModel<MemoryStateMachine>,
        peer: NodeId,
    )
        requires
            self.is_shaped(),
            are_distinct(self.taken),
            leader.well_formed(),
            leader.role == Role::Leader,
            self.node_is_sound(leader),
            self.is_member(leader.id),
            self.is_member(peer),
            nodes[leader.id as int].log_base_index == leader.log_base_index,
            nodes[leader.id as int].commit_index == leader.commit_index,
        ensures
            self.message_holds(nodes, leader.append_message(peer)),
    {
        let full = self.fulls[leader.id];
        let term = leader.current_term;
        let message = leader.append_message(peer);
        let commit = leader.commit_index as int;
        assert(1 <= leader.next_for(peer) <= full.len() + 1);
        if let Some(snapshot) = leader.snapshot_due(peer) {
            let base = leader.log_base_index as int;
            self.lemma_covered_less(full, commit, base, term);
            assert(self.backs(snapshot, term));
            if let RpcView::InstallSnapshotChunk(chunk) = message.rpc {
                assert(is_piece(chunk, snapshot));
                assert(self.backs(snapshot, chunk.term));
            }
        } else {
            law_batch_is_part_of_the_log(leader, full, peer);
            if let RpcView::AppendEntries(request) = message.rpc {
                let prev = request.prev_log_index as int;
                assert(prev + request.entries.len() <= self.log(request.term).len());
                assert(self.is_covered(full, commit, term));
                assert(self.batch_is_sound(request));
            }
        }
        assert(self.message_is_sound(nodes, message));
    }

    pub proof fn lemma_leader_sends_all(
        self,
        nodes: Seq<NodeModel<MemoryStateMachine>>,
        leader: NodeModel<MemoryStateMachine>,
    )
        requires
            self.is_shaped(),
            are_distinct(self.taken),
            leader.well_formed(),
            leader.role == Role::Leader,
            self.node_is_sound(leader),
            self.is_member(leader.id),
            nodes[leader.id as int].log_base_index == leader.log_base_index,
            nodes[leader.id as int].commit_index == leader.commit_index,
            forall|i: int| 0 <= i < leader.peers.len() ==> self.is_member(#[trigger] leader.peers[i]),
        ensures
            forall|k: int|
                0 <= k < leader.append_messages().len() ==> self.message_holds(
                    nodes,
                    #[trigger] leader.append_messages()[k],
                ),
    {
        assert forall|k: int| 0 <= k < leader.append_messages().len() implies self.message_holds(
            nodes,
            #[trigger] leader.append_messages()[k],
        ) by {
            assert(self.is_member(leader.peers[k]));
            self.lemma_leader_sends(nodes, leader, leader.peers[k]);
        }
    }

    // ---- standing for election ----

    /// A node that campaigns.
    pub proof fn lemma_campaign(
        self,
        nodes: Seq<NodeModel<MemoryStateMachine>>,
        queue: Seq<MessageView>,
        id: NodeId,
        from: NodeModel<MemoryStateMachine>,
        now_ms: u64,
    )
        requires
            self.is_ready(nodes, queue, id),
            same_store(nodes[id as int], from),
            from.current_term >= nodes[id as int].current_term,
            from.current_term < u64::MAX,
            from.next_read_id == nodes[id as int].next_read_id,
            from.pending_reads == nodes[id as int].pending_reads || from.pending_reads
                == Map::<u64, PendingReadModel>::empty(),
        ensures
            ({
                let (next, sent) = from.start_election(now_ms);
                self.advances(self, nodes, id, next, sent)
            }),
    {
        let node = nodes[id as int];
        let (next, sent) = from.start_election(now_ms);
        let full = self.fulls[id];
        assert(self.node_holds(nodes, id as int));
        self.lemma_quiet(nodes, queue, id, next);
        lemma_same_full(node, from, full);
        lemma_full_terms(from, full);
        let later = nodes.update(id as int, next);
        assert(from.last_index() == full.len());
        assert forall|k: int| 0 <= k < sent.len() implies self.message_holds(
            later,
            #[trigger] sent[k],
        ) by {
            assert(self.is_member(node.peers[k]));
            if full.len() > 0 {
                assert(full.last() == full[full.len() - 1]);
            }
            assert(sent[k].rpc is RequestVote);
        }
    }

    /// A ballot is noted.
    proof fn lemma_ballot(
        self,
        nodes: Seq<NodeModel<MemoryStateMachine>>,
        queue: Seq<MessageView>,
        id: NodeId,
        next: NodeModel<MemoryStateMachine>,
        ballot: Ballot,
    ) -> (after: Ledger)
        requires
            self.is_ready(nodes, queue, id),
            self.advances(self, nodes, id, next, Seq::empty()),
            self.node_is_sound(next),
            same_store(nodes[id as int], next),
            !self.has(next.current_term),
            !self.ballots.contains_key((next.current_term, id)),
            next.voted_for == Some(ballot.candidate),
            ballot.candidate != id,
            self.is_member(ballot.candidate),
            ballot.log == self.fulls[id],
            ballot.term < next.current_term,
            is_complete_enough(ballot.index, ballot.term, ballot.log),
            ({
                let candidate = nodes[ballot.candidate as int];
                &&& candidate.current_term >= next.current_term
                &&& candidate.role == Role::Candidate && candidate.current_term
                    == next.current_term ==> {
                    &&& ballot.index == self.fulls[ballot.candidate].len()
                    &&& ballot.term == last_term(
                        self.fulls[ballot.candidate],
                    )
                }
            }),
        ensures
            self.goes_along(after, nodes, id, next),
            after.claims(next.current_term, id, ballot.candidate),
            after.size == self.size,
    {
        let node = nodes[id as int];
        let later = nodes.update(id as int, next);
        let full = self.fulls[id];
        let term = next.current_term;
        assert(self.node_holds(nodes, id as int));
        self.lemma_shape(nodes, queue);
        let after = Ledger { ballots: self.ballots.insert((term, id), ballot), ..self };
        assert(self.grows(after, id)) by {
            assert forall|t: Term| #[trigger] self.has(t) implies self.log(t).take(
                self.log(t).len() as int,
            ) == self.log(t) by {
                assert(self.log(t).take(self.log(t).len() as int) =~= self.log(t));
            }
            assert forall|t: Term, other: NodeId|
                self.acked(t, other) == #[trigger] after.acked(t, other) by {}
        }
        self.lemma_quiet_grown(after, nodes, queue, id, next);
        assert(after.ballot_is_sound(term, id)) by {
            self.lemma_coherent_grows(after, id, full);
            assert forall|t: Term, k: int|
                t < term && 1 <= k <= after.acked(t, id) implies #[trigger] after.stands(
                full,
                t,
                k,
                term as int,
            ) by {
                assert(self.acked(t, id) == after.acked(t, id));
                assert(self.stands(full, t, k, next.current_term + 1));
                if self.holds(full, t, k) {
                    assert(after.holds(full, t, k));
                } else {
                    let between = choose|between: Term|
                        self.has(between) && t < between < next.current_term + 1
                            && #[trigger] self.lacks(between, t, k);
                    assert(after.has(between));
                    assert(after.lacks(between, t, k));
                }
            }
            assert forall|i: int| 0 <= i < full.len() implies (#[trigger] full[i]).term < term by {
                assert(self.agrees(full, i + 1));
                assert(self.has(full[i].term));
            }
        }
        assert(after.ballot_is_kept(later, term, id));
        assert forall|t: Term, voter: NodeId|
            after.ballots.contains_key((t, voter)) implies #[trigger] self.ballot_goes_along(
            after,
            later,
            t,
            voter,
        ) by {
            if (t, voter) != (term, id) {
                assert(self.ballots.contains_key((t, voter)));
            }
        }
        after
    }

    proof fn lemma_asked(
        self,
        nodes: Seq<NodeModel<MemoryStateMachine>>,
        queue: Seq<MessageView>,
        id: NodeId,
        from: NodeId,
        request: RequestVote,
        now_ms: u64,
    )
        requires
            self.is_ready(nodes, queue, id),
            request.candidate_id == from,
        ensures
            ({
                let node = nodes[id as int];
                let (next, reply) = node.on_request_vote(request, now_ms);
                &&& same_store(node, next)
                &&& self.advances(self, nodes, id, next, Seq::empty())
                &&& self.node_is_sound(next)
                &&& reply.vote_granted ==> {
                    &&& next.current_term == request.term
                    &&& reply.term == request.term
                    &&& next.voted_for == Some(from)
                    &&& node.current_term == request.term ==> node.voted_for is None
                        || node.voted_for == Some(from)
                    &&& is_complete_enough(
                        request.last_log_index as int,
                        request.last_log_term,
                        self.fulls[id],
                    )
                }
            }),
    {
        let node = nodes[id as int];
        let (next, reply) = node.on_request_vote(request, now_ms);
        assert(self.node_holds(nodes, id as int));
        lemma_full_terms(node, self.fulls[id]);
        assert(node.role != Role::Follower ==> node.voted_for == Some(id));
        assert(stays(node, next));
        self.lemma_stays(nodes, queue, id, next);
    }

    /// A vote is asked for.
    pub proof fn lemma_vote(
        self,
        nodes: Seq<NodeModel<MemoryStateMachine>>,
        queue: Seq<MessageView>,
        id: NodeId,
        from: NodeId,
        request: RequestVote,
        now_ms: u64,
    ) -> (after: Ledger)
        requires
            self.is_ready(nodes, queue, id),
            self.is_member(from),
            self.candidacy_is_sound(nodes, from, request),
        ensures
            ({
                let (next, sent) = nodes[id as int].handle(
                    from,
                    RpcView::RequestVote(request),
                    now_ms,
                );
                self.advances(after, nodes, id, next, sent)
            }),
    {
        let node = nodes[id as int];
        let (next, reply) = node.on_request_vote(request, now_ms);
        let sent = node.handle(from, RpcView::RequestVote(request), now_ms).1;
        let later = nodes.update(id as int, next);
        let full = self.fulls[id];
        let term = request.term;
        assert(self.node_holds(nodes, id as int));
        self.lemma_asked(nodes, queue, id, from, request, now_ms);
        assert(sent.len() == 1);
        assert(sent[0].rpc == RpcView::RequestVoteReply(reply));
        if reply.vote_granted && self.ballots.contains_key((term, id)) {
            assert(self.ballot_holds(nodes, term, id));
        }
        if reply.vote_granted && from != id && self.has(term) {
            assert(self.term_holds(nodes, term));
            let tenure = self.terms[term];
            if tenure.voters.contains(id) {
                assert(self.ballots.contains_key((term, id)));
                if tenure.owner == id {
                    assert(full == tenure.log);
                    assert(full[full.len() - 1].term == term);
                    assert(false);
                }
            }
            assert(self.claims(term, id, from));
        }
        if reply.vote_granted && from != id && !self.has(term) && !self.ballots.contains_key(
            (term, id),
        ) {
            let ballot = Ballot {
                candidate: from,
                log: full,
                index: request.last_log_index as int,
                term: request.last_log_term,
            };
            let after = self.lemma_ballot(nodes, queue, id, next, ballot);
            assert(after.message_holds(later, sent[0]));
            after
        } else {
            if reply.vote_granted && from != id && !self.has(term) {
                assert(self.claims(term, id, from));
            }
            assert(self.message_holds(later, sent[0]));
            self
        }
    }

    /// As a quiet move, with a ledger that says nothing more of logs.
    pub proof fn lemma_quiet_grown(
        self,
        after: Ledger,
        nodes: Seq<NodeModel<MemoryStateMachine>>,
        queue: Seq<MessageView>,
        id: NodeId,
        next: NodeModel<MemoryStateMachine>,
    )
        requires
            self.is_ready(nodes, queue, id),
            self.advances(self, nodes, id, next, Seq::empty()),
            self.node_is_sound(next),
            self.grows(after, id),
            after.watch == self.watch,
            after.terms == self.terms,
            after.acks == self.acks,
            after.fulls == self.fulls,
        ensures
            after.node_is_sound(next),
            self.moves(after, nodes[id as int], next),
            forall|term: Term| after.has(term) ==> #[trigger] self.term_goes_along(after, term, id),
            forall|term: Term| #[trigger]
                after.has(term) && after.terms[term].owner == id ==> {
                    &&& term <= next.current_term
                    &&& term == next.current_term ==> after.fulls[id] == after.log(term)
                        && next.role != Role::Candidate
                },
            forall|term: Term, other: NodeId|
                after.acks.contains_key((term, other)) ==> #[trigger] self.ack_goes_along(
                    after,
                    term,
                    other,
                    id,
                    next.current_term,
                ),
            forall|term: Term| self.acked(term, id) == #[trigger] after.acked(term, id),
    {
        assert(self.node_holds(nodes, id as int));
        assert forall|term: Term| #[trigger]
            after.has(term) && after.terms[term].owner == id implies {
            &&& term <= next.current_term
            &&& term == next.current_term ==> after.fulls[id] == after.log(term) && next.role
                != Role::Candidate
        } by {
            assert(self.has(term));
        }
        let full = self.fulls[id];
        self.lemma_shape(nodes, queue);
        self.lemma_coherent_grows(after, id, full);
        self.lemma_covered_grows(
            after,
            id,
            full,
            full,
            next.commit_index as int,
            next.current_term,
            next.current_term,
        );
        self.lemma_keeps_grows(
            after,
            id,
            id,
            full,
            Term::MAX + 1,
            next.current_term + 1,
            next.current_term + 1,
        );
        if let Some((transfer_id, transfer)) = next.incoming_snapshot {
            let snapshot = choose|snapshot: SnapshotView| #[trigger]
                self.carries(transfer_id, transfer, snapshot);
            self.lemma_backs_grows(after, id, snapshot, transfer.term);
            assert(after.carries(transfer_id, transfer, snapshot));
        }
        if next.role == Role::Candidate {
            assert forall|voter: NodeId| #[trigger] next.granted_voters.contains(voter) implies
                after.is_member(voter) && (voter == id || after.claims(
                next.current_term,
                voter,
                id,
            )) by {
                if voter != id {
                    self.lemma_claims_grow(after, id, next.current_term, voter, id);
                }
            }
        }
        if next.role == Role::Leader {
            assert forall|peer: NodeId| #[trigger] next.match_index.contains_key(peer) implies {
                &&& after.is_member(peer)
                &&& next.match_index[peer] <= larger(
                    after.acked(next.current_term, peer),
                    next.log_base_index as int,
                )
            } by {
                assert(self.acked(next.current_term, peer) <= after.acked(
                    next.current_term,
                    peer,
                ));
            }
        }
    }
}

} // verus!
