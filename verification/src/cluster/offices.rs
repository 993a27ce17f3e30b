//! What a leader does, as the ledger sees it.
use crate::cluster::campaigns::same_store;
use crate::cluster::growth::lemma_beginning;
use crate::cluster::ledger::Ballot;
use crate::cluster::ledger::Ledger;
use crate::cluster::ledger::Tenure;
use crate::node::laws::histories::last_term;
use crate::node::laws::histories::lemma_pushed_full;
use crate::node::laws::tenure::touches;
use crate::node::model::larger;
use crate::node::model::NodeModel;
use crate::state_machine::MemoryStateMachine;
use crate::types::CommandView;
use crate::types::LogEntryView;
use crate::types::MessageView;
use crate::types::NodeId;
use crate::types::Role;
use crate::types::SnapshotView;
use crate::types::Term;
use vstd::prelude::*;

verus! {

impl Ledger {
    /// The ledger once the leader has one more entry.
    pub open spec fn append(self, id: NodeId, term: Term, entry: LogEntryView) -> Ledger {
        Ledger {
            terms: self.terms.insert(
                term,
                Tenure { log: self.log(term).push(entry), ..self.terms[term] },
            ),
            fulls: self.fulls.insert(id, self.fulls[id].push(entry)),
            ..self
        }
    }

    /// The ledger once the node is elected.
    pub open spec fn elect(self, id: NodeId, term: Term, voters: Set<NodeId>) -> Ledger {
        let full = self.fulls[id];
        let log = full.push(LogEntryView { term, command: CommandView::Noop });
        Ledger {
            terms: self.terms.insert(
                term,
                Tenure {
                    log,
                    start: full.len() as int,
                    owner: id,
                    voters,
                    done: 0,
                    storers: Set::empty(),
                },
            ),
            ballots: self.ballots.insert(
                (term, id),
                Ballot {
                    candidate: id,
                    log: full,
                    index: full.len() as int,
                    term: last_term(full),
                },
            ),
            fulls: self.fulls.insert(id, log),
            ..self
        }
    }

    /// The ledger once the leader has committed up to `index`.
    pub open spec fn commit(self, term: Term, index: int, storers: Set<NodeId>) -> Ledger {
        Ledger {
            terms: self.terms.insert(
                term,
                Tenure { done: index, storers, ..self.terms[term] },
            ),
            ..self
        }
    }

    /// A leader's log and state with one more entry.
    proof fn lemma_store_longer(
        self,
        after: Ledger,
        id: NodeId,
        node: NodeModel<MemoryStateMachine>,
        next: NodeModel<MemoryStateMachine>,
        entry: LogEntryView,
    )
        requires
            self.grows(after, id),
            self.is_shaped(),
            self.acks_fit(),
            node.id == id,
            node.well_formed(),
            self.store_is_sound(node),
            same_store(NodeModel { log: node.log.push(entry), ..node }, next),
            next.current_term == node.current_term,
            entry.term == node.current_term,
            after.fulls[id] == self.fulls[id].push(entry),
            after.has(entry.term),
            after.log(entry.term) == self.fulls[id].push(entry),
            forall|term: Term|
                term != entry.term ==> self.acked(term, id) == #[trigger] after.acked(term, id),
            after.acked(entry.term, id) <= self.fulls[id].len() + 1,
        ensures
            after.store_is_sound(next),
    {
        let old_full = self.fulls[id];
        let full = after.fulls[id];
        let count = node.commit_index as int;
        let base = node.log_base_index as int;
        lemma_pushed_full(node, next, old_full, entry);
        assert(full.take(old_full.len() as int) =~= old_full);
        assert(old_full.take(old_full.len() as int) =~= old_full);
        self.lemma_coherent_grows(after, id, old_full);
        assert forall|i: int| 0 < i <= full.len() implies #[trigger] after.agrees(full, i) by {
            if i <= old_full.len() {
                assert(after.agrees(old_full, i));
                lemma_beginning(full, old_full, old_full.len() as int, i);
            }
        }
        lemma_beginning(full, old_full, old_full.len() as int, count);
        self.lemma_covered_grows(
            after,
            id,
            old_full,
            full,
            count,
            node.current_term,
            node.current_term,
        );
        lemma_beginning(full, old_full, old_full.len() as int, base);
        if let Some((transfer_id, transfer)) = node.incoming_snapshot {
            let snapshot = choose|snapshot: SnapshotView| #[trigger]
                self.carries(transfer_id, transfer, snapshot);
            self.lemma_backs_grows(after, id, snapshot, transfer.term);
            assert(after.carries(transfer_id, transfer, snapshot));
        }
        assert forall|term: Term, k: int|
            term < Term::MAX + 1 && 1 <= k <= after.acked(term, id) implies #[trigger] after.stands(
            full,
            term,
            k,
            node.current_term + 1,
        ) by {
            if term == entry.term {
                assert(after.holds(full, term, k));
            } else {
                assert(self.acked(term, id) == after.acked(term, id));
                assert(self.stands(old_full, term, k, node.current_term + 1));
                assert(self.has(term));
                self.lemma_stands_grows(
                    after,
                    id,
                    old_full,
                    term,
                    k,
                    node.current_term + 1,
                    node.current_term + 1,
                );
                if after.holds(old_full, term, k) {
                    lemma_beginning(full, old_full, old_full.len() as int, k);
                    assert(after.holds(full, term, k));
                } else {
                    let later = choose|later: Term|
                        after.has(later) && term < later < node.current_term + 1
                            && #[trigger] after.lacks(later, term, k);
                    assert(after.lacks(later, term, k));
                }
            }
        }
    }

    // ---- elections ----

    /// Nobody is elected in a term that has had its leader.
    proof fn lemma_not_elected_twice(
        self,
        nodes: Seq<NodeModel<MemoryStateMachine>>,
        queue: Seq<MessageView>,
        id: NodeId,
        from: NodeId,
    )
        requires
            self.is_ready(nodes, queue, id),
            self.is_member(from),
            nodes[id as int].role == Role::Candidate,
            from == id || self.claims(nodes[id as int].current_term, from, id),
            nodes[id as int].granted_voters.insert(from).len() >= nodes[id as int].majority(),
        ensures
            !self.has(nodes[id as int].current_term),
            self.is_majority(nodes[id as int].granted_voters.insert(from)),
    {
        let node = nodes[id as int];
        let term = node.current_term;
        let voters = node.granted_voters.insert(from);
        assert(self.node_holds(nodes, id as int));
        self.lemma_size(nodes, queue);
        assert(self.is_majority(voters));
        if self.has(term) {
            assert(self.term_holds(nodes, term));
            let tenure = self.terms[term];
            assert(tenure.owner != id);
            let voter = self.lemma_majorities_meet(voters, tenure.voters);
            assert(self.ballots.contains_key((term, voter)));
            assert(self.ballot_holds(nodes, term, voter));
            assert(voter == id || self.claims(term, voter, id));
            assert(false);
        }
    }

    proof fn lemma_elect_grows(
        self,
        nodes: Seq<NodeModel<MemoryStateMachine>>,
        queue: Seq<MessageView>,
        id: NodeId,
        voters: Set<NodeId>,
    )
        requires
            self.is_ready(nodes, queue, id),
            nodes[id as int].role == Role::Candidate,
            !self.has(nodes[id as int].current_term),
        ensures
            ({
                let term = nodes[id as int].current_term;
                let after = self.elect(id, term, voters);
                &&& self.grows(after, id)
                &&& forall|t: Term|
                    t != term ==> self.acked(t, id) == #[trigger] after.acked(t, id)
                &&& after.acked(term, id) == self.fulls[id].len() + 1
            }),
    {
        let node = nodes[id as int];
        let term = node.current_term;
        let after = self.elect(id, term, voters);
        assert(self.node_holds(nodes, id as int));
        self.lemma_shape(nodes, queue);
        assert(!self.ballots.contains_key((term, id))) by {
            if self.ballots.contains_key((term, id)) {
                assert(self.ballot_holds(nodes, term, id));
            }
        }
        assert forall|t: Term| #[trigger] self.has(t) implies after.has(t) && after.terms[t]
            == self.terms[t] && self.log(t).take(self.log(t).len() as int) == self.log(t) by {
            assert(self.log(t).take(self.log(t).len() as int) =~= self.log(t));
        }
        assert forall|t: Term, other: NodeId|
            self.acked(t, other) <= #[trigger] after.acked(t, other) && (other != id || t != term
                ==> self.acked(t, other) == after.acked(t, other)) by {
            assert(0 <= self.acked(t, other));
            if t == term && self.acks.contains_key((t, other)) {
                assert(self.ack_is_sound(nodes, t, other));
            }
        }
    }

    proof fn lemma_elected_term(
        self,
        nodes: Seq<NodeModel<MemoryStateMachine>>,
        queue: Seq<MessageView>,
        id: NodeId,
        voters: Set<NodeId>,
    )
        requires
            self.is_ready(nodes, queue, id),
            nodes[id as int].role == Role::Candidate,
            !self.has(nodes[id as int].current_term),
            self.is_majority(voters),
            voters.contains(id),
            forall|voter: NodeId| #[trigger]
                voters.contains(voter) ==> voter == id || self.claims(
                    nodes[id as int].current_term,
                    voter,
                    id,
                ),
        ensures
            ({
                let term = nodes[id as int].current_term;
                let after = self.elect(id, term, voters);
                &&& after.term_is_sound(term)
                &&& after.ballot_is_sound(term, id)
            }),
    {
        let node = nodes[id as int];
        let term = node.current_term;
        let after = self.elect(id, term, voters);
        let full = self.fulls[id];
        let log = after.log(term);
        let start = full.len() as int;
        assert(self.node_holds(nodes, id as int));
        self.lemma_shape(nodes, queue);
        self.lemma_elect_grows(nodes, queue, id, voters);
        self.lemma_coherent_grows(after, id, full);
        assert(log.take(start) =~= full);
        assert(full.take(start) =~= full);
        assert forall|i: int| 0 < i <= log.len() implies #[trigger] after.agrees(log, i) by {
            if i <= start {
                assert(after.agrees(full, i));
                lemma_beginning(log, full, start, i);
            }
        }
        assert forall|voter: NodeId| #[trigger] voters.contains(voter) implies {
            let ballot = after.ballots[(term, voter)];
            &&& after.ballots.contains_key((term, voter))
            &&& ballot.candidate == id
            &&& ballot.index == start
            &&& ballot.term == last_term(log.take(start))
        } by {
            if voter != id {
                assert(self.claims(term, voter, id));
                assert(self.ballot_holds(nodes, term, voter));
            }
        }
        assert(after.leaves_key(term)) by {
            if let Some(mark) = self.mark {
                self.lemma_log_grows(after, id, mark.term, mark.index);
                if after.holds(log, mark.term, mark.index) {
                    let index = mark.index;
                    if index > start {
                        assert(log.take(index)[index - 1] == self.log(mark.term).take(index)[index
                            - 1]);
                        assert(self.term_holds(nodes, mark.term));
                        assert(self.agrees(self.log(mark.term), index));
                        assert(false);
                    }
                    assert forall|i: int| index <= i < log.len() implies !touches(
                        (#[trigger] log[i]).command,
                        mark.key,
                    ) by {
                        if i < start {
                            let last = full[start - 1].term;
                            assert(self.agrees(full, start));
                            assert(self.term_holds(nodes, last));
                            lemma_beginning(log, full, start, index);
                            lemma_beginning(full, self.log(last), start, index);
                            assert(self.holds(self.log(last), mark.term, index));
                            assert(full.take(start)[i] == self.log(last).take(start)[i]);
                            assert(!touches(self.log(last)[i].command, mark.key));
                        }
                    }
                }
            }
        }
        assert(after.keeps(id, full, term as int, term as int)) by {
            assert forall|t: Term, k: int|
                t < term && 1 <= k <= after.acked(t, id) implies #[trigger] after.stands(
                full,
                t,
                k,
                term as int,
            ) by {
                assert(self.acked(t, id) == after.acked(t, id));
                assert(self.stands(full, t, k, node.current_term + 1));
                assert(self.has(t));
                self.lemma_log_grows(after, id, t, k);
                if self.holds(full, t, k) {
                    assert(after.holds(full, t, k));
                } else {
                    let between = choose|between: Term|
                        self.has(between) && t < between < node.current_term + 1
                            && #[trigger] self.lacks(between, t, k);
                    assert(after.has(between));
                    assert(after.lacks(between, t, k));
                }
            }
        }
    }

    /// A candidate is elected.
    pub proof fn lemma_elected(
        self,
        nodes: Seq<NodeModel<MemoryStateMachine>>,
        queue: Seq<MessageView>,
        id: NodeId,
        from: NodeId,
        now_ms: u64,
    ) -> (after: Ledger)
        requires
            self.is_ready(nodes, queue, id),
            self.is_member(from),
            nodes[id as int].role == Role::Candidate,
            from == id || self.claims(nodes[id as int].current_term, from, id),
            nodes[id as int].granted_voters.insert(from).len() >= nodes[id as int].majority(),
            nodes[id as int].last_index() + 1 < usize::MAX,
        ensures
            ({
                let node = nodes[id as int];
                let voters = node.granted_voters.insert(from);
                let (next, sent) = NodeModel {
                    granted_voters: voters,
                    votes_granted: voters.len() as usize,
                    ..node
                }.become_leader(now_ms);
                self.advances(after, nodes, id, next, sent)
            }),
    {
        let node = nodes[id as int];
        let term = node.current_term;
        let voters = node.granted_voters.insert(from);
        let counted = NodeModel {
            granted_voters: voters,
            votes_granted: voters.len() as usize,
            ..node
        };
        let (next, sent) = counted.become_leader(now_ms);
        let later = nodes.update(id as int, next);
        let full = self.fulls[id];
        let after = self.elect(id, term, voters);
        let entry = LogEntryView { term, command: CommandView::Noop };
        assert(self.node_holds(nodes, id as int));
        self.lemma_shape(nodes, queue);
        self.lemma_not_elected_twice(nodes, queue, id, from);
        self.lemma_elect_grows(nodes, queue, id, voters);
        self.lemma_elected_term(nodes, queue, id, voters);
        self.lemma_store_longer(after, id, node, next, entry);
        assert(after.notes_are_sound(next)) by {
            let peers = node.peers.to_set();
            assert(next.match_index.dom() =~= peers.insert(id)) by {
                assert forall|peer: NodeId| #[trigger]
                    next.match_index.dom().contains(peer) <==> peers.insert(id).contains(peer) by {}
            }
            assert(next.match_index.dom().finite());
            assert forall|peer: NodeId| #[trigger] next.match_index.contains_key(peer) implies {
                &&& after.is_member(peer)
                &&& next.match_index[peer] <= larger(
                    after.acked(term, peer),
                    next.log_base_index as int,
                )
            } by {
                if peer != id {
                    let i = choose|i: int| 0 <= i < node.peers.len() && node.peers[i] == peer;
                    assert(self.is_member(node.peers[i]));
                    assert(self.acked(term, peer) == after.acked(term, peer));
                    assert(0 <= self.acked(term, peer));
                }
            }
            assert forall|peer: NodeId| 1 <= #[trigger] next.next_for(peer) <= after.log(term).len()
                + 1 by {}
        }
        assert(after.office_is_sound(next));
        assert(self.moves(after, node, next));
        assert forall|t: Term| after.has(t) implies #[trigger] self.term_goes_along(
            after,
            t,
            id,
        ) by {}
        assert forall|t: Term| #[trigger] after.has(t) && after.terms[t].owner == id implies {
            &&& t <= next.current_term
            &&& t == next.current_term ==> after.fulls[id] == after.log(t) && next.role
                != Role::Candidate
        } by {
            if t != term {
                assert(self.has(t));
                assert(self.term_holds(nodes, t));
            }
        }
        assert forall|t: Term, voter: NodeId|
            after.ballots.contains_key((t, voter)) implies #[trigger] self.ballot_goes_along(
            after,
            later,
            t,
            voter,
        ) by {
            if (t, voter) != (term, id) {
                assert(self.ballots.contains_key((t, voter)));
            } else {
                assert(after.ballot_is_kept(later, term, id));
            }
        }
        assert(self.goes_along(after, nodes, id, next));
        assert(after.is_shaped()) by {
            assert forall|t: Term| #[trigger] after.has(t) implies {
                &&& 0 <= after.terms[t].start < after.log(t).len()
                &&& after.terms[t].done <= after.log(t).len()
            } by {
                if t != term {
                    assert(self.has(t));
                }
            }
        }
        assert(next.well_formed());
        assert forall|i: int| 0 <= i < next.peers.len() implies after.is_member(
            #[trigger] next.peers[i],
        ) by {
            assert(self.is_member(node.peers[i]));
        }
        after.lemma_leader_sends_all(later, next);
        after
    }

    // ---- writes ----

    /// A leader takes a write.
    pub proof fn lemma_write(
        self,
        nodes: Seq<NodeModel<MemoryStateMachine>>,
        queue: Seq<MessageView>,
        id: NodeId,
        command: CommandView,
    ) -> (after: Ledger)
        requires
            self.is_ready(nodes, queue, id),
            nodes[id as int].role == Role::Leader,
            nodes[id as int].last_index() + 1 < usize::MAX,
            self.mark matches Some(mark) ==> !touches(command, mark.key),
        ensures
            ({
                let next = nodes[id as int].proposed(command);
                let term = next.current_term;
                &&& self.advances(after, nodes, id, next, next.append_messages())
                &&& after == self.append(id, term, LogEntryView { term, command })
            }),
    {
        let node = nodes[id as int];
        let next = node.proposed(command);
        let later = nodes.update(id as int, next);
        let term = node.current_term;
        let entry = LogEntryView { term, command };
        let after = self.append(id, term, entry);
        assert(self.node_holds(nodes, id as int));
        self.lemma_shape(nodes, queue);
        assert(self.term_holds(nodes, term));
        let tenure = self.terms[term];
        let log = after.log(term);
        let length = tenure.log.len() as int;
        assert forall|t: Term| #[trigger] self.has(t) implies after.log(t).take(
            self.log(t).len() as int,
        ) == self.log(t) by {
            assert(after.log(t).take(self.log(t).len() as int) =~= self.log(t));
        }
        assert forall|t: Term, other: NodeId|
            self.acked(t, other) <= #[trigger] after.acked(t, other) && (other != id || t != term
                ==> self.acked(t, other) == after.acked(t, other)) by {}
        assert(self.grows(after, id));
        self.lemma_store_longer(after, id, node, next, entry);
        self.lemma_coherent_grows(after, id, tenure.log);
        assert(log.take(length) =~= tenure.log);
        assert(tenure.log.take(length) =~= tenure.log);
        assert(after.term_is_sound(term)) by {
            assert forall|i: int| 0 < i <= log.len() implies #[trigger] after.agrees(log, i) by {
                if i <= length {
                    assert(after.agrees(tenure.log, i));
                    lemma_beginning(log, tenure.log, length, i);
                }
            }
            assert(log.take(tenure.start) =~= tenure.log.take(tenure.start));
            assert forall|voter: NodeId| #[trigger] tenure.voters.contains(voter) implies {
                let ballot = after.ballots[(term, voter)];
                &&& after.ballots.contains_key((term, voter))
                &&& ballot.candidate == tenure.owner
                &&& ballot.index == tenure.start
                &&& ballot.term == last_term(log.take(tenure.start))
            } by {
                assert(self.ballots.contains_key((term, voter)));
            }
            if tenure.done > 0 {
                assert forall|other: NodeId| #[trigger] tenure.storers.contains(other) implies
                    after.acked(term, other) >= tenure.done by {
                    assert(self.acked(term, other) <= after.acked(term, other));
                }
            }
            if let Some(mark) = self.mark {
                let index = mark.index;
                self.lemma_log_grows(after, id, mark.term, index);
                if after.holds(log, mark.term, index) {
                    if index > length {
                        assert(log.take(index)[index - 1] == self.log(mark.term).take(index)[index
                            - 1]);
                        assert(self.term_holds(nodes, mark.term));
                        assert(self.agrees(self.log(mark.term), index));
                        assert(false);
                    }
                    lemma_beginning(log, tenure.log, length, index);
                    assert(self.holds(tenure.log, mark.term, index));
                    assert forall|i: int| index <= i < log.len() implies !touches(
                        (#[trigger] log[i]).command,
                        mark.key,
                    ) by {
                        if i < length {
                            assert(!touches(self.log(term)[i].command, mark.key));
                        }
                    }
                }
            }
        }
        assert(after.notes_are_sound(next)) by {
            assert(next.match_index.dom() =~= node.match_index.dom().insert(id));
            assert forall|peer: NodeId| #[trigger] next.match_index.contains_key(peer) implies {
                &&& after.is_member(peer)
                &&& next.match_index[peer] <= larger(
                    after.acked(term, peer),
                    next.log_base_index as int,
                )
            } by {
                if peer != id {
                    assert(node.match_index.contains_key(peer));
                    assert(self.acked(term, peer) == after.acked(term, peer));
                }
            }
            assert forall|peer: NodeId| 1 <= #[trigger] next.next_for(peer) <= after.log(term).len()
                + 1 by {
                assert(1 <= node.next_for(peer) <= self.log(term).len() + 1);
            }
        }
        assert(after.office_is_sound(next));
        assert(self.moves(after, node, next));
        assert forall|t: Term| after.has(t) implies #[trigger] self.term_goes_along(
            after,
            t,
            id,
        ) by {}
        assert forall|t: Term| #[trigger] after.has(t) && after.terms[t].owner == id implies {
            &&& t <= next.current_term
            &&& t == next.current_term ==> after.fulls[id] == after.log(t) && next.role
                != Role::Candidate
        } by {
            assert(self.has(t));
            assert(self.term_holds(nodes, t));
        }
        assert(self.goes_along(after, nodes, id, next));
        assert(after.is_shaped()) by {
            assert forall|t: Term| #[trigger] after.has(t) implies {
                &&& 0 <= after.terms[t].start < after.log(t).len()
                &&& after.terms[t].done <= after.log(t).len()
            } by {
                assert(self.has(t));
            }
        }
        assert(next.well_formed());
        assert forall|i: int| 0 <= i < next.peers.len() implies after.is_member(
            #[trigger] next.peers[i],
        ) by {
            assert(self.is_member(node.peers[i]));
        }
        after.lemma_leader_sends_all(later, next);
        after
    }
}

} // verus!
