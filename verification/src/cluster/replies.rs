//! What a leader makes of the replies that it gets, as the ledger sees it.
use crate::cluster::campaigns::same_store;
use crate::cluster::ledger::is_piece;
use crate::cluster::ledger::Ledger;
use crate::kv_map::pairs_map;
use crate::node::laws::histories::contents;
use crate::node::laws::histories::is_in_full;
use crate::node::laws::histories::lemma_full_terms;
use crate::node::laws::histories::lemma_same_full;
use crate::node::model::larger;
use crate::node::model::NodeModel;
use crate::node::replication::lemma_apply_committed_frame;
use crate::node::replication::lemma_commit_point;
use crate::state_machine::MemoryStateMachine;
use crate::types::AppendEntriesReply;
use crate::types::InstallSnapshotChunkReply;
use crate::types::InstallSnapshotReply;
use crate::types::LogIndex;
use crate::types::MessageView;
use crate::types::NodeId;
use crate::types::Role;
use crate::types::RpcView;
use crate::types::SnapshotView;
use crate::types::Term;
use vstd::prelude::*;

verus! {

impl Ledger {
    /// The node's log is in order, and its state up to what it has applied.
    pub open spec fn waits_to_apply(self, node: NodeModel<MemoryStateMachine>) -> bool {
        let full = self.fulls[node.id];
        let base = node.log_base_index as int;
        let commit = node.commit_index as int;
        let applied = node.last_applied as int;
        &&& is_in_full(node, full)
        &&& self.is_coherent(full)
        &&& forall|i: int| 0 <= i < full.len() ==> (#[trigger] full[i]).term <= node.current_term
        &&& base <= applied <= commit <= full.len()
        &&& self.is_covered(full, commit, node.current_term)
        &&& node.state.last_applied == applied
        &&& node.state.data == contents(full.take(applied))
        &&& node.state.data.dom().finite()
        &&& base > 0 ==> node.snapshot is Some
        &&& node.snapshot matches Some(snapshot) ==> {
            &&& base > 0
            &&& self.taken.contains(snapshot)
            &&& snapshot.valid()
            &&& snapshot.last_included_index == base
            &&& snapshot.last_included_term == full[base - 1].term
            &&& pairs_map(snapshot.state.data) == contents(full.take(base))
        }
        &&& node.incoming_snapshot matches Some((id, transfer)) ==> exists|snapshot: SnapshotView|
            #[trigger] self.carries(id, transfer, snapshot)
        &&& self.keeps(node.id, full, Term::MAX + 1, node.current_term + 1)
    }

    pub proof fn lemma_apply(self, node: NodeModel<MemoryStateMachine>)
        requires
            self.waits_to_apply(node),
        ensures
            self.store_is_sound(node.apply_committed().0),
    {
        let next = node.apply_committed().0;
        let full = self.fulls[node.id];
        lemma_apply_committed_frame(node);
        lemma_same_full(node, next, full);
        node.lemma_applied_shows(full);
    }

    /// A leader that has its notes changed only.
    pub open spec fn is_noted(
        self,
        node: NodeModel<MemoryStateMachine>,
        next: NodeModel<MemoryStateMachine>,
    ) -> bool {
        &&& same_store(node, next)
        &&& next.role == Role::Leader
        &&& node.role == Role::Leader
        &&& next.current_term == node.current_term
        &&& next.voted_for == node.voted_for
        &&& next.pending_reads == node.pending_reads
        &&& next.next_read_id == node.next_read_id
        &&& next.term_start_index == node.term_start_index
        &&& next.match_index.dom().finite()
        &&& forall|peer: NodeId| 1 <= #[trigger] next.next_for(peer) <= self.fulls[node.id].len()
            + 1
        &&& forall|peer: NodeId| #[trigger]
            next.match_index.contains_key(peer) ==> {
                &&& self.is_member(peer)
                &&& next.match_index[peer] <= larger(
                    self.acked(next.current_term, peer),
                    next.log_base_index as int,
                )
            }
    }

    pub proof fn lemma_noted(
        self,
        nodes: Seq<NodeModel<MemoryStateMachine>>,
        queue: Seq<MessageView>,
        id: NodeId,
        next: NodeModel<MemoryStateMachine>,
    )
        requires
            self.is_ready(nodes, queue, id),
            self.is_noted(nodes[id as int], next),
        ensures
            self.advances(self, nodes, id, next, Seq::empty()),
            self.node_is_sound(next),
    {
        let node = nodes[id as int];
        assert(self.node_holds(nodes, id as int));
        assert(self.notes_are_sound(node));
        assert(self.notes_are_sound(next));
        assert(self.office_is_sound(next));
        assert(self.moves(self, node, next));
        self.lemma_quiet(nodes, queue, id, next);
    }

    /// A peer is noted to have the log up to `index`.
    pub proof fn lemma_acknowledged(
        self,
        nodes: Seq<NodeModel<MemoryStateMachine>>,
        queue: Seq<MessageView>,
        id: NodeId,
        from: NodeId,
        index: LogIndex,
        now_ms: u64,
    )
        requires
            self.is_ready(nodes, queue, id),
            nodes[id as int].role == Role::Leader,
            self.is_member(from),
            index <= self.acked(nodes[id as int].current_term, from),
        ensures
            self.is_noted(
                nodes[id as int],
                nodes[id as int].contacted(from, now_ms).acknowledged(from, index),
            ),
    {
        let node = nodes[id as int];
        let next = node.contacted(from, now_ms).acknowledged(from, index);
        let term = node.current_term;
        assert(self.node_holds(nodes, id as int));
        self.lemma_shape(nodes, queue);
        assert(self.notes_are_sound(node));
        assert(self.acked(term, from) <= self.log(term).len() || self.acked(term, from) <= 0);
        assert(next.match_index.dom() =~= node.match_index.dom().insert(from));
        let matched = larger(node.matched_by(from) as int, index as int);
        assert(0 <= matched <= larger(self.acked(term, from), node.log_base_index as int)) by {
            if node.match_index.contains_key(from) {
                assert(node.match_index[from] <= larger(
                    self.acked(term, from),
                    node.log_base_index as int,
                ));
            }
        }
        assert(matched < usize::MAX);
        assert forall|peer: NodeId| 1 <= #[trigger] next.next_for(peer) <= self.fulls[id].len()
            + 1 by {
            assert(1 <= node.next_for(peer) <= self.log(term).len() + 1);
        }
        assert forall|peer: NodeId| #[trigger] next.match_index.contains_key(peer) implies {
            &&& self.is_member(peer)
            &&& next.match_index[peer] <= larger(
                self.acked(term, peer),
                next.log_base_index as int,
            )
        } by {
            if peer != from {
                assert(node.match_index.contains_key(peer));
            }
        }
    }

    proof fn lemma_point(
        self,
        nodes: Seq<NodeModel<MemoryStateMachine>>,
        queue: Seq<MessageView>,
        id: NodeId,
        noted: NodeModel<MemoryStateMachine>,
        point: int,
    )
        requires
            self.is_ready(nodes, queue, id),
            self.is_noted(nodes[id as int], noted),
            noted.commit_index < point <= noted.last_index(),
            noted.committable(point),
        ensures
            ({
                let term = noted.current_term;
                let after = self.commit(term, point, noted.holders(point));
                &&& self.grows(after, id)
                &&& after.term_is_sound(term)
                &&& forall|t: Term, other: NodeId|
                    self.acked(t, other) == #[trigger] after.acked(t, other)
            }),
    {
        let node = nodes[id as int];
        let term = noted.current_term;
        let storers = noted.holders(point);
        let after = self.commit(term, point, storers);
        let full = self.fulls[id];
        assert(self.node_holds(nodes, id as int));
        assert(self.notes_are_sound(node));
        assert(self.term_holds(nodes, term));
        let tenure = self.terms[term];
        assert forall|t: Term| #[trigger] self.has(t) implies after.log(t).take(
            self.log(t).len() as int,
        ) == self.log(t) by {
            assert(self.log(t).take(self.log(t).len() as int) =~= self.log(t));
        }
        assert forall|t: Term, other: NodeId|
            self.acked(t, other) == #[trigger] after.acked(t, other) by {}
        assert(self.grows(after, id));
        self.lemma_coherent_grows(after, id, tenure.log);
        lemma_same_full(node, noted, full);
        lemma_full_terms(noted, full);
        assert(noted.term_at(point) == Some(full[point - 1].term));
        assert(after.is_majority(storers)) by {
            assert forall|other: NodeId| #[trigger] storers.contains(other) implies self.is_member(
                other,
            ) by {
                assert(noted.match_index.contains_key(other));
            }
        }
        assert forall|other: NodeId| #[trigger] storers.contains(other) implies after.acked(
            term,
            other,
        ) >= point by {
            assert(noted.match_index.contains_key(other));
            assert(self.acked(term, other) == after.acked(term, other));
        }
        if let Some(mark) = self.mark {
            self.lemma_log_grows(after, id, mark.term, mark.index);
        }
        assert(after.leaves_key(term));
    }

    /// A leader commits what a majority stores, and applies it.
    pub proof fn lemma_commit_advances(
        self,
        nodes: Seq<NodeModel<MemoryStateMachine>>,
        queue: Seq<MessageView>,
        id: NodeId,
        noted: NodeModel<MemoryStateMachine>,
    ) -> (after: Ledger)
        requires
            self.is_ready(nodes, queue, id),
            self.is_noted(nodes[id as int], noted),
        ensures
            self.advances(after, nodes, id, noted.commit_advanced(), Seq::empty()),
            after.has(noted.current_term),
            after.size == self.size,
    {
        let node = nodes[id as int];
        let term = noted.current_term;
        let next = noted.commit_advanced();
        let full = self.fulls[id];
        assert(self.node_holds(nodes, id as int));
        self.lemma_shape(nodes, queue);
        assert(self.notes_are_sound(node));
        lemma_same_full(node, noted, full);
        let point = noted.commit_point(noted.last_index());
        lemma_commit_point(noted, noted.last_index());
        let committed = NodeModel { commit_index: point as LogIndex, ..noted };
        assert(next == committed.apply_committed().0);
        lemma_apply_committed_frame(committed);
        lemma_same_full(noted, committed, full);
        let after = if point == noted.commit_index {
            self
        } else {
            self.commit(term, point, noted.holders(point))
        };
        if point == noted.commit_index {
            self.lemma_noted(nodes, queue, id, noted);
            assert(self.grows(after, id));
        } else {
            self.lemma_point(nodes, queue, id, noted, point);
        }
        assert(after.waits_to_apply(committed)) by {
            self.lemma_coherent_grows(after, id, full);
            if point == noted.commit_index {
                self.lemma_covered_grows(
                    after,
                    id,
                    full,
                    full,
                    point,
                    node.current_term,
                    node.current_term,
                );
            } else {
                assert(after.is_covered_by(full, point, term));
            }
            self.lemma_keeps_grows(
                after,
                id,
                id,
                full,
                Term::MAX + 1,
                term + 1,
                term + 1,
            );
            if let Some((transfer_id, transfer)) = node.incoming_snapshot {
                let snapshot = choose|snapshot: SnapshotView| #[trigger]
                    self.carries(transfer_id, transfer, snapshot);
                self.lemma_backs_grows(after, id, snapshot, transfer.term);
                assert(after.carries(transfer_id, transfer, snapshot));
            }
        }
        after.lemma_apply(committed);
        assert(after.notes_are_sound(next)) by {
            assert forall|peer: NodeId| 1 <= #[trigger] next.next_for(peer) <= after.log(term).len()
                + 1 by {
                assert(1 <= noted.next_for(peer) <= self.fulls[id].len() + 1);
            }
            assert forall|peer: NodeId| #[trigger] next.match_index.contains_key(peer) implies {
                &&& after.is_member(peer)
                &&& next.match_index[peer] <= larger(
                    after.acked(term, peer),
                    next.log_base_index as int,
                )
            } by {
                assert(noted.match_index.contains_key(peer));
                assert(self.acked(term, peer) == after.acked(term, peer));
            }
        }
        assert(after.office_is_sound(next));
        assert(self.moves(after, node, next));
        assert forall|t: Term| after.has(t) implies #[trigger] self.term_goes_along(
            after,
            t,
            id,
        ) by {}
        assert forall|t: Term| #[trigger] after.has(t) && after.terms[t].owner == id implies {
            &&& t <= next.current_term
            &&& t == next.current_term ==> after.fulls[id] == after.log(t) && next.role
                != Role::Candidate
        } by {
            assert(self.has(t));
            assert(self.term_holds(nodes, t));
        }
        assert(self.goes_along(after, nodes, id, next));
        after
    }

    /// What the ledger does not speak of may be otherwise.
    pub proof fn lemma_alike(
        self,
        after: Ledger,
        nodes: Seq<NodeModel<MemoryStateMachine>>,
        queue: Seq<MessageView>,
        id: NodeId,
        next: NodeModel<MemoryStateMachine>,
        other: NodeModel<MemoryStateMachine>,
    )
        requires
            self.is_ready(nodes, queue, id),
            self.advances(after, nodes, id, next, Seq::empty()),
            same_store(NodeModel { incoming_snapshot: other.incoming_snapshot, ..next }, other),
            other.role == next.role,
            other.current_term == next.current_term,
            other.voted_for == next.voted_for,
            other.granted_voters == next.granted_voters,
            other.next_index == next.next_index,
            other.match_index == next.match_index,
            other.term_start_index == next.term_start_index,
            other.pending_reads == next.pending_reads,
            other.next_read_id == next.next_read_id,
            other.incoming_snapshot != next.incoming_snapshot ==> {
                other.incoming_snapshot matches Some((transfer_id, transfer)) ==> exists|
                    snapshot: SnapshotView,
                | #[trigger] after.carries(transfer_id, transfer, snapshot)
            },
        ensures
            self.advances(after, nodes, id, other, Seq::empty()),
    {
        let full = after.fulls[next.id];
        let later = nodes.update(id as int, next);
        let otherwise = nodes.update(id as int, other);
        assert(self.node_holds(nodes, id as int));
        lemma_same_full(next, other, full);
        if next.role == Role::Leader {
            assert(after.notes_are_sound(next));
            assert forall|peer: NodeId| 1 <= #[trigger] other.next_for(peer) <= after.log(
                next.current_term,
            ).len() + 1 by {
                assert(next.next_for(peer) == other.next_for(peer));
            }
            assert(after.notes_are_sound(other));
        }
        assert(after.office_is_sound(other));
        assert(after.store_is_sound(other));
        assert forall|term: Term, voter: NodeId|
            after.ballots.contains_key((term, voter)) implies #[trigger] self.ballot_goes_along(
            after,
            otherwise,
            term,
            voter,
        ) by {
            assert(self.ballot_goes_along(after, later, term, voter));
            if !self.ballots.contains_key((term, voter)) {
                assert(after.ballot_is_sound(term, voter));
                assert(after.ballot_is_kept(later, term, voter));
                assert(after.ballot_is_kept(otherwise, term, voter));
            }
        }
    }

    /// A reply to a batch.
    pub proof fn lemma_append_reply(
        self,
        nodes: Seq<NodeModel<MemoryStateMachine>>,
        queue: Seq<MessageView>,
        id: NodeId,
        from: NodeId,
        reply: AppendEntriesReply,
        now_ms: u64,
    ) -> (after: Ledger)
        requires
            self.is_ready(nodes, queue, id),
            self.is_member(from),
            reply.success ==> self.has(reply.term) && reply.match_index <= self.acked(
                reply.term,
                from,
            ),
        ensures
            ({
                let (next, sent) = nodes[id as int].on_append_reply(from, reply, now_ms);
                self.advances(after, nodes, id, next, sent)
            }),
    {
        let node = nodes[id as int];
        let (next, sent) = node.on_append_reply(from, reply, now_ms);
        let later = nodes.update(id as int, next);
        assert(self.node_holds(nodes, id as int));
        self.lemma_shape(nodes, queue);
        if reply.term > node.current_term || !node.hears_peer(from, reply.term) {
            self.lemma_stays(nodes, queue, id, next);
            self
        } else if reply.success {
            self.lemma_acknowledged(nodes, queue, id, from, reply.match_index, now_ms);
            let noted = node.contacted(from, now_ms).acknowledged(from, reply.match_index);
            let after = self.lemma_commit_advances(nodes, queue, id, noted);
            let advanced = noted.commit_advanced();
            if sent.len() > 0 {
                self.lemma_alike(after, nodes, queue, id, advanced, next);
                lemma_apply_committed_frame(
                    NodeModel {
                        commit_index: noted.commit_point(noted.last_index()) as LogIndex,
                        ..noted
                    },
                );
                assert(sent[0] == next.timeout_message(from));
                assert(after.message_holds(later, sent[0]));
            }
            after
        } else {
            assert(self.notes_are_sound(node));
            assert forall|peer: NodeId| 1 <= #[trigger] next.next_for(peer) <= self.fulls[id].len()
                + 1 by {
                assert(1 <= node.next_for(peer) <= self.log(node.current_term).len() + 1);
                assert(1 <= node.next_for(from) <= self.log(node.current_term).len() + 1);
            }
            assert(self.is_noted(node, next));
            self.lemma_noted(nodes, queue, id, next);
            lemma_same_full(node, next, self.fulls[id]);
            self.lemma_leader_sends(later, next, from);
            self
        }
    }

    /// A reply to a snapshot.
    pub proof fn lemma_install_reply(
        self,
        nodes: Seq<NodeModel<MemoryStateMachine>>,
        queue: Seq<MessageView>,
        id: NodeId,
        from: NodeId,
        reply: InstallSnapshotReply,
        now_ms: u64,
    )
        requires
            self.is_ready(nodes, queue, id),
            self.is_member(from),
            reply.accepted ==> self.has(reply.term) && reply.last_included_index <= self.acked(
                reply.term,
                from,
            ),
        ensures
            ({
                let (next, sent) = nodes[id as int].on_install_reply(from, reply, now_ms);
                self.advances(self, nodes, id, next, sent)
            }),
    {
        let node = nodes[id as int];
        let (next, sent) = node.on_install_reply(from, reply, now_ms);
        let later = nodes.update(id as int, next);
        assert(self.node_holds(nodes, id as int));
        self.lemma_shape(nodes, queue);
        if reply.term > node.current_term || !node.hears_acceptance(reply) {
            self.lemma_stays(nodes, queue, id, next);
        } else {
            self.lemma_acknowledged(nodes, queue, id, from, reply.last_included_index, now_ms);
            self.lemma_noted(nodes, queue, id, next);
            self.lemma_leader_sends(later, next, from);
        }
    }

    /// A reply to a piece of a snapshot.
    pub proof fn lemma_chunk_reply(
        self,
        nodes: Seq<NodeModel<MemoryStateMachine>>,
        queue: Seq<MessageView>,
        id: NodeId,
        from: NodeId,
        reply: InstallSnapshotChunkReply,
        now_ms: u64,
    )
        requires
            self.is_ready(nodes, queue, id),
            self.is_member(from),
            nodes[id as int].can_handle(from, RpcView::InstallSnapshotChunkReply(reply), now_ms),
        ensures
            ({
                let (next, sent) = nodes[id as int].on_chunk_reply(from, reply, now_ms);
                self.advances(self, nodes, id, next, sent)
            }),
    {
        let node = nodes[id as int];
        let (next, sent) = node.on_chunk_reply(from, reply, now_ms);
        let later = nodes.update(id as int, next);
        let term = node.current_term;
        let full = self.fulls[id];
        assert(self.node_holds(nodes, id as int));
        self.lemma_shape(nodes, queue);
        if reply.term > term || node.transferring(from, reply) is None {
            self.lemma_stays(nodes, queue, id, next);
        } else {
            let (snapshot, bytes) = node.transferring(from, reply)->0;
            assert(self.notes_are_sound(node));
            assert(self.taken.contains(snapshot));
            let base = node.log_base_index as int;
            self.lemma_covered_less(full, node.commit_index as int, base, term);
            assert(self.backs(snapshot, term));
            assert forall|peer: NodeId| 1 <= #[trigger] next.next_for(peer) <= full.len() + 1 by {
                assert(1 <= node.next_for(peer) <= self.log(term).len() + 1);
            }
            assert forall|peer: NodeId| #[trigger] next.match_index.contains_key(peer) implies {
                &&& self.is_member(peer)
                &&& next.match_index[peer] <= larger(
                    self.acked(term, peer),
                    next.log_base_index as int,
                )
            } by {
                if node.match_index.contains_key(peer) {
                    assert(node.match_index[peer] <= larger(self.acked(term, peer), base));
                }
            }
            if !reply.accepted || reply.next_offset < bytes.len() {
                assert(self.is_noted(node, next));
                self.lemma_noted(nodes, queue, id, next);
                if let RpcView::InstallSnapshotChunk(chunk) = sent[0].rpc {
                    assert(is_piece(chunk, snapshot));
                    assert(self.backs(snapshot, chunk.term));
                }
                assert(self.message_holds(later, sent[0]));
            } else {
                assert(next.match_index.dom() =~= node.match_index.dom().insert(from));
                assert(self.is_noted(node, next));
                self.lemma_noted(nodes, queue, id, next);
                self.lemma_leader_sends(later, next, from);
            }
        }
    }
}

} // verus!
