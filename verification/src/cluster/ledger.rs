//! What has happened in a cluster, term by term, and what its nodes and its messages
//! owe to it.
use crate::codec::parsed_snapshot;
use crate::codec::snapshot_bytes;
use crate::codec::transfer_id;
use crate::kv_map::pairs_map;
use crate::node::laws::histories::contents;
use crate::node::laws::histories::is_in_full;
use crate::node::laws::histories::last_term;
use crate::node::laws::tenure::touches;
use crate::node::model::larger;
use crate::node::model::NodeModel;
use crate::node::model::PartialSnapshotModel;
use crate::node::MAX_APPEND_ENTRIES;
use crate::node::SNAPSHOT_CHUNK_BYTES;
use crate::state_machine::MemoryStateMachine;
use crate::types::AppendEntriesView;
use crate::types::InstallSnapshotChunkView;
use crate::types::LogEntryView;
use crate::types::MessageView;
use crate::types::NodeId;
use crate::types::RequestVote;
use crate::types::Role;
use crate::types::RpcView;
use crate::types::SnapshotView;
use crate::types::Term;
use vstd::prelude::*;

verus! {

/// What one leader did in its term: its whole log, how long the log was when it was
/// elected, who elected it, up to where it committed and who stored that.
#[verifier::ext_equal]
pub struct Tenure {
    pub log: Seq<LogEntryView>,
    pub start: int,
    pub owner: NodeId,
    pub voters: Set<NodeId>,
    pub done: int,
    pub storers: Set<NodeId>,
}

/// A vote: for whom, what the candidate said of its log, and the voter's own log.
#[verifier::ext_equal]
pub struct Ballot {
    pub candidate: NodeId,
    pub log: Seq<LogEntryView>,
    pub index: int,
    pub term: Term,
}

/// An entry behind which nobody writes a key.
pub struct Mark {
    pub term: Term,
    pub index: int,
    pub key: Seq<char>,
}

/// A read that some nodes will not confirm.
pub struct Watch {
    pub reader: NodeId,
    pub id: u64,
    pub term: Term,
    pub others: Set<NodeId>,
}

#[verifier::ext_equal]
pub struct Ledger {
    pub size: nat,
    pub terms: Map<Term, Tenure>,
    pub ballots: Map<(Term, NodeId), Ballot>,
    pub acks: Map<(Term, NodeId), int>,
    pub fulls: Map<NodeId, Seq<LogEntryView>>,
    pub taken: Set<SnapshotView>,
    pub mark: Option<Mark>,
    pub watch: Option<Watch>,
}

/// Two snapshots that take more than one chunk to transfer, under the same id and with
/// the same size.
pub open spec fn look_alike(first: SnapshotView, second: SnapshotView) -> bool {
    &&& transfer_id(first) == transfer_id(second)
    &&& snapshot_bytes(first) matches Some(bytes) && {
        &&& bytes.len() > SNAPSHOT_CHUNK_BYTES
        &&& snapshot_bytes(second) is Some
        &&& snapshot_bytes(second)->0.len() == bytes.len()
    }
}

/// The snapshots can be told apart by their transfers, and their encodings fit the
/// machine and can be read back.
pub open spec fn are_distinct(taken: Set<SnapshotView>) -> bool {
    &&& forall|first: SnapshotView, second: SnapshotView| #[trigger]
        taken.contains(first) && #[trigger] taken.contains(second) && look_alike(first, second)
            ==> first == second
    &&& forall|snapshot: SnapshotView| #[trigger]
        taken.contains(snapshot) ==> {
            snapshot_bytes(snapshot) matches Some(bytes) ==> parsed_snapshot(bytes) == Some(
                snapshot,
            ) && bytes.len() <= usize::MAX
        }
}

/// The chunk is a piece of the snapshot's encoding.
pub open spec fn is_piece(chunk: InstallSnapshotChunkView, snapshot: SnapshotView) -> bool {
    &&& chunk.snapshot_id == transfer_id(snapshot)
    &&& snapshot_bytes(snapshot) matches Some(bytes) && {
        &&& chunk.total_size == bytes.len()
        &&& chunk.offset + chunk.data.len() <= bytes.len()
        &&& chunk.data == bytes.subrange(
            chunk.offset as int,
            chunk.offset + chunk.data.len() as int,
        )
        &&& chunk.done <==> chunk.offset + chunk.data.len() == bytes.len()
        &&& chunk.done || chunk.data.len() == SNAPSHOT_CHUNK_BYTES
    }
}

/// A log that ends at `index` with `term` is at least as complete as `log`.
pub open spec fn is_complete_enough(index: int, term: Term, log: Seq<LogEntryView>) -> bool {
    ||| term > last_term(log)
    ||| term == last_term(log) && index >= log.len()
}

impl Ledger {
    pub open spec fn log(self, term: Term) -> Seq<LogEntryView> {
        self.terms[term].log
    }

    pub open spec fn has(self, term: Term) -> bool {
        self.terms.contains_key(term)
    }

    pub open spec fn is_member(self, id: NodeId) -> bool {
        id < self.size
    }

    pub open spec fn is_majority(self, members: Set<NodeId>) -> bool {
        &&& members.finite()
        &&& forall|id: NodeId| #[trigger] members.contains(id) ==> self.is_member(id)
        &&& members.len() >= self.size / 2 + 1
    }

    /// Up to where the node has acknowledged the log of the term's leader.
    pub open spec fn acked(self, term: Term, id: NodeId) -> int {
        if !self.has(term) {
            0
        } else if self.terms[term].owner == id {
            self.log(term).len() as int
        } else if self.acks.contains_key((term, id)) {
            self.acks[(term, id)]
        } else {
            0
        }
    }

    /// The log up to `i` is what the leader of its last entry's term had.
    pub open spec fn agrees(self, log: Seq<LogEntryView>, i: int) -> bool {
        let term = log[i - 1].term;
        &&& self.has(term)
        &&& i <= self.log(term).len()
        &&& log.take(i) == self.log(term).take(i)
    }

    pub open spec fn is_coherent(self, log: Seq<LogEntryView>) -> bool {
        forall|i: int| 0 < i <= log.len() ==> #[trigger] self.agrees(log, i)
    }

    /// The first `count` entries were committed, in a term up to `bound`.
    pub open spec fn is_covered_by(self, log: Seq<LogEntryView>, count: int, term: Term) -> bool {
        &&& self.has(term)
        &&& count <= self.terms[term].done
        &&& count <= log.len()
        &&& log.take(count) == self.log(term).take(count)
    }

    pub open spec fn is_covered(self, log: Seq<LogEntryView>, count: int, bound: Term) -> bool {
        count > 0 ==> exists|term: Term|
            term <= bound && #[trigger] self.is_covered_by(log, count, term)
    }

    pub open spec fn holds(self, log: Seq<LogEntryView>, term: Term, k: int) -> bool {
        &&& k <= log.len()
        &&& log.take(k) == self.log(term).take(k)
    }

    /// The leader of `later` was elected without the first `k` entries of `term`.
    pub open spec fn lacks(self, later: Term, term: Term, k: int) -> bool {
        ||| k > self.terms[later].start
        ||| self.log(later).take(k) != self.log(term).take(k)
    }

    /// The first `k` entries of `term` are in the log, or a leader came later, before
    /// `bound`, that did not have them.
    pub open spec fn stands(self, log: Seq<LogEntryView>, term: Term, k: int, bound: int) -> bool {
        ||| self.holds(log, term, k)
        ||| exists|later: Term|
            self.has(later) && term < later < bound && #[trigger] self.lacks(later, term, k)
    }

    /// What the node has acknowledged in the terms before `upto` stands.
    pub open spec fn keeps(
        self,
        id: NodeId,
        log: Seq<LogEntryView>,
        upto: int,
        bound: int,
    ) -> bool {
        forall|term: Term, k: int|
            term < upto && 1 <= k <= self.acked(term, id) ==> #[trigger] self.stands(
                log,
                term,
                k,
                bound,
            )
    }

    /// The snapshot is of what the leader of `term` has committed.
    pub open spec fn backs(self, snapshot: SnapshotView, term: Term) -> bool {
        let index = snapshot.last_included_index as int;
        &&& self.has(term)
        &&& self.taken.contains(snapshot)
        &&& snapshot.valid()
        &&& index <= self.log(term).len()
        &&& snapshot.last_included_term == self.log(term)[index - 1].term
        &&& pairs_map(snapshot.state.data) == contents(self.log(term).take(index))
        &&& self.is_covered(self.log(term), index, term)
    }

    /// The voter has voted for the candidate in the term, or too late to elect it.
    pub open spec fn claims(self, term: Term, voter: NodeId, candidate: NodeId) -> bool {
        ||| {
            &&& self.ballots.contains_key((term, voter))
            &&& self.ballots[(term, voter)].candidate == candidate
        }
        ||| {
            &&& self.has(term)
            &&& !self.terms[term].voters.contains(voter) || self.terms[term].owner == candidate
        }
    }

    // ---- terms ----

    /// Behind the mark the leader's log does not write the key.
    pub open spec fn leaves_key(self, term: Term) -> bool {
        self.mark matches Some(mark) ==> {
            &&& 0 <= mark.index
            &&& self.has(mark.term)
            &&& mark.index <= self.log(mark.term).len()
            &&& self.holds(self.log(term), mark.term, mark.index) ==> forall|i: int|
                mark.index <= i < self.log(term).len() ==> !touches(
                    (#[trigger] self.log(term)[i]).command,
                    mark.key,
                )
        }
    }

    /// The record of a term: the log begins with entries of earlier terms and goes on
    /// with those of the term, a majority voted for the owner on what it then had, and a
    /// majority has acknowledged what was committed.
    pub open spec fn term_is_sound(self, term: Term) -> bool {
        let tenure = self.terms[term];
        &&& self.is_member(tenure.owner)
        &&& 0 <= tenure.start < tenure.log.len()
        &&& self.is_coherent(tenure.log)
        &&& forall|i: int| 0 <= i < tenure.start ==> (#[trigger] tenure.log[i]).term < term
        &&& forall|i: int|
            tenure.start <= i < tenure.log.len() ==> (#[trigger] tenure.log[i]).term == term
        &&& self.is_majority(tenure.voters)
        &&& tenure.voters.contains(tenure.owner)
        &&& forall|voter: NodeId| #[trigger]
            tenure.voters.contains(voter) ==> {
                let ballot = self.ballots[(term, voter)];
                &&& self.ballots.contains_key((term, voter))
                &&& ballot.candidate == tenure.owner
                &&& ballot.index == tenure.start
                &&& ballot.term == last_term(tenure.log.take(tenure.start))
            }
        &&& 0 <= tenure.done <= tenure.log.len()
        &&& tenure.done > 0 ==> {
            &&& tenure.log[tenure.done - 1].term == term
            &&& self.is_majority(tenure.storers)
            &&& forall|id: NodeId| #[trigger]
                tenure.storers.contains(id) ==> self.acked(term, id) >= tenure.done
        }
        &&& self.leaves_key(term)
    }

    /// The owner of a term, while it is in it, has the term's log and does not stand
    /// for election.
    pub open spec fn owner_is_sound(
        self,
        nodes: Seq<NodeModel<MemoryStateMachine>>,
        term: Term,
    ) -> bool {
        let owner = self.terms[term].owner;
        let node = nodes[owner as int];
        &&& node.current_term >= term
        &&& node.current_term == term ==> self.fulls[owner] == self.log(term) && node.role
            != Role::Candidate
    }

    // ---- ballots and acknowledgements ----

    pub open spec fn ballot_is_sound(self, term: Term, voter: NodeId) -> bool {
        let ballot = self.ballots[(term, voter)];
        &&& self.is_member(voter)
        &&& self.is_member(ballot.candidate)
        &&& ballot.candidate == voter ==> self.has(term) && self.terms[term].owner == voter
        &&& self.is_coherent(ballot.log)
        &&& forall|i: int| 0 <= i < ballot.log.len() ==> (#[trigger] ballot.log[i]).term < term
        &&& self.keeps(voter, ballot.log, term as int, term as int)
        &&& is_complete_enough(ballot.index, ballot.term, ballot.log)
    }

    pub open spec fn ballot_is_kept(
        self,
        nodes: Seq<NodeModel<MemoryStateMachine>>,
        term: Term,
        voter: NodeId,
    ) -> bool {
        let ballot = self.ballots[(term, voter)];
        let candidate = nodes[ballot.candidate as int];
        &&& nodes[voter as int].current_term >= term
        &&& candidate.current_term >= term
        &&& voter != ballot.candidate && nodes[voter as int].current_term == term
            ==> nodes[voter as int].voted_for == Some(ballot.candidate)
        &&& candidate.role == Role::Candidate && candidate.current_term == term ==> {
            &&& ballot.index == self.fulls[ballot.candidate].len()
            &&& ballot.term == last_term(self.fulls[ballot.candidate])
        }
    }

    pub open spec fn ack_is_sound(
        self,
        nodes: Seq<NodeModel<MemoryStateMachine>>,
        term: Term,
        id: NodeId,
    ) -> bool {
        &&& self.has(term)
        &&& self.is_member(id)
        &&& 0 <= self.acks[(term, id)] <= self.log(term).len()
        &&& nodes[id as int].current_term >= term
    }

    // ---- nodes ----

    /// The transfer under way is of a snapshot of its leader's.
    pub open spec fn carries(
        self,
        id: u64,
        transfer: PartialSnapshotModel,
        snapshot: SnapshotView,
    ) -> bool {
        &&& self.backs(snapshot, transfer.term)
        &&& transfer_id(snapshot) == id
        &&& snapshot_bytes(snapshot) matches Some(bytes) && {
            &&& transfer.total_size == bytes.len()
            &&& transfer.bytes.len() <= bytes.len()
            &&& transfer.bytes == bytes.take(transfer.bytes.len() as int)
            &&& transfer.bytes.len() > 0 ==> bytes.len() > SNAPSHOT_CHUNK_BYTES
        }
    }

    /// The node's log and state.
    pub open spec fn store_is_sound(self, node: NodeModel<MemoryStateMachine>) -> bool {
        let full = self.fulls[node.id];
        let base = node.log_base_index as int;
        let commit = node.commit_index as int;
        &&& is_in_full(node, full)
        &&& self.is_coherent(full)
        &&& forall|i: int| 0 <= i < full.len() ==> (#[trigger] full[i]).term <= node.current_term
        &&& base <= commit
        &&& self.is_covered(full, commit, node.current_term)
        &&& node.shows(full)
        &&& base > 0 ==> node.snapshot is Some
        &&& node.snapshot matches Some(snapshot) ==> {
            &&& base > 0
            &&& self.taken.contains(snapshot)
            &&& snapshot.valid()
            &&& snapshot.last_included_index == base
            &&& snapshot.last_included_term == full[base - 1].term
            &&& pairs_map(snapshot.state.data) == contents(full.take(base))
        }
        &&& node.incoming_snapshot matches Some((id, transfer)) ==> exists|snapshot: SnapshotView|
            #[trigger] self.carries(id, transfer, snapshot)
        &&& self.keeps(node.id, full, Term::MAX + 1, node.current_term + 1)
    }

    /// The leader's notes on its peers.
    pub open spec fn notes_are_sound(self, node: NodeModel<MemoryStateMachine>) -> bool {
        let term = node.current_term;
        &&& self.has(term)
        &&& self.terms[term].owner == node.id
        &&& self.fulls[node.id] == self.log(term)
        &&& node.term_start_index == self.terms[term].start + 1
        &&& node.commit_index >= self.terms[term].done
        &&& node.match_index.dom().finite()
        &&& forall|peer: NodeId| 1 <= #[trigger] node.next_for(peer) <= self.log(term).len() + 1
        &&& forall|peer: NodeId| #[trigger]
            node.match_index.contains_key(peer) ==> {
                &&& self.is_member(peer)
                &&& node.match_index[peer] <= larger(
                    self.acked(term, peer),
                    node.log_base_index as int,
                )
            }
    }

    /// Members have confirmed the read, none of those that will not.
    pub open spec fn is_unconfirmed(self, acknowledgements: Set<NodeId>, watch: Watch) -> bool {
        &&& acknowledgements.finite()
        &&& forall|id: NodeId| #[trigger] acknowledgements.contains(id) ==> self.is_member(id)
        &&& acknowledgements.disjoint(watch.others)
    }

    /// The node's part in elections and reads.
    pub open spec fn office_is_sound(self, node: NodeModel<MemoryStateMachine>) -> bool {
        let full = self.fulls[node.id];
        &&& node.role != Role::Follower ==> node.voted_for == Some(node.id)
        &&& node.role == Role::Candidate ==> {
            &&& forall|i: int| 0 <= i < full.len() ==> (#[trigger] full[i]).term < node.current_term
            &&& node.granted_voters.contains(node.id)
            &&& forall|voter: NodeId| #[trigger]
                node.granted_voters.contains(voter) ==> self.is_member(voter) && (voter == node.id
                    || self.claims(node.current_term, voter, node.id))
        }
        &&& node.role == Role::Leader ==> self.notes_are_sound(node)
        &&& self.watch matches Some(watch) ==> {
            &&& watch.others.contains(node.id) ==> node.current_term > watch.term
            &&& node.id == watch.reader && node.pending_reads.contains_key(watch.id)
                && node.pending_reads[watch.id].term == watch.term
                ==> self.is_unconfirmed(node.pending_reads[watch.id].acknowledgements, watch)
        }
    }

    pub open spec fn node_is_sound(self, node: NodeModel<MemoryStateMachine>) -> bool {
        &&& node.peers.len() + 1 == self.size
        &&& self.store_is_sound(node)
        &&& self.office_is_sound(node)
    }

    // ---- messages ----

    pub open spec fn batch_is_sound(self, request: AppendEntriesView) -> bool {
        let prev = request.prev_log_index as int;
        let upto = prev + request.entries.len();
        &&& self.has(request.term)
        &&& upto <= self.log(request.term).len()
        &&& request.entries == self.log(request.term).subrange(prev, upto)
        &&& prev > 0 ==> request.prev_log_term == self.log(request.term)[prev - 1].term
        &&& request.leader_commit <= upto || request.entries.len() == MAX_APPEND_ENTRIES
        &&& self.is_covered(
            self.log(request.term),
            request.leader_commit as int,
            request.term,
        )
    }

    pub open spec fn candidacy_is_sound(
        self,
        nodes: Seq<NodeModel<MemoryStateMachine>>,
        from: NodeId,
        request: RequestVote,
    ) -> bool {
        let node = nodes[from as int];
        &&& request.candidate_id == from
        &&& request.last_log_term < request.term
        &&& node.current_term >= request.term
        &&& node.role == Role::Candidate && node.current_term == request.term ==> {
            &&& request.last_log_index == self.fulls[from].len()
            &&& request.last_log_term == last_term(self.fulls[from])
        }
    }

    /// Where the log of the term's leader starts.
    pub open spec fn boundary_in(
        self,
        nodes: Seq<NodeModel<MemoryStateMachine>>,
        term: Term,
    ) -> int {
        nodes[self.terms[term].owner as int].log_base_index as int
    }

    pub open spec fn message_is_sound(
        self,
        nodes: Seq<NodeModel<MemoryStateMachine>>,
        message: MessageView,
    ) -> bool {
        let from = message.from;
        match message.rpc {
            RpcView::RequestVote(request) => self.candidacy_is_sound(nodes, from, request),
            RpcView::RequestVoteReply(reply) => reply.vote_granted ==> message.to == from
                || self.claims(reply.term, from, message.to),
            RpcView::AppendEntries(request) => self.batch_is_sound(request)
                && request.leader_commit <= nodes[from as int].commit_index,
            RpcView::AppendEntriesReply(reply) => reply.success ==> self.has(reply.term)
                && reply.match_index <= self.acked(reply.term, from),
            RpcView::InstallSnapshot(_) => false,
            RpcView::InstallSnapshotRequest(request) => {
                &&& self.backs(request.snapshot, request.term)
                &&& request.snapshot.last_included_index <= self.boundary_in(nodes, request.term)
            },
            RpcView::InstallSnapshotReply(reply) => reply.accepted ==> {
                &&& self.has(reply.term)
                &&& reply.last_included_index <= self.acked(reply.term, from)
                &&& reply.last_included_index <= self.boundary_in(nodes, reply.term)
            },
            RpcView::InstallSnapshotChunk(chunk) => exists|snapshot: SnapshotView|
                is_piece(chunk, snapshot) && #[trigger] self.backs(snapshot, chunk.term),
            RpcView::ReadIndex(request) => self.has(request.term) && request.request_id
                < nodes[from as int].next_read_id,
            RpcView::ReadIndexReply(reply) => {
                &&& reply.request_id < nodes[message.to as int].next_read_id
                &&& self.watch matches Some(watch) ==> !(message.to == watch.reader && reply.term
                    == watch.term && reply.request_id == watch.id && watch.others.contains(from))
            },
            RpcView::TimeoutNow(request) => self.has(request.term),
            _ => true,
        }
    }

    // ---- all of it ----

    pub open spec fn node_holds(
        self,
        nodes: Seq<NodeModel<MemoryStateMachine>>,
        position: int,
    ) -> bool {
        &&& nodes[position].id == position
        &&& self.node_is_sound(nodes[position])
    }

    pub open spec fn term_holds(
        self,
        nodes: Seq<NodeModel<MemoryStateMachine>>,
        term: Term,
    ) -> bool {
        &&& self.term_is_sound(term)
        &&& self.owner_is_sound(nodes, term)
    }

    pub open spec fn ballot_holds(
        self,
        nodes: Seq<NodeModel<MemoryStateMachine>>,
        term: Term,
        voter: NodeId,
    ) -> bool {
        &&& self.ballot_is_sound(term, voter)
        &&& self.ballot_is_kept(nodes, term, voter)
    }

    pub open spec fn message_holds(
        self,
        nodes: Seq<NodeModel<MemoryStateMachine>>,
        message: MessageView,
    ) -> bool {
        &&& self.is_member(message.from)
        &&& self.is_member(message.to)
        &&& self.message_is_sound(nodes, message)
    }

    /// The marked entry stands in its leader's log.
    pub open spec fn mark_is_there(self) -> bool {
        self.mark matches Some(mark) ==> 0 <= mark.index && self.has(mark.term) && mark.index
            <= self.log(mark.term).len()
    }

    pub open spec fn is_sound(
        self,
        nodes: Seq<NodeModel<MemoryStateMachine>>,
        queue: Seq<MessageView>,
    ) -> bool {
        &&& nodes.len() == self.size
        &&& are_distinct(self.taken)
        &&& self.mark_is_there()
        &&& forall|i: int| 0 <= i < nodes.len() ==> #[trigger] self.node_holds(nodes, i)
        &&& forall|term: Term| self.has(term) ==> #[trigger] self.term_holds(nodes, term)
        &&& forall|term: Term, voter: NodeId|
            self.ballots.contains_key((term, voter)) ==> #[trigger] self.ballot_holds(
                nodes,
                term,
                voter,
            )
        &&& forall|term: Term, id: NodeId|
            self.acks.contains_key((term, id)) ==> #[trigger] self.ack_is_sound(nodes, term, id)
        &&& forall|k: int|
            0 <= k < queue.len() ==> self.message_holds(nodes, #[trigger] queue[k])
    }

    /// `after` says all that this ledger says, of all nodes but `id` nothing more.
    pub open spec fn grows(self, after: Self, id: NodeId) -> bool {
        &&& after.size == self.size
        &&& after.taken == self.taken
        &&& forall|term: Term| #[trigger]
            self.has(term) ==> {
                let old_tenure = self.terms[term];
                let tenure = after.terms[term];
                &&& after.has(term)
                &&& old_tenure.log.len() <= tenure.log.len()
                &&& tenure.log.take(old_tenure.log.len() as int) == old_tenure.log
                &&& tenure.start == old_tenure.start
                &&& tenure.owner == old_tenure.owner
                &&& tenure.voters == old_tenure.voters
                &&& old_tenure.done <= tenure.done
            }
        &&& forall|key: (Term, NodeId)| #[trigger]
            self.ballots.contains_key(key) ==> after.ballots.contains_key(key)
                && after.ballots[key] == self.ballots[key]
        &&& forall|term: Term, other: NodeId|
            self.acked(term, other) <= #[trigger] after.acked(term, other)
        &&& forall|term: Term, other: NodeId|
            other != id ==> self.acked(term, other) == #[trigger] after.acked(term, other)
        &&& forall|other: NodeId|
            other != id ==> #[trigger] after.fulls[other] == self.fulls[other]
    }
}

} // verus!
