//! A node as a mathematical value, and what each event makes of it.
use crate::codec::parsed_snapshot;
use crate::codec::snapshot_bytes;
use crate::codec::transfer_id;
use crate::error::Error;
use crate::node::PendingRead;
use crate::node::PendingWrite;
use crate::node::SnapshotInstallResult;
use crate::node::ELECTION_MIN_MS;
use crate::node::ELECTION_SPAN_MS;
use crate::node::HEARTBEAT_MS;
use crate::node::MAX_APPEND_ENTRIES;
use crate::node::MAX_TRANSFER_BYTES;
use crate::node::QUORUM_LEASE_MS;
use crate::node::RANDOM_MULTIPLIER;
use crate::node::SNAPSHOT_CHUNK_BYTES;
use crate::state_machine::StateMachine;
use crate::types::AppendEntriesReply;
use crate::types::AppendEntriesView;
use crate::types::ClientReplyView;
use crate::types::ClientRequestView;
use crate::types::CommandView;
use crate::types::InstallSnapshotChunkReply;
use crate::types::InstallSnapshotChunkView;
use crate::types::InstallSnapshotReply;
use crate::types::InstallSnapshotRequestView;
use crate::types::LogEntryView;
use crate::types::LogIndex;
use crate::types::MessageView;
use crate::types::NodeId;
use crate::types::PreVote;
use crate::types::PreVoteReply;
use crate::types::ReadIndex;
use crate::types::ReadIndexReply;
use crate::types::RequestVote;
use crate::types::RequestVoteReply;
use crate::types::Role;
use crate::types::RpcView;
use crate::types::SnapshotView;
use crate::types::Term;
use crate::types::TimeoutNow;
use crate::types::SNAPSHOT_FORMAT_VERSION;
use vstd::prelude::*;

verus! {

/// `a - b`, or zero where that would be negative.
pub open spec fn minus(a: int, b: int) -> int {
    if a > b {
        a - b
    } else {
        0
    }
}

pub open spec fn larger(a: int, b: int) -> int {
    if a > b {
        a
    } else {
        b
    }
}

pub open spec fn smaller(a: int, b: int) -> int {
    if a < b {
        a
    } else {
        b
    }
}

/// An election timer, the longest too, can be set at `now_ms` without running out of
/// clock.
pub open spec fn clock_has_room(now_ms: u64) -> bool {
    now_ms <= u64::MAX - (ELECTION_MIN_MS + ELECTION_SPAN_MS - 1)
}

/// A read that waits for a quorum of acknowledgements.
#[verifier::ext_equal]
pub struct PendingReadModel {
    pub term: Term,
    pub barrier_index: LogIndex,
    pub acknowledgements: Set<NodeId>,
}

/// The part of a chunked snapshot that has arrived.
#[verifier::ext_equal]
pub struct PartialSnapshotModel {
    pub term: Term,
    pub leader_id: NodeId,
    pub total_size: usize,
    pub bytes: Seq<u8>,
}

/// A node's whole state.
#[verifier::ext_equal]
pub struct NodeModel<S: StateMachine> {
    pub id: NodeId,
    pub peers: Seq<NodeId>,
    pub role: Role,
    pub current_term: Term,
    pub voted_for: Option<NodeId>,
    pub log: Seq<LogEntryView>,
    pub log_base_index: LogIndex,
    pub snapshot: Option<SnapshotView>,
    pub commit_index: LogIndex,
    pub last_applied: LogIndex,
    pub state: S::V,
    pub leader_id: Option<NodeId>,
    pub election_deadline: u64,
    pub last_heartbeat_at: u64,
    pub last_leader_contact: u64,
    pub rng_state: u64,
    pub votes_granted: usize,
    pub granted_voters: Set<NodeId>,
    pub next_index: Map<NodeId, LogIndex>,
    pub match_index: Map<NodeId, LogIndex>,
    pub term_start_index: LogIndex,
    pub pre_vote_term: Option<Term>,
    pub pre_vote_granted: Set<NodeId>,
    pub last_quorum_contact: Map<NodeId, u64>,
    pub pending_reads: Map<u64, PendingReadModel>,
    pub next_read_id: u64,
    pub leader_transfer_target: Option<NodeId>,
    pub incoming_snapshot: Option<(u64, PartialSnapshotModel)>,
}

impl<S: StateMachine> NodeModel<S> {
    // ---- the log ----

    /// The index of the first slot of the log: the snapshot boundary once there
    /// is one, else the first entry.
    pub open spec fn first_index(self) -> int {
        if self.log_base_index == 0 {
            1
        } else {
            self.log_base_index as int
        }
    }

    /// The index of the last slot of the log.
    pub open spec fn last_index(self) -> int {
        self.first_index() + self.log.len() - 1
    }

    /// The log has a slot for `index`.
    pub open spec fn has_slot(self, index: int) -> bool {
        self.first_index() <= index <= self.last_index()
    }

    /// What every node keeps: behind a snapshot the boundary slot stands in the
    /// log, and the next index and the size of the cluster fit the machine.
    pub open spec fn well_formed(self) -> bool {
        &&& self.log_base_index > 0 ==> self.log.len() > 0
        &&& self.last_index() < usize::MAX
        &&& self.peers.len() < usize::MAX
        &&& self.granted_voters.finite()
        &&& self.pre_vote_granted.finite()
    }

    /// The term of the slot at `index`; index zero has term zero.
    pub open spec fn term_at(self, index: int) -> Option<Term> {
        if index == 0 {
            Some(0)
        } else if self.has_slot(index) {
            Some(self.log[index - self.first_index()].term)
        } else {
            None
        }
    }

    pub open spec fn term_or_zero(self, index: int) -> Term {
        match self.term_at(index) {
            Some(term) => term,
            None => 0,
        }
    }

    pub open spec fn last_log_term(self) -> Term {
        self.term_or_zero(self.last_index())
    }

    /// The entry at `index`; the boundary slot is no entry.
    pub open spec fn entry_at(self, index: int) -> Option<LogEntryView> {
        if self.has_slot(index) && index > self.log_base_index {
            Some(self.log[index - self.first_index()])
        } else {
            None
        }
    }

    /// The entries from `index` on.
    pub open spec fn entries_from(self, index: int) -> Seq<LogEntryView> {
        if self.log_base_index > 0 && index <= self.log_base_index {
            Seq::empty()
        } else {
            self.log.skip(
                smaller(larger(index, 1) - self.first_index(), self.log.len() as int),
            )
        }
    }

    /// How many of `entries` the log holds from `index` on, up to the first that
    /// is missing or of another term.
    pub open spec fn agreement(self, index: int, entries: Seq<LogEntryView>) -> nat
        decreases entries.len(),
    {
        if entries.len() > 0 && self.term_at(index) == Some(entries[0].term) {
            1 + self.agreement(index + 1, entries.skip(1))
        } else {
            0
        }
    }

    /// The log with `entries` from `index` on: what agrees stays; from the first
    /// entry that does not, the rest of the log makes way for the rest of them.
    pub open spec fn merged_log(self, index: int, entries: Seq<LogEntryView>) -> Seq<
        LogEntryView,
    > {
        let kept = self.agreement(index, entries);
        if kept == entries.len() {
            self.log
        } else {
            self.log.take(index + kept - self.first_index()) + entries.skip(kept as int)
        }
    }

    /// The candidate's log is at least as complete as this node's.
    pub open spec fn up_to_date(self, last_log_index: LogIndex, last_log_term: Term) -> bool {
        ||| last_log_term > self.last_log_term()
        ||| last_log_term == self.last_log_term() && last_log_index >= self.last_index()
    }

    // ---- quorums and timers ----

    /// More than half of the cluster.
    pub open spec fn majority(self) -> int {
        ((self.peers.len() + 1) / 2 + 1) as int
    }

    /// The node with its election timer set anew at `now_ms`.
    pub open spec fn timer_reset(self, now_ms: u64) -> Self {
        let drawn = self.rng_state.wrapping_mul(RANDOM_MULTIPLIER).wrapping_add(1);
        NodeModel {
            rng_state: drawn,
            election_deadline: (now_ms + ELECTION_MIN_MS + drawn % ELECTION_SPAN_MS) as u64,
            ..self
        }
    }

    /// The node as a follower of `term` that knows no leader.
    pub open spec fn stepped_down(self, term: Term, now_ms: u64) -> Self {
        NodeModel {
            role: Role::Follower,
            current_term: term,
            voted_for: None,
            votes_granted: 0,
            granted_voters: Set::empty(),
            pre_vote_term: None,
            pre_vote_granted: Set::empty(),
            pending_reads: Map::empty(),
            leader_transfer_target: None,
            last_quorum_contact: Map::empty(),
            leader_id: None,
            ..self
        }.timer_reset(now_ms)
    }

    /// The node after hearing from a leader of `term`, which is not behind.
    pub open spec fn following(self, term: Term, now_ms: u64) -> Self {
        if term > self.current_term || self.role != Role::Follower {
            self.stepped_down(term, now_ms)
        } else {
            self
        }
    }

    /// The voters heard from recently enough.
    pub open spec fn active_contacts(self, now_ms: u64) -> Set<NodeId> {
        self.last_quorum_contact.dom().filter(
            |voter: NodeId|
                minus(now_ms as int, self.last_quorum_contact[voter] as int) <= QUORUM_LEASE_MS,
        )
    }

    pub open spec fn has_quorum_contact(self, now_ms: u64) -> bool {
        self.active_contacts(now_ms).len() >= self.majority()
    }

    // ---- messages ----

    pub open spec fn message(self, to: NodeId, rpc: RpcView) -> MessageView {
        MessageView { from: self.id, to, rpc }
    }

    /// The same message to every peer.
    pub open spec fn to_peers(self, rpc: RpcView) -> Seq<MessageView> {
        Seq::new(self.peers.len(), |i: int| self.message(self.peers[i], rpc))
    }

    /// The piece of `bytes`, an encoding of `snapshot`, that starts at `offset`.
    pub open spec fn chunk_message(
        self,
        peer: NodeId,
        snapshot: SnapshotView,
        offset: int,
        bytes: Seq<u8>,
    ) -> MessageView {
        let end = smaller(offset + SNAPSHOT_CHUNK_BYTES, bytes.len() as int);
        self.message(
            peer,
            RpcView::InstallSnapshotChunk(
                InstallSnapshotChunkView {
                    term: self.current_term,
                    leader_id: self.id,
                    snapshot_id: transfer_id(snapshot),
                    offset: offset as usize,
                    total_size: bytes.len() as usize,
                    data: bytes.subrange(offset, end),
                    done: end == bytes.len(),
                },
            ),
        )
    }

    /// The next index to send to `peer`.
    pub open spec fn next_for(self, peer: NodeId) -> int {
        if self.next_index.contains_key(peer) {
            self.next_index[peer] as int
        } else {
            self.last_index() + 1
        }
    }

    /// The index up to which `peer` is known to hold the log.
    pub open spec fn matched_by(self, peer: NodeId) -> LogIndex {
        if self.match_index.contains_key(peer) {
            self.match_index[peer]
        } else {
            0
        }
    }

    /// The snapshot that `peer` needs before any entry can reach it.
    pub open spec fn snapshot_due(self, peer: NodeId) -> Option<SnapshotView> {
        if self.next_for(peer) <= self.log_base_index {
            self.snapshot
        } else {
            None
        }
    }

    /// What the leader sends to bring `peer` forward: the next entries, or the
    /// snapshot where those are compacted, in a chunk if it is large.
    pub open spec fn append_message(self, peer: NodeId) -> MessageView {
        match self.snapshot_due(peer) {
            Some(snapshot) => match snapshot_bytes(snapshot) {
                Some(bytes) if bytes.len() > SNAPSHOT_CHUNK_BYTES => self.chunk_message(
                    peer,
                    snapshot,
                    0,
                    bytes,
                ),
                _ => self.message(
                    peer,
                    RpcView::InstallSnapshotRequest(
                        InstallSnapshotRequestView {
                            term: self.current_term,
                            leader_id: self.id,
                            snapshot,
                        },
                    ),
                ),
            },
            None => {
                let next = self.next_for(peer);
                let previous = minus(next, 1);
                let backlog = self.entries_from(next);
                self.message(
                    peer,
                    RpcView::AppendEntries(
                        AppendEntriesView {
                            term: self.current_term,
                            leader_id: self.id,
                            prev_log_index: previous as LogIndex,
                            prev_log_term: self.term_or_zero(previous),
                            entries: backlog.take(
                                smaller(backlog.len() as int, MAX_APPEND_ENTRIES as int),
                            ),
                            leader_commit: self.commit_index,
                        },
                    ),
                )
            },
        }
    }

    pub open spec fn append_messages(self) -> Seq<MessageView> {
        Seq::new(self.peers.len(), |i: int| self.append_message(self.peers[i]))
    }

    pub open spec fn timeout_message(self, target: NodeId) -> MessageView {
        self.message(
            target,
            RpcView::TimeoutNow(TimeoutNow { term: self.current_term, leader_id: self.id }),
        )
    }

    // ---- applying and committing ----

    /// The node once everything committed is applied, or up to the first entry
    /// that is missing or fails.
    pub open spec fn apply_committed(self) -> (Self, Result<(), Error>)
        decreases self.commit_index - self.last_applied,
    {
        if self.last_applied < self.commit_index {
            let next = (self.last_applied + 1) as LogIndex;
            match self.entry_at(next as int) {
                None => (self, Err(Error::CommitOutsideLog)),
                Some(entry) => {
                    let (state, result) = S::applied(self.state, next, entry.command);
                    match result {
                        Err(error) => (NodeModel { state, ..self }, Err(error)),
                        Ok(()) => NodeModel { state, last_applied: next, ..self }.apply_committed(),
                    }
                },
            }
        } else {
            (self, Ok(()))
        }
    }

    /// The members known to hold the log up to `index`.
    pub open spec fn holders(self, index: int) -> Set<NodeId> {
        self.match_index.dom().filter(|member: NodeId| self.match_index[member] >= index)
    }

    /// The leader may commit `index`: the entry is of its own term and a majority
    /// holds it.
    pub open spec fn committable(self, index: int) -> bool {
        &&& self.term_at(index) == Some(self.current_term)
        &&& self.holders(index).len() >= self.majority()
    }

    /// The greatest index up to `limit` that the leader may commit, or the
    /// present commit index if there is none beyond it.
    pub open spec fn commit_point(self, limit: int) -> int
        decreases limit - self.commit_index,
    {
        if limit <= self.commit_index {
            self.commit_index as int
        } else if self.committable(limit) {
            limit
        } else {
            self.commit_point(limit - 1)
        }
    }

    /// The leader with its commit index advanced and the new entries applied.
    pub open spec fn commit_advanced(self) -> Self {
        NodeModel {
            commit_index: self.commit_point(self.last_index()) as LogIndex,
            ..self
        }.apply_committed().0
    }

    // ---- elections ----

    pub open spec fn start_election(self, now_ms: u64) -> (Self, Seq<MessageView>) {
        let campaigning = NodeModel {
            role: Role::Candidate,
            current_term: (self.current_term + 1) as Term,
            pre_vote_term: None,
            pre_vote_granted: Set::empty(),
            voted_for: Some(self.id),
            leader_id: None,
            votes_granted: 1,
            granted_voters: Set::empty().insert(self.id),
            ..self
        }.timer_reset(now_ms);
        (
            campaigning,
            campaigning.to_peers(
                RpcView::RequestVote(
                    RequestVote {
                        term: campaigning.current_term,
                        candidate_id: self.id,
                        last_log_index: self.last_index() as LogIndex,
                        last_log_term: self.last_log_term(),
                    },
                ),
            ),
        )
    }

    /// The term a pre-vote asks about.
    pub open spec fn prospective_term(self) -> Term {
        if self.current_term == u64::MAX {
            u64::MAX
        } else {
            (self.current_term + 1) as Term
        }
    }

    pub open spec fn start_pre_vote(self, now_ms: u64) -> (Self, Seq<MessageView>) {
        let probing = NodeModel {
            pre_vote_term: Some(self.prospective_term()),
            pre_vote_granted: Set::empty().insert(self.id),
            ..self
        }.timer_reset(now_ms);
        if 1 >= self.majority() {
            probing.start_election(now_ms)
        } else {
            (
                probing,
                probing.to_peers(
                    RpcView::PreVote(
                        PreVote {
                            term: self.prospective_term(),
                            candidate_id: self.id,
                            last_log_index: self.last_index() as LogIndex,
                            last_log_term: self.last_log_term(),
                        },
                    ),
                ),
            )
        }
    }

    /// A node refuses a pre-vote while it hears from a live leader, so that an
    /// isolated node cannot advance the term needlessly.
    pub open spec fn pre_vote_reply(self, request: PreVote, now_ms: u64) -> PreVoteReply {
        PreVoteReply {
            term: self.current_term,
            vote_granted: {
                &&& request.term >= self.current_term
                &&& self.up_to_date(request.last_log_index, request.last_log_term)
                &&& {
                    ||| self.leader_id is None
                    ||| minus(now_ms as int, self.last_leader_contact as int) >= QUORUM_LEASE_MS
                }
            },
        }
    }

    /// The reply is a fresh grant of the pre-vote that this node is running.
    pub open spec fn counts_pre_vote(self, from: NodeId, reply: PreVoteReply) -> bool {
        &&& reply.term <= self.current_term
        &&& self.pre_vote_term == Some(self.prospective_term())
        &&& reply.vote_granted
        &&& !self.pre_vote_granted.contains(from)
    }

    /// The reply completes a majority of pre-votes.
    pub open spec fn wins_pre_vote(self, from: NodeId, reply: PreVoteReply) -> bool {
        &&& self.counts_pre_vote(from, reply)
        &&& self.pre_vote_granted.insert(from).len() >= self.majority()
    }

    pub open spec fn on_pre_vote_reply(self, from: NodeId, reply: PreVoteReply, now_ms: u64) -> (
        Self,
        Seq<MessageView>,
    ) {
        if reply.term > self.current_term {
            (self.stepped_down(reply.term, now_ms), Seq::empty())
        } else if !self.counts_pre_vote(from, reply) {
            (self, Seq::empty())
        } else {
            let counted = NodeModel {
                pre_vote_granted: self.pre_vote_granted.insert(from),
                ..self
            };
            if self.wins_pre_vote(from, reply) {
                counted.start_election(now_ms)
            } else {
                (counted, Seq::empty())
            }
        }
    }

    /// The node, having caught up with the request's term, grants the vote: it
    /// has not voted for another, and the candidate's log is complete enough.
    pub open spec fn grants_vote(self, request: RequestVote) -> bool {
        &&& self.voted_for is None || self.voted_for == Some(request.candidate_id)
        &&& self.up_to_date(request.last_log_index, request.last_log_term)
    }

    pub open spec fn on_request_vote(self, request: RequestVote, now_ms: u64) -> (
        Self,
        RequestVoteReply,
    ) {
        if request.term < self.current_term || (request.term == self.current_term && self.role
            == Role::Leader && request.candidate_id != self.id) {
            (self, RequestVoteReply { term: self.current_term, vote_granted: false })
        } else {
            let present = if request.term > self.current_term {
                self.stepped_down(request.term, now_ms)
            } else {
                self
            };
            let vote_granted = present.grants_vote(request);
            let after = if vote_granted {
                NodeModel {
                    voted_for: Some(request.candidate_id),
                    pre_vote_term: None,
                    pre_vote_granted: Set::empty(),
                    ..present
                }.timer_reset(now_ms)
            } else {
                present
            };
            (after, RequestVoteReply { term: present.current_term, vote_granted })
        }
    }

    /// The reply is a fresh vote in the election that this node is running.
    pub open spec fn counts_vote(self, from: NodeId, reply: RequestVoteReply) -> bool {
        &&& self.role == Role::Candidate
        &&& reply.term == self.current_term
        &&& reply.vote_granted
        &&& !self.granted_voters.contains(from)
    }

    /// The reply completes a majority of votes.
    pub open spec fn wins_vote(self, from: NodeId, reply: RequestVoteReply) -> bool {
        &&& self.counts_vote(from, reply)
        &&& self.granted_voters.insert(from).len() >= self.majority()
    }

    pub open spec fn on_request_vote_reply(
        self,
        from: NodeId,
        reply: RequestVoteReply,
        now_ms: u64,
    ) -> (Self, Seq<MessageView>) {
        if reply.term > self.current_term {
            (self.stepped_down(reply.term, now_ms), Seq::empty())
        } else if !self.counts_vote(from, reply) {
            (self, Seq::empty())
        } else {
            let voters = self.granted_voters.insert(from);
            let counted = NodeModel {
                granted_voters: voters,
                votes_granted: voters.len() as usize,
                ..self
            };
            if self.wins_vote(from, reply) {
                counted.become_leader(now_ms)
            } else {
                (counted, Seq::empty())
            }
        }
    }

    /// The node as leader, with the no-op entry that opens its term.
    pub open spec fn elected(self, now_ms: u64) -> Self {
        let opened = self.log.push(
            LogEntryView { term: self.current_term, command: CommandView::Noop },
        );
        let start = self.last_index() + 1;
        NodeModel {
            role: Role::Leader,
            leader_id: Some(self.id),
            pre_vote_term: None,
            pre_vote_granted: Set::empty(),
            pending_reads: Map::empty(),
            leader_transfer_target: None,
            last_quorum_contact: Map::empty().insert(self.id, now_ms),
            last_heartbeat_at: now_ms,
            log: opened,
            term_start_index: start as LogIndex,
            next_index: Map::new(
                |peer: NodeId| self.peers.contains(peer),
                |peer: NodeId| (start + 1) as LogIndex,
            ),
            match_index: Map::new(
                |peer: NodeId| self.peers.contains(peer),
                |peer: NodeId| 0 as LogIndex,
            ).insert(self.id, start as LogIndex),
            ..self
        }
    }

    pub open spec fn become_leader(self, now_ms: u64) -> (Self, Seq<MessageView>) {
        (self.elected(now_ms), self.elected(now_ms).append_messages())
    }

    /// The node may campaign on a leader's word.
    pub open spec fn heeds_timeout(self, from: NodeId, request: TimeoutNow) -> bool {
        request.term >= self.current_term && request.leader_id == from
    }

    pub open spec fn on_timeout_now(self, from: NodeId, request: TimeoutNow, now_ms: u64) -> (
        Self,
        Seq<MessageView>,
    ) {
        if !self.heeds_timeout(from, request) {
            (self, Seq::empty())
        } else {
            NodeModel { leader_id: None, ..self.following(request.term, now_ms) }.start_election(
                now_ms,
            )
        }
    }

    // ---- replication ----

    /// The request comes from a leader that is not behind and its previous entry
    /// stands in the log.
    pub open spec fn accepts_append(self, request: AppendEntriesView) -> bool {
        &&& request.term >= self.current_term
        &&& request.prev_log_index >= self.log_base_index
        &&& self.term_at(request.prev_log_index as int) == Some(request.prev_log_term)
    }

    /// The node with its leader known and heard from at `now_ms`.
    pub open spec fn led_by(self, leader: NodeId, now_ms: u64) -> Self {
        NodeModel {
            leader_id: Some(leader),
            last_leader_contact: now_ms,
            ..self
        }.timer_reset(now_ms)
    }

    /// The node with the request's entries in its log and its commit index
    /// advanced, before anything is applied.
    pub open spec fn appended(self, request: AppendEntriesView) -> Self {
        let extended = NodeModel {
            log: self.merged_log(request.prev_log_index + 1, request.entries),
            ..self
        };
        NodeModel {
            commit_index: if request.leader_commit > self.commit_index {
                smaller(request.leader_commit as int, extended.last_index()) as LogIndex
            } else {
                self.commit_index
            },
            ..extended
        }
    }

    pub open spec fn on_append_entries(self, request: AppendEntriesView, now_ms: u64) -> (
        Self,
        AppendEntriesReply,
    ) {
        if request.term < self.current_term {
            (
                self,
                AppendEntriesReply {
                    term: self.current_term,
                    success: false,
                    match_index: self.last_index() as LogIndex,
                },
            )
        } else {
            let led = self.following(request.term, now_ms).led_by(request.leader_id, now_ms);
            if !self.accepts_append(request) {
                (
                    led,
                    AppendEntriesReply {
                        term: led.current_term,
                        success: false,
                        match_index: if request.prev_log_index < self.log_base_index {
                            0
                        } else {
                            self.last_index() as LogIndex
                        },
                    },
                )
            } else {
                (
                    led.appended(request).apply_committed().0,
                    AppendEntriesReply {
                        term: led.current_term,
                        success: true,
                        match_index: (request.prev_log_index
                            + request.entries.len()) as LogIndex,
                    },
                )
            }
        }
    }

    /// A reply of this term from a peer to this node as leader.
    pub open spec fn hears_peer(self, from: NodeId, term: Term) -> bool {
        &&& self.role == Role::Leader
        &&& term == self.current_term
        &&& self.peers.contains(from)
    }

    /// The leader with the contact noted.
    pub open spec fn contacted(self, from: NodeId, now_ms: u64) -> Self {
        NodeModel { last_quorum_contact: self.last_quorum_contact.insert(from, now_ms), ..self }
    }

    /// The leader with `from` known to hold the log up to `index`, never less
    /// than it was known to hold before.
    pub open spec fn acknowledged(self, from: NodeId, index: LogIndex) -> Self {
        let matched = larger(self.matched_by(from) as int, index as int);
        NodeModel {
            match_index: self.match_index.insert(from, matched as LogIndex),
            next_index: self.next_index.insert(from, (matched + 1) as LogIndex),
            ..self
        }
    }

    pub open spec fn on_append_reply(self, from: NodeId, reply: AppendEntriesReply, now_ms: u64) -> (
        Self,
        Seq<MessageView>,
    ) {
        if reply.term > self.current_term {
            (self.stepped_down(reply.term, now_ms), Seq::empty())
        } else if !self.hears_peer(from, reply.term) {
            (self, Seq::empty())
        } else if reply.success {
            let advanced = self.contacted(from, now_ms).acknowledged(
                from,
                reply.match_index,
            ).commit_advanced();
            if self.leader_transfer_target == Some(from) && larger(
                self.matched_by(from) as int,
                reply.match_index as int,
            ) >= self.last_index() {
                let released = NodeModel { leader_transfer_target: None, ..advanced };
                (released, seq![released.timeout_message(from)])
            } else {
                (advanced, Seq::empty())
            }
        } else {
            let next = larger(minus(self.next_for(from), 1), 1);
            let backed = NodeModel {
                next_index: self.next_index.insert(from, next as LogIndex),
                ..self.contacted(from, now_ms)
            };
            (backed, seq![backed.append_message(from)])
        }
    }

    // ---- snapshots ----

    pub open spec fn create_snapshot(self) -> Result<SnapshotView, Error> {
        match S::captured(self.state) {
            Err(error) => Err(error),
            Ok(state) => {
                if state.last_applied != self.last_applied {
                    Err(Error::StaleStateSnapshot)
                } else {
                    let snapshot = SnapshotView {
                        version: SNAPSHOT_FORMAT_VERSION,
                        last_included_index: self.last_applied,
                        last_included_term: self.term_or_zero(self.last_applied as int),
                        state,
                    };
                    match snapshot.validity() {
                        Ok(()) => Ok(snapshot),
                        Err(error) => Err(error),
                    }
                }
            },
        }
    }

    /// The node with its log cut at a snapshot's boundary: the boundary slot,
    /// then `suffix`.
    pub open spec fn rebased(self, snapshot: SnapshotView, suffix: Seq<LogEntryView>) -> Self {
        NodeModel {
            log: seq![
                LogEntryView { term: snapshot.last_included_term, command: CommandView::Noop },
            ] + suffix,
            log_base_index: snapshot.last_included_index,
            snapshot: Some(snapshot),
            ..self
        }
    }

    pub open spec fn compact_to(self, index: LogIndex) -> (Self, Result<SnapshotView, Error>) {
        if index <= self.log_base_index || index != self.last_applied || index
            > self.commit_index {
            (self, Err(Error::CompactionPoint))
        } else {
            match self.create_snapshot() {
                Err(error) => (self, Err(error)),
                Ok(snapshot) => (
                    self.rebased(snapshot, self.entries_from(index + 1)),
                    Ok(snapshot),
                ),
            }
        }
    }

    /// The node already stands at or past the snapshot.
    pub open spec fn outdates(self, snapshot: SnapshotView) -> bool {
        ||| snapshot.last_included_index < self.log_base_index
        ||| {
            &&& snapshot.last_included_index == self.log_base_index
            &&& self.snapshot matches Some(current)
                && current.last_included_term == snapshot.last_included_term
        }
        ||| snapshot.last_included_index < self.commit_index
    }

    /// The snapshot is in order and news to the node.
    pub open spec fn takes(self, snapshot: SnapshotView) -> bool {
        snapshot.valid() && !self.outdates(snapshot)
    }

    /// A snapshot that would be installed leaves room for an index past it.
    #[verifier::opaque]
    pub open spec fn can_install(self, snapshot: SnapshotView) -> bool {
        snapshot.valid() && !self.outdates(snapshot) ==> snapshot.last_included_index < usize::MAX
    }

    /// The entries that stay behind an installed snapshot: those that follow its
    /// boundary, if the log holds the boundary.
    pub open spec fn surviving_entries(self, snapshot: SnapshotView) -> Seq<LogEntryView> {
        if self.term_at(snapshot.last_included_index as int) == Some(snapshot.last_included_term) {
            self.entries_from(snapshot.last_included_index + 1)
        } else {
            Seq::empty()
        }
    }

    pub open spec fn install_snapshot(self, snapshot: SnapshotView) -> (
        Self,
        Result<SnapshotInstallResult, Error>,
    ) {
        match snapshot.validity() {
            Err(error) => (self, Err(error)),
            Ok(()) => {
                if self.outdates(snapshot) {
                    (self, Ok(SnapshotInstallResult::Stale))
                } else {
                    let (state, result) = S::restored(self.state, snapshot.state);
                    match result {
                        Err(error) => (NodeModel { state, ..self }, Err(error)),
                        Ok(()) => (
                            NodeModel {
                                state,
                                commit_index: larger(
                                    self.commit_index as int,
                                    snapshot.last_included_index as int,
                                ) as LogIndex,
                                last_applied: snapshot.last_included_index,
                                leader_id: None,
                                ..self.rebased(snapshot, self.surviving_entries(snapshot))
                            },
                            Ok(SnapshotInstallResult::Installed),
                        ),
                    }
                }
            },
        }
    }

    /// Installs a snapshot that `from` sent; the sender of an installed one is
    /// the leader.
    pub open spec fn install_from(self, from: NodeId, snapshot: SnapshotView, now_ms: u64) -> (
        Self,
        Result<SnapshotInstallResult, Error>,
    ) {
        let (installed, result) = self.install_snapshot(snapshot);
        if result == Ok::<_, Error>(SnapshotInstallResult::Installed) {
            (installed.led_by(from, now_ms), result)
        } else {
            (installed, result)
        }
    }

    pub open spec fn on_install_snapshot(
        self,
        from: NodeId,
        snapshot: SnapshotView,
        now_ms: u64,
    ) -> (Self, InstallSnapshotReply) {
        let index = snapshot.last_included_index;
        let already = self.log_base_index == index && self.term_at(index as int) == Some(
            snapshot.last_included_term,
        );
        let (after, result) = self.install_from(from, snapshot, now_ms);
        (
            after,
            InstallSnapshotReply {
                term: self.current_term,
                accepted: {
                    ||| result == Ok::<_, Error>(SnapshotInstallResult::Installed)
                    ||| already && result == Ok::<_, Error>(SnapshotInstallResult::Stale)
                },
                last_included_index: index,
            },
        )
    }

    pub open spec fn on_install_request(
        self,
        from: NodeId,
        request: InstallSnapshotRequestView,
        now_ms: u64,
    ) -> (Self, InstallSnapshotReply) {
        if request.term < self.current_term {
            (
                self,
                InstallSnapshotReply {
                    term: self.current_term,
                    accepted: false,
                    last_included_index: request.snapshot.last_included_index,
                },
            )
        } else {
            let present = self.following(request.term, now_ms);
            if request.leader_id != from {
                (
                    present,
                    InstallSnapshotReply {
                        term: present.current_term,
                        accepted: false,
                        last_included_index: request.snapshot.last_included_index,
                    },
                )
            } else {
                present.on_install_snapshot(from, request.snapshot, now_ms)
            }
        }
    }

    /// An acceptance of this term that reaches this node as leader.
    pub open spec fn hears_acceptance(self, reply: InstallSnapshotReply) -> bool {
        self.role == Role::Leader && reply.term == self.current_term && reply.accepted
    }

    pub open spec fn on_install_reply(
        self,
        from: NodeId,
        reply: InstallSnapshotReply,
        now_ms: u64,
    ) -> (Self, Seq<MessageView>) {
        if reply.term > self.current_term {
            (self.stepped_down(reply.term, now_ms), Seq::empty())
        } else if !self.hears_acceptance(reply) {
            (self, Seq::empty())
        } else {
            let after = self.contacted(from, now_ms).acknowledged(from, reply.last_included_index);
            (after, seq![after.append_message(from)])
        }
    }

    /// A chunk from a current leader, of a transfer that is not too large.
    pub open spec fn admits_chunk(self, from: NodeId, chunk: InstallSnapshotChunkView) -> bool {
        &&& chunk.term >= self.current_term
        &&& chunk.leader_id == from
        &&& chunk.total_size <= MAX_TRANSFER_BYTES
    }

    /// The node ready for the chunk: its sender followed, and a new transfer
    /// opened if it is the first.
    pub open spec fn receiving(self, chunk: InstallSnapshotChunkView, now_ms: u64) -> Self {
        let present = self.following(chunk.term, now_ms);
        if chunk.offset == 0 {
            NodeModel {
                incoming_snapshot: Some(
                    (
                        chunk.snapshot_id,
                        PartialSnapshotModel {
                            term: chunk.term,
                            leader_id: chunk.leader_id,
                            total_size: chunk.total_size,
                            bytes: Seq::empty(),
                        },
                    ),
                ),
                ..present
            }
        } else {
            present
        }
    }

    /// The chunk is the next piece of the transfer under way.
    pub open spec fn continues_transfer(self, chunk: InstallSnapshotChunkView) -> bool {
        &&& self.incoming_snapshot matches Some((id, transfer))
        &&& id == chunk.snapshot_id
        &&& transfer.term == chunk.term
        &&& transfer.leader_id == chunk.leader_id
        &&& transfer.total_size == chunk.total_size
        &&& transfer.bytes.len() == chunk.offset
        &&& chunk.data.len() <= minus(chunk.total_size as int, chunk.offset as int)
    }

    /// The bytes of the transfer under way that have arrived so far.
    pub open spec fn incoming_bytes(self) -> Seq<u8> {
        match self.incoming_snapshot {
            Some((_, transfer)) => transfer.bytes,
            None => Seq::empty(),
        }
    }

    /// The bytes that have arrived with the chunk.
    pub open spec fn arrived(self, chunk: InstallSnapshotChunkView) -> Seq<u8> {
        self.incoming_bytes() + chunk.data
    }

    /// The node with the chunk's bytes stored.
    pub open spec fn storing(self, chunk: InstallSnapshotChunkView) -> Self {
        let (id, transfer) = self.incoming_snapshot->0;
        NodeModel {
            incoming_snapshot: Some(
                (id, PartialSnapshotModel { bytes: self.arrived(chunk), ..transfer }),
            ),
            ..self
        }
    }

    /// The chunk ends its transfer.
    pub open spec fn completes_transfer(
        self,
        from: NodeId,
        chunk: InstallSnapshotChunkView,
        now_ms: u64,
    ) -> bool {
        let ready = self.receiving(chunk, now_ms);
        &&& self.admits_chunk(from, chunk)
        &&& ready.continues_transfer(chunk)
        &&& chunk.done
        &&& ready.arrived(chunk).len() == chunk.total_size
    }

    /// The node after the last byte of a transfer: the snapshot, if the bytes
    /// hold one, is installed, and the transfer is over.
    pub open spec fn finish_transfer(self, from: NodeId, bytes: Seq<u8>, now_ms: u64) -> (
        Self,
        bool,
    ) {
        let (after, accepted) = match parsed_snapshot(bytes) {
            None => (self, false),
            Some(snapshot) => {
                let (installed, result) = self.install_from(from, snapshot, now_ms);
                (installed, result is Ok)
            },
        };
        (NodeModel { incoming_snapshot: None, ..after }, accepted)
    }

    pub open spec fn on_chunk(self, from: NodeId, chunk: InstallSnapshotChunkView, now_ms: u64) -> (
        Self,
        InstallSnapshotChunkReply,
    ) {
        let refusal = InstallSnapshotChunkReply {
            term: self.current_term,
            snapshot_id: chunk.snapshot_id,
            accepted: false,
            next_offset: 0,
        };
        let ready = self.receiving(chunk, now_ms);
        if !self.admits_chunk(from, chunk) {
            (self, refusal)
        } else if ready.incoming_snapshot is None {
            (ready, refusal)
        } else if !ready.continues_transfer(chunk) {
            (
                ready,
                InstallSnapshotChunkReply {
                    next_offset: ready.incoming_bytes().len() as usize,
                    ..refusal
                },
            )
        } else {
            let bytes = ready.arrived(chunk);
            let next_offset = bytes.len() as usize;
            if !chunk.done {
                (
                    ready.storing(chunk).timer_reset(now_ms),
                    InstallSnapshotChunkReply {
                        term: ready.current_term,
                        accepted: true,
                        next_offset,
                        ..refusal
                    },
                )
            } else if bytes.len() != chunk.total_size {
                (ready.storing(chunk), InstallSnapshotChunkReply { next_offset, ..refusal })
            } else {
                let (after, accepted) = ready.finish_transfer(from, bytes, now_ms);
                (
                    after,
                    InstallSnapshotChunkReply {
                        term: ready.current_term,
                        accepted,
                        next_offset,
                        ..refusal
                    },
                )
            }
        }
    }

    /// The encoding that the reply speaks of: that of the leader's snapshot, if
    /// the reply is about it.
    pub open spec fn transferring(self, from: NodeId, reply: InstallSnapshotChunkReply) -> Option<
        (SnapshotView, Seq<u8>),
    > {
        if !self.hears_peer(from, reply.term) {
            None
        } else {
            match self.snapshot {
                None => None,
                Some(snapshot) => match snapshot_bytes(snapshot) {
                    Some(bytes) if transfer_id(snapshot) == reply.snapshot_id => Some(
                        (snapshot, bytes),
                    ),
                    _ => None,
                },
            }
        }
    }

    pub open spec fn on_chunk_reply(
        self,
        from: NodeId,
        reply: InstallSnapshotChunkReply,
        now_ms: u64,
    ) -> (Self, Seq<MessageView>) {
        if reply.term > self.current_term {
            (self.stepped_down(reply.term, now_ms), Seq::empty())
        } else {
            match self.transferring(from, reply) {
                None => (self, Seq::empty()),
                Some((snapshot, bytes)) => {
                    let heard = self.contacted(from, now_ms);
                    if !reply.accepted || reply.next_offset < bytes.len() {
                        (
                            heard,
                            seq![
                                heard.chunk_message(
                                    from,
                                    snapshot,
                                    reply.next_offset as int,
                                    bytes,
                                ),
                            ],
                        )
                    } else {
                        let done = NodeModel {
                            match_index: self.match_index.insert(
                                from,
                                larger(
                                    self.log_base_index as int,
                                    self.matched_by(from) as int,
                                ) as LogIndex,
                            ),
                            next_index: self.next_index.insert(
                                from,
                                (self.log_base_index + 1) as LogIndex,
                            ),
                            ..heard
                        };
                        (done, seq![done.append_message(from)])
                    }
                },
            }
        }
    }

    /// The whole transfer of this node's snapshot to `peer`, chunk by chunk.
    pub open spec fn transfer_chunks(self, peer: NodeId) -> Seq<MessageView> {
        match self.snapshot {
            None => Seq::empty(),
            Some(snapshot) => match snapshot_bytes(snapshot) {
                None => Seq::empty(),
                Some(bytes) => {
                    let count = if bytes.len() == 0 {
                        1
                    } else {
                        (bytes.len() + SNAPSHOT_CHUNK_BYTES - 1) / SNAPSHOT_CHUNK_BYTES as int
                    };
                    Seq::new(
                        count as nat,
                        |i: int|
                            self.chunk_message(peer, snapshot, i * SNAPSHOT_CHUNK_BYTES, bytes),
                    )
                },
            },
        }
    }

    // ---- reads ----

    pub open spec fn read_barrier(self) -> LogIndex {
        larger(self.commit_index as int, self.term_start_index as int) as LogIndex
    }

    pub open spec fn start_read(self) -> (
        Self,
        Result<(PendingRead, Seq<MessageView>), ClientReplyView>,
    ) {
        if self.role != Role::Leader {
            (self, Err(ClientReplyView::refused(self.leader_id)))
        } else {
            let id = self.next_read_id;
            let barrier_index = self.read_barrier();
            let after = NodeModel {
                next_read_id: id.wrapping_add(1),
                pending_reads: self.pending_reads.insert(
                    id,
                    PendingReadModel {
                        term: self.current_term,
                        barrier_index,
                        acknowledgements: Set::empty().insert(self.id),
                    },
                ),
                ..self
            };
            (
                after,
                Ok(
                    (
                        PendingRead { id, term: self.current_term, barrier_index },
                        after.to_peers(
                            RpcView::ReadIndex(
                                ReadIndex {
                                    term: self.current_term,
                                    leader_id: self.id,
                                    request_id: id,
                                    commit_index: barrier_index,
                                },
                            ),
                        ),
                    ),
                ),
            )
        }
    }

    /// The leader may serve the read: a majority has confirmed it since the read
    /// began, and its state has reached the read's barrier.
    pub open spec fn read_ready(self, read: PendingRead) -> bool {
        &&& self.role == Role::Leader
        &&& self.current_term == read.term
        &&& self.commit_index >= read.barrier_index
        &&& self.last_applied >= read.barrier_index
        &&& self.pending_reads.contains_key(read.id)
        &&& self.pending_reads[read.id].term == read.term
        &&& self.pending_reads[read.id].barrier_index == read.barrier_index
        &&& self.pending_reads[read.id].acknowledgements.len() >= self.majority()
    }

    pub open spec fn on_read_index(self, from: NodeId, request: ReadIndex, now_ms: u64) -> (
        Self,
        ReadIndexReply,
    ) {
        let after = if request.term >= self.current_term && request.leader_id == from {
            self.following(request.term, now_ms).led_by(from, now_ms)
        } else {
            self
        };
        (
            after,
            ReadIndexReply {
                term: after.current_term,
                request_id: request.request_id,
                applied_index: self.last_applied,
            },
        )
    }

    pub open spec fn on_read_reply(self, from: NodeId, reply: ReadIndexReply, now_ms: u64) -> (
        Self,
        Seq<MessageView>,
    ) {
        if reply.term > self.current_term {
            (self.stepped_down(reply.term, now_ms), Seq::empty())
        } else if !self.hears_peer(from, reply.term) {
            (self, Seq::empty())
        } else {
            let heard = self.contacted(from, now_ms);
            if self.pending_reads.contains_key(reply.request_id)
                && self.pending_reads[reply.request_id].term == self.current_term {
                let read = self.pending_reads[reply.request_id];
                (
                    NodeModel {
                        pending_reads: self.pending_reads.insert(
                            reply.request_id,
                            PendingReadModel {
                                acknowledgements: read.acknowledgements.insert(from),
                                ..read
                            },
                        ),
                        ..heard
                    },
                    Seq::empty(),
                )
            } else {
                (heard, Seq::empty())
            }
        }
    }

    // ---- writes and leadership transfer ----

    /// The leader with `command` appended to its log.
    pub open spec fn proposed(self, command: CommandView) -> Self {
        let extended = NodeModel {
            log: self.log.push(LogEntryView { term: self.current_term, command }),
            ..self
        };
        NodeModel {
            match_index: self.match_index.insert(self.id, extended.last_index() as LogIndex),
            ..extended
        }
    }

    /// The command of a write request.
    pub open spec fn command_of(request: ClientRequestView) -> Option<CommandView> {
        match request {
            ClientRequestView::Put { key, value } => Some(CommandView::Put { key, value }),
            ClientRequestView::Delete { key } => Some(CommandView::Delete { key }),
            _ => None,
        }
    }

    pub open spec fn start_write(self, request: ClientRequestView) -> (
        Self,
        Result<(PendingWrite, Seq<MessageView>), ClientReplyView>,
    ) {
        if self.role != Role::Leader {
            (self, Err(ClientReplyView::refused(self.leader_id)))
        } else {
            match Self::command_of(request) {
                None => (self, Err(ClientReplyView::refused(Some(self.id)))),
                Some(command) => {
                    let after = self.proposed(command);
                    (
                        after,
                        Ok(
                            (
                                PendingWrite {
                                    index: after.last_index() as LogIndex,
                                    term: self.current_term,
                                },
                                after.append_messages(),
                            ),
                        ),
                    )
                },
            }
        }
    }

    /// The write stands in the log, committed and applied.
    pub open spec fn write_done(self, write: PendingWrite) -> bool {
        &&& self.term_at(write.index as int) == Some(write.term)
        &&& self.commit_index >= write.index
        &&& self.last_applied >= write.index
    }

    /// What the node answers without the life cycle of a write or a read.
    pub open spec fn direct_reply(self, request: ClientRequestView) -> ClientReplyView {
        match request {
            ClientRequestView::LocalGet { key } => match S::lookup(self.state, key) {
                Ok(response) => ClientReplyView {
                    success: true,
                    leader_id: self.leader_id,
                    response,
                },
                Err(_) => ClientReplyView::refused(self.leader_id),
            },
            _ => if self.role != Role::Leader {
                ClientReplyView::refused(self.leader_id)
            } else {
                ClientReplyView {
                    success: false,
                    leader_id: Some(self.id),
                    response: Some(
                        if request is Get {
                            "read requires a ReadIndex lifecycle"@
                        } else {
                            "pending write requires proposal lifecycle"@
                        },
                    ),
                }
            },
        }
    }

    pub open spec fn transfer_leadership(self, target: NodeId, now_ms: u64) -> (
        Self,
        Result<Seq<MessageView>, Error>,
    ) {
        if self.role != Role::Leader {
            (self, Err(Error::NotLeader))
        } else if !self.peers.contains(target) {
            (self, Err(Error::TransferTargetNotPeer))
        } else {
            let after = NodeModel {
                leader_transfer_target: Some(target),
                last_quorum_contact: if self.last_quorum_contact.contains_key(target) {
                    self.last_quorum_contact
                } else {
                    self.last_quorum_contact.insert(target, now_ms)
                },
                ..self
            };
            (
                after,
                Ok(
                    seq![
                        if self.matched_by(target) < self.last_index() {
                            after.append_message(target)
                        } else {
                            after.timeout_message(target)
                        },
                    ],
                ),
            )
        }
    }

    // ---- events ----

    /// It is time for a leader to send heartbeats.
    pub open spec fn heartbeat_due(self, now_ms: u64) -> bool {
        self.role == Role::Leader && minus(now_ms as int, self.last_heartbeat_at as int)
            >= HEARTBEAT_MS
    }

    /// It is time for a node without a leader to campaign.
    pub open spec fn election_due(self, now_ms: u64) -> bool {
        self.role != Role::Leader && now_ms >= self.election_deadline
    }

    /// The clock's tick at `now_ms` stays within what the machine can count.
    pub open spec fn can_tick(self, now_ms: u64) -> bool {
        &&& self.heartbeat_due(now_ms) && !self.has_quorum_contact(now_ms) || self.election_due(
            now_ms,
        ) ==> clock_has_room(now_ms)
        &&& self.election_due(now_ms) && (self.role == Role::Candidate || 1 >= self.majority())
            ==> self.current_term < u64::MAX
    }

    pub open spec fn tick(self, now_ms: u64) -> (Self, Seq<MessageView>) {
        if self.heartbeat_due(now_ms) {
            if !self.has_quorum_contact(now_ms) {
                (self.stepped_down(self.current_term, now_ms), Seq::empty())
            } else {
                let beating = NodeModel { last_heartbeat_at: now_ms, ..self };
                (beating, beating.append_messages())
            }
        } else if self.election_due(now_ms) {
            if self.role == Role::Candidate {
                self.start_election(now_ms)
            } else {
                self.start_pre_vote(now_ms)
            }
        } else {
            (self, Seq::empty())
        }
    }

    /// The request for a vote moves the node to a later term, or gets its vote.
    pub open spec fn moved_by_vote(self, request: RequestVote) -> bool {
        ||| request.term > self.current_term
        ||| {
            &&& request.term == self.current_term
            &&& self.role != Role::Leader || request.candidate_id == self.id
            &&& self.grants_vote(request)
        }
    }

    /// A leader of `term` makes the node a follower.
    pub open spec fn moved_by_leader(self, term: Term) -> bool {
        term > self.current_term || (term == self.current_term && self.role != Role::Follower)
    }

    /// The chunk makes the node a follower, continues its transfer, or ends it with a
    /// snapshot that the node takes.
    pub open spec fn moved_by_chunk(
        self,
        from: NodeId,
        chunk: InstallSnapshotChunkView,
        now_ms: u64,
    ) -> bool {
        let ready = self.receiving(chunk, now_ms);
        &&& self.admits_chunk(from, chunk)
        &&& {
            ||| self.moved_by_leader(chunk.term)
            ||| !chunk.done && ready.continues_transfer(chunk)
            ||| self.completes_transfer(from, chunk, now_ms) && {
                parsed_snapshot(ready.arrived(chunk)) matches Some(snapshot) && self.takes(snapshot)
            }
        }
    }

    /// Handling the message sets the election timer.
    #[verifier::opaque]
    pub open spec fn sets_timer(self, from: NodeId, rpc: RpcView, now_ms: u64) -> bool {
        match rpc {
            RpcView::RequestVote(request) => self.moved_by_vote(request),
            RpcView::RequestVoteReply(reply) => reply.term > self.current_term,
            RpcView::AppendEntries(request) => request.term >= self.current_term,
            RpcView::AppendEntriesReply(reply) => reply.term > self.current_term,
            RpcView::InstallSnapshot(snapshot) => self.takes(snapshot),
            RpcView::InstallSnapshotReply(reply) => reply.term > self.current_term,
            RpcView::PreVote(_) => false,
            RpcView::PreVoteReply(reply) => reply.term > self.current_term || self.wins_pre_vote(
                from,
                reply,
            ),
            RpcView::InstallSnapshotRequest(request) => self.moved_by_leader(request.term) || {
                &&& request.term == self.current_term
                &&& request.leader_id == from
                &&& self.takes(request.snapshot)
            },
            RpcView::ReadIndex(request) => request.term >= self.current_term && request.leader_id
                == from,
            RpcView::ReadIndexReply(reply) => reply.term > self.current_term,
            RpcView::TimeoutNow(request) => self.heeds_timeout(from, request),
            RpcView::InstallSnapshotChunk(chunk) => self.moved_by_chunk(from, chunk, now_ms),
            RpcView::InstallSnapshotChunkReply(reply) => reply.term > self.current_term,
        }
    }

    /// Handling the message at `now_ms` stays within what the machine can count,
    /// and a chunk reply asks for no byte past the end of the encoding.
    pub open spec fn can_handle(self, from: NodeId, rpc: RpcView, now_ms: u64) -> bool {
        &&& self.sets_timer(from, rpc, now_ms) ==> clock_has_room(now_ms)
        &&& match rpc {
            RpcView::PreVoteReply(reply) => self.wins_pre_vote(from, reply) ==> self.current_term
                < u64::MAX,
            RpcView::RequestVoteReply(reply) => self.wins_vote(from, reply) ==> self.last_index()
                + 1 < usize::MAX,
            RpcView::AppendEntries(request) => self.accepts_append(request) ==> {
                request.prev_log_index + request.entries.len() < usize::MAX
            },
            RpcView::AppendEntriesReply(reply) => self.hears_peer(from, reply.term)
                && reply.success ==> {
                &&& self.matched_by(from) < usize::MAX
                &&& reply.match_index < usize::MAX
            },
            RpcView::InstallSnapshot(snapshot) => self.can_install(snapshot),
            RpcView::InstallSnapshotRequest(request) => self.can_install(request.snapshot),
            RpcView::InstallSnapshotReply(reply) => self.hears_acceptance(reply) ==> {
                &&& self.matched_by(from) < usize::MAX
                &&& reply.last_included_index < usize::MAX
            },
            RpcView::TimeoutNow(request) => self.heeds_timeout(from, request) ==> request.term
                < u64::MAX,
            RpcView::InstallSnapshotChunk(chunk) => self.completes_transfer(from, chunk, now_ms)
                ==> {
                parsed_snapshot(self.receiving(chunk, now_ms).arrived(chunk)) matches Some(snapshot)
                    ==> self.can_install(snapshot)
            },
            RpcView::InstallSnapshotChunkReply(reply) => self.transferring(from, reply) matches Some(
                (snapshot, bytes),
            ) ==> reply.accepted || reply.next_offset <= bytes.len(),
            _ => true,
        }
    }

    /// One reply to the sender.
    pub open spec fn answer(self, from: NodeId, rpc: RpcView) -> Seq<MessageView> {
        seq![self.message(from, rpc)]
    }

    pub open spec fn handle(self, from: NodeId, rpc: RpcView, now_ms: u64) -> (
        Self,
        Seq<MessageView>,
    ) {
        match rpc {
            RpcView::RequestVote(request) => {
                let (after, reply) = self.on_request_vote(request, now_ms);
                (after, self.answer(from, RpcView::RequestVoteReply(reply)))
            },
            RpcView::RequestVoteReply(reply) => self.on_request_vote_reply(from, reply, now_ms),
            RpcView::AppendEntries(request) => {
                let (after, reply) = self.on_append_entries(request, now_ms);
                (after, self.answer(from, RpcView::AppendEntriesReply(reply)))
            },
            RpcView::AppendEntriesReply(reply) => self.on_append_reply(from, reply, now_ms),
            RpcView::InstallSnapshot(snapshot) => {
                let (after, reply) = self.on_install_snapshot(from, snapshot, now_ms);
                (after, self.answer(from, RpcView::InstallSnapshotReply(reply)))
            },
            RpcView::InstallSnapshotReply(reply) => self.on_install_reply(from, reply, now_ms),
            RpcView::PreVote(request) => (
                self,
                self.answer(from, RpcView::PreVoteReply(self.pre_vote_reply(request, now_ms))),
            ),
            RpcView::PreVoteReply(reply) => self.on_pre_vote_reply(from, reply, now_ms),
            RpcView::InstallSnapshotRequest(request) => {
                let (after, reply) = self.on_install_request(from, request, now_ms);
                (after, self.answer(from, RpcView::InstallSnapshotReply(reply)))
            },
            RpcView::ReadIndex(request) => {
                let (after, reply) = self.on_read_index(from, request, now_ms);
                (after, self.answer(from, RpcView::ReadIndexReply(reply)))
            },
            RpcView::ReadIndexReply(reply) => self.on_read_reply(from, reply, now_ms),
            RpcView::TimeoutNow(request) => self.on_timeout_now(from, request, now_ms),
            RpcView::InstallSnapshotChunk(chunk) => {
                let (after, reply) = self.on_chunk(from, chunk, now_ms);
                (after, self.answer(from, RpcView::InstallSnapshotChunkReply(reply)))
            },
            RpcView::InstallSnapshotChunkReply(reply) => self.on_chunk_reply(from, reply, now_ms),
        }
    }
}

} // verus!
