//! The two events that drive a node: the clock and messages.
use crate::codec::decode_snapshot;
use crate::codec::encode_snapshot;
use crate::codec::hash_bytes;
use crate::codec::parsed_snapshot;
use crate::node::model::clock_has_room;
use crate::node::model::NodeModel;
use crate::node::Node;
use crate::node::ELECTION_MIN_MS;
use crate::node::ELECTION_SPAN_MS;
use crate::node::HEARTBEAT_MS;
use crate::node::MAX_TRANSFER_BYTES;
use crate::state_machine::StateMachine;
use crate::types::copy_bytes;
use crate::types::AppendEntries;
use crate::types::InstallSnapshotChunk;
use crate::types::InstallSnapshotChunkReply;
use crate::types::Message;
use crate::types::MessageView;
use crate::types::NodeId;
use crate::types::PreVoteReply;
use crate::types::RequestVote;
use crate::types::RequestVoteReply;
use crate::types::Role;
use crate::types::Rpc;
use crate::types::Snapshot;
use crate::types::Term;
use vstd::prelude::*;

verus! {

broadcast use vstd::std_specs::hash::group_hash_axioms;

/// The messages inside, as mathematical values.
pub open spec fn optional_messages(messages: Option<Vec<Message>>) -> Option<Seq<MessageView>> {
    match messages {
        Some(inner) => Some(inner.deep_view()),
        None => None,
    }
}

fn has_clock_room(now_ms: u64) -> (room: bool)
    ensures
        room == clock_has_room(now_ms),
{
    now_ms <= u64::MAX - (ELECTION_MIN_MS + ELECTION_SPAN_MS - 1)
}

impl<S: StateMachine> Node<S> {
    /// Lets the clock reach `now_ms`: a leader sends heartbeats, or steps down
    /// once it has lost its quorum; the others campaign when their timer is up.
    pub fn tick(&mut self, now_ms: u64) -> (messages: Vec<Message>)
        requires
            old(self)@.well_formed(),
            old(self)@.can_tick(now_ms),
        ensures
            (final(self)@, messages.deep_view()) == old(self)@.tick(now_ms),
            final(self)@.well_formed(),
    {
        let none: Vec<Message> = Vec::new();
        assert(none.deep_view() =~= Seq::<MessageView>::empty());
        match self.role {
            Role::Leader => {
                if now_ms.saturating_sub(self.last_heartbeat_at) < HEARTBEAT_MS {
                    return none;
                }
                if !self.has_quorum_contact(now_ms) {
                    self.step_down(self.current_term, now_ms);
                    return none;
                }
                self.last_heartbeat_at = now_ms;
                self.append_messages()
            },
            Role::Candidate => {
                if now_ms < self.election_deadline {
                    return none;
                }
                self.start_election(now_ms)
            },
            Role::Follower => {
                if now_ms < self.election_deadline {
                    return none;
                }
                self.start_pre_vote(now_ms)
            },
        }
    }

    /// Whether [`Node::tick`] may be called at `now_ms`.
    pub fn can_tick(&self, now_ms: u64) -> (possible: bool)
        requires
            self@.well_formed(),
        ensures
            possible == self@.can_tick(now_ms),
    {
        if self.role == Role::Leader {
            now_ms.saturating_sub(self.last_heartbeat_at) < HEARTBEAT_MS || has_clock_room(now_ms)
                || self.has_quorum_contact(now_ms)
        } else if now_ms < self.election_deadline {
            true
        } else {
            has_clock_room(now_ms) && (self.current_term < u64::MAX || (self.role
                != Role::Candidate && 1 < self.majority()))
        }
    }

    /// Reacts to a message: updates the node and returns what it sends.
    pub fn handle_message(&mut self, from: NodeId, rpc: Rpc, now_ms: u64) -> (messages: Vec<
        Message,
    >)
        requires
            old(self)@.well_formed(),
            old(self)@.can_handle(from, rpc@, now_ms),
        ensures
            (final(self)@, messages.deep_view()) == old(self)@.handle(from, rpc@, now_ms),
            final(self)@.well_formed(),
    {
        proof {
            reveal(NodeModel::sets_timer);
        }
        match rpc {
            Rpc::RequestVote(request) => {
                let reply = self.handle_request_vote(request, now_ms);
                self.answer(from, Rpc::RequestVoteReply(reply))
            },
            Rpc::RequestVoteReply(reply) => self.handle_request_vote_reply(from, reply, now_ms),
            Rpc::AppendEntries(request) => {
                let ghost asked = request@;
                let reply = self.handle_append_entries(request, now_ms);
                proof {
                    super::laws::lemma_append_entries_frame(old(self)@, asked, now_ms);
                }
                self.answer(from, Rpc::AppendEntriesReply(reply))
            },
            Rpc::AppendEntriesReply(reply) => self.handle_append_entries_reply(
                from,
                reply,
                now_ms,
            ),
            Rpc::InstallSnapshot(snapshot) => {
                let reply = self.handle_install_snapshot(from, snapshot, now_ms);
                self.answer(from, Rpc::InstallSnapshotReply(reply))
            },
            Rpc::InstallSnapshotReply(reply) => self.handle_install_snapshot_reply(
                from,
                reply,
                now_ms,
            ),
            Rpc::PreVote(request) => {
                let reply = self.handle_pre_vote(request, now_ms);
                self.answer(from, Rpc::PreVoteReply(reply))
            },
            Rpc::PreVoteReply(reply) => self.handle_pre_vote_reply(from, reply, now_ms),
            Rpc::InstallSnapshotRequest(request) => {
                let reply = self.handle_install_snapshot_request(from, request, now_ms);
                self.answer(from, Rpc::InstallSnapshotReply(reply))
            },
            Rpc::ReadIndex(request) => {
                let reply = self.handle_read_index(from, request, now_ms);
                self.answer(from, Rpc::ReadIndexReply(reply))
            },
            Rpc::ReadIndexReply(reply) => self.handle_read_index_reply(from, reply, now_ms),
            Rpc::TimeoutNow(request) => self.handle_timeout_now(from, request, now_ms),
            Rpc::InstallSnapshotChunk(chunk) => {
                let reply = self.handle_install_snapshot_chunk(from, chunk, now_ms);
                self.answer(from, Rpc::InstallSnapshotChunkReply(reply))
            },
            Rpc::InstallSnapshotChunkReply(reply) => self.handle_install_snapshot_chunk_reply(
                from,
                reply,
                now_ms,
            ),
        }
    }

    fn wins_pre_vote(&self, from: NodeId, reply: PreVoteReply) -> (wins: bool)
        requires
            self@.well_formed(),
        ensures
            wins == self@.wins_pre_vote(from, reply),
    {
        let asked = match self.pre_vote_term {
            Some(term) => term == self.current_term.saturating_add(1),
            None => false,
        };
        reply.term <= self.current_term && asked && reply.vote_granted
            && !self.pre_vote_granted.contains(&from) && self.pre_vote_granted.len()
            >= self.majority() - 1
    }

    fn wins_vote(&self, from: NodeId, reply: RequestVoteReply) -> (wins: bool)
        requires
            self@.well_formed(),
        ensures
            wins == self@.wins_vote(from, reply),
    {
        self.role == Role::Candidate && reply.term == self.current_term && reply.vote_granted
            && !self.granted_voters.contains(&from) && self.granted_voters.len()
            >= self.majority() - 1
    }

    fn accepts_append(&self, request: &AppendEntries) -> (accepts: bool)
        requires
            self@.well_formed(),
        ensures
            accepts == self@.accepts_append(request@),
    {
        request.term >= self.current_term && request.prev_log_index >= self.log_base_index
            && match self.term_at(request.prev_log_index) {
            Some(term) => term == request.prev_log_term,
            None => false,
        }
    }

    /// The snapshot that the chunk completes, if it completes one.
    fn completed_by(
        &self,
        from: NodeId,
        chunk: &InstallSnapshotChunk,
        now_ms: u64,
    ) -> (completed: Option<Snapshot>)
        ensures
            completed.deep_view() == (if self@.completes_transfer(from, chunk@, now_ms) {
                parsed_snapshot(self@.receiving(chunk@, now_ms).arrived(chunk@))
            } else {
                None
            }),
    {
        if chunk.term < self.current_term || chunk.leader_id != from || chunk.total_size
            > MAX_TRANSFER_BYTES || !chunk.done {
            return None;
        }
        let ghost ready = self@.receiving(chunk@, now_ms);
        let mut bytes: Vec<u8> = Vec::new();
        if chunk.offset == 0 {
            if chunk.data.len() != chunk.total_size {
                return None;
            }
        } else {
            assert(ready.incoming_snapshot == self@.incoming_snapshot);
            match &self.incoming_snapshot {
                Some((id, transfer)) => {
                    if !(*id == chunk.snapshot_id && transfer.term == chunk.term
                        && transfer.leader_id == chunk.leader_id && transfer.total_size
                        == chunk.total_size && transfer.bytes.len() == chunk.offset
                        && chunk.data.len() == chunk.total_size.saturating_sub(chunk.offset)
                        && chunk.offset <= chunk.total_size) {
                        return None;
                    }
                    bytes = copy_bytes(transfer.bytes.as_slice(), 0, transfer.bytes.len());
                    assert(bytes@ =~= transfer.bytes@);
                },
                None => {
                    return None;
                },
            }
        }
        let mut data = copy_bytes(chunk.data.as_slice(), 0, chunk.data.len());
        assert(data@ =~= chunk.data@);
        bytes.append(&mut data);
        assert(bytes@ =~= ready.arrived(chunk@));
        decode_snapshot(bytes.as_slice())
    }

    /// Whether the snapshot that the chunk completes, if it completes one, stops
    /// short of the last index this machine can count.
    fn completes_within_bounds(
        &self,
        from: NodeId,
        chunk: &InstallSnapshotChunk,
        now_ms: u64,
    ) -> (fits: bool)
        ensures
            fits == (self@.completes_transfer(from, chunk@, now_ms) ==> (parsed_snapshot(
                self@.receiving(chunk@, now_ms).arrived(chunk@),
            ) matches Some(snapshot) ==> self@.can_install(snapshot))),
    {
        match self.completed_by(from, chunk, now_ms) {
            Some(snapshot) => self.can_install(&snapshot),
            None => true,
        }
    }

    fn moved_by_vote(&self, request: &RequestVote) -> (moved: bool)
        requires
            self@.well_formed(),
        ensures
            moved == self@.moved_by_vote(*request),
    {
        let free = match self.voted_for {
            Some(candidate) => candidate == request.candidate_id,
            None => true,
        };
        request.term > self.current_term || (request.term == self.current_term && (self.role
            != Role::Leader || request.candidate_id == self.id) && free && self.up_to_date(
            request.last_log_index,
            request.last_log_term,
        ))
    }

    fn moved_by_leader(&self, term: Term) -> (moved: bool)
        ensures
            moved == self@.moved_by_leader(term),
    {
        term > self.current_term || (term == self.current_term && self.role != Role::Follower)
    }

    fn moved_by_chunk(
        &self,
        from: NodeId,
        chunk: &InstallSnapshotChunk,
        now_ms: u64,
    ) -> (moved: bool)
        ensures
            moved == self@.moved_by_chunk(from, chunk@, now_ms),
    {
        if chunk.term < self.current_term || chunk.leader_id != from || chunk.total_size
            > MAX_TRANSFER_BYTES {
            return false;
        }
        if self.moved_by_leader(chunk.term) {
            return true;
        }
        let continues = if chunk.offset == 0 {
            chunk.data.len() <= chunk.total_size
        } else {
            self.continues_transfer(chunk)
        };
        assert(continues == self@.receiving(chunk@, now_ms).continues_transfer(chunk@));
        if !chunk.done {
            continues
        } else {
            match self.completed_by(from, chunk, now_ms) {
                Some(snapshot) => self.takes(&snapshot),
                None => false,
            }
        }
    }

    /// Whether handling the message sets the election timer.
    fn sets_timer(&self, from: NodeId, rpc: &Rpc, now_ms: u64) -> (sets: bool)
        requires
            self@.well_formed(),
        ensures
            sets == self@.sets_timer(from, rpc@, now_ms),
    {
        proof {
            reveal(NodeModel::sets_timer);
        }
        match rpc {
            Rpc::RequestVote(request) => self.moved_by_vote(request),
            Rpc::RequestVoteReply(reply) => reply.term > self.current_term,
            Rpc::AppendEntries(request) => request.term >= self.current_term,
            Rpc::AppendEntriesReply(reply) => reply.term > self.current_term,
            Rpc::InstallSnapshot(snapshot) => self.takes(snapshot),
            Rpc::InstallSnapshotReply(reply) => reply.term > self.current_term,
            Rpc::PreVote(_) => false,
            Rpc::PreVoteReply(reply) => reply.term > self.current_term || self.wins_pre_vote(
                from,
                *reply,
            ),
            Rpc::InstallSnapshotRequest(request) => self.moved_by_leader(request.term) || (
            request.term == self.current_term && request.leader_id == from && self.takes(
                &request.snapshot,
            )),
            Rpc::ReadIndex(request) => request.term >= self.current_term && request.leader_id
                == from,
            Rpc::ReadIndexReply(reply) => reply.term > self.current_term,
            Rpc::TimeoutNow(request) => request.term >= self.current_term && request.leader_id
                == from,
            Rpc::InstallSnapshotChunk(chunk) => self.moved_by_chunk(from, chunk, now_ms),
            Rpc::InstallSnapshotChunkReply(reply) => reply.term > self.current_term,
        }
    }

    /// Whether the reply, if it is about this leader's snapshot, asks for no byte
    /// past the end of its encoding.
    fn asks_within_bounds(&self, from: NodeId, reply: &InstallSnapshotChunkReply) -> (fits: bool)
        ensures
            fits == (self@.transferring(from, *reply) matches Some((snapshot, bytes))
                ==> reply.accepted || reply.next_offset <= bytes.len()),
    {
        if reply.accepted || self.role != Role::Leader || reply.term != self.current_term
            || !self.is_peer(from) {
            return true;
        }
        match &self.snapshot {
            Some(snapshot) => match encode_snapshot(snapshot) {
                Some(bytes) => hash_bytes(bytes.as_slice()) != reply.snapshot_id
                    || reply.next_offset <= bytes.len(),
                None => true,
            },
            None => true,
        }
    }

    /// Whether [`Node::handle_message`] may be called with this message.
    pub fn can_handle_message(&self, from: NodeId, rpc: &Rpc, now_ms: u64) -> (possible: bool)
        requires
            self@.well_formed(),
        ensures
            possible == self@.can_handle(from, rpc@, now_ms),
    {
        let ticking = has_clock_room(now_ms) || !self.sets_timer(from, rpc, now_ms);
        ticking && match rpc {
            Rpc::PreVoteReply(reply) => !self.wins_pre_vote(from, *reply) || self.current_term
                < u64::MAX,
            Rpc::RequestVoteReply(reply) => !self.wins_vote(from, *reply) || self.last_log_index()
                + 1 < usize::MAX,
            Rpc::AppendEntries(request) => !self.accepts_append(request) || request.entries.len()
                < usize::MAX - request.prev_log_index,
            Rpc::AppendEntriesReply(reply) => self.role != Role::Leader || reply.term
                != self.current_term || !self.is_peer(from) || !reply.success || (
            self.matched_by(from) < usize::MAX && reply.match_index < usize::MAX),
            Rpc::InstallSnapshot(snapshot) => self.can_install(snapshot),
            Rpc::InstallSnapshotRequest(request) => self.can_install(&request.snapshot),
            Rpc::InstallSnapshotReply(reply) => self.role != Role::Leader || reply.term
                != self.current_term || !reply.accepted || (self.matched_by(from) < usize::MAX
                && reply.last_included_index < usize::MAX),
            Rpc::TimeoutNow(request) => request.term < self.current_term || request.leader_id
                != from || request.term < u64::MAX,
            Rpc::InstallSnapshotChunk(chunk) => self.completes_within_bounds(from, chunk, now_ms),
            Rpc::InstallSnapshotChunkReply(reply) => self.asks_within_bounds(from, reply),
            _ => true,
        }
    }

    /// Reacts to a message if [`Node::handle_message`] can; otherwise returns
    /// `None` and leaves the node as it was.
    pub fn checked_handle_message(&mut self, from: NodeId, rpc: Rpc, now_ms: u64) -> (messages:
        Option<Vec<Message>>)
        requires
            old(self)@.well_formed(),
        ensures
            old(self)@.can_handle(from, rpc@, now_ms) ==> (
                final(self)@,
                optional_messages(messages),
            ) == (
                old(self)@.handle(from, rpc@, now_ms).0,
                Some(old(self)@.handle(from, rpc@, now_ms).1),
            ),
            !old(self)@.can_handle(from, rpc@, now_ms) ==> messages is None && final(self)@ == old(
                self,
            )@,
            final(self)@.well_formed(),
    {
        if self.can_handle_message(from, &rpc, now_ms) {
            Some(self.handle_message(from, rpc, now_ms))
        } else {
            None
        }
    }
}

} // verus!
