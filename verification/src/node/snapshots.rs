//! Taking, installing and transferring snapshots.
use crate::codec::decode_snapshot;
use crate::codec::encode_snapshot;
use crate::codec::parsed_snapshot;
use crate::codec::snapshot_bytes;
use crate::codec::snapshot_id;
use crate::error::Error;
use crate::node::model::clock_has_room;
use crate::node::model::NodeModel;
use crate::node::Node;
use crate::node::PartialSnapshot;
use crate::node::SnapshotInstallResult;
use crate::node::MAX_TRANSFER_BYTES;
use crate::node::SNAPSHOT_CHUNK_BYTES;
use crate::state_machine::StateMachine;
use crate::types::Command;
use crate::types::InstallSnapshotChunk;
use crate::types::InstallSnapshotChunkReply;
use crate::types::InstallSnapshotChunkView;
use crate::types::InstallSnapshotReply;
use crate::types::InstallSnapshotRequest;
use crate::types::LogEntry;
use crate::types::LogIndex;
use crate::types::Message;
use crate::types::MessageView;
use crate::types::NodeId;
use crate::types::Role;
use crate::types::Snapshot;
use crate::types::SnapshotView;
use crate::types::SNAPSHOT_FORMAT_VERSION;
use vstd::prelude::*;

verus! {

broadcast use vstd::std_specs::hash::group_hash_axioms;

/// The snapshot inside as mathematical values.
pub open spec fn snapshot_result(result: Result<Snapshot, Error>) -> Result<SnapshotView, Error> {
    match result {
        Ok(snapshot) => Ok(snapshot@),
        Err(error) => Err(error),
    }
}

/// Whether a snapshot can be installed depends on the log's boundary and on what is
/// committed, nothing else.
proof fn lemma_can_install_stays<S: StateMachine>(
    before: NodeModel<S>,
    after: NodeModel<S>,
    snapshot: SnapshotView,
)
    requires
        before.log_base_index == after.log_base_index,
        before.snapshot == after.snapshot,
        before.commit_index == after.commit_index,
    ensures
        before.can_install(snapshot) == after.can_install(snapshot),
{
    reveal(NodeModel::can_install);
}

impl<S: StateMachine> Node<S> {
    /// Builds a snapshot at the last applied index. It never includes entries
    /// that are not committed.
    pub fn create_snapshot(&self) -> (result: Result<Snapshot, Error>)
        requires
            self@.well_formed(),
        ensures
            snapshot_result(result) == self@.create_snapshot(),
    {
        let state = match self.state_machine.snapshot() {
            Ok(state) => state,
            Err(error) => {
                return Err(error);
            },
        };
        if state.last_applied != self.last_applied {
            return Err(Error::StaleStateSnapshot);
        }
        let snapshot = Snapshot {
            version: SNAPSHOT_FORMAT_VERSION,
            last_included_index: self.last_applied,
            last_included_term: self.term_or_zero(self.last_applied),
            state,
        };
        match snapshot.validate() {
            Ok(()) => Ok(snapshot),
            Err(error) => Err(error),
        }
    }

    /// Cuts the log at a snapshot's boundary: the boundary slot, then `suffix`.
    fn rebase(&mut self, snapshot: Snapshot, suffix: Vec<LogEntry>)
        ensures
            final(self)@ == old(self)@.rebased(snapshot@, suffix.deep_view()),
    {
        let ghost before = self@;
        let boundary = LogEntry { term: snapshot.last_included_term, command: Command::Noop };
        let ghost tail = suffix.deep_view();
        let mut suffix = suffix;
        let mut log: Vec<LogEntry> = Vec::new();
        log.push(boundary);
        log.append(&mut suffix);
        assert(log.deep_view() =~= seq![boundary@] + tail);
        self.log = log;
        self.log_base_index = snapshot.last_included_index;
        self.snapshot = Some(snapshot);
        assert(self@ =~= before.rebased(snapshot@, tail));
    }

    /// Replaces the log up to the last applied index with a snapshot. The
    /// compaction point is the applied point, so that the state and the rest of
    /// the log cannot describe different histories.
    pub fn compact_to(&mut self, index: LogIndex) -> (result: Result<Snapshot, Error>)
        requires
            old(self)@.well_formed(),
            old(self)@.last_applied < usize::MAX,
        ensures
            (final(self)@, snapshot_result(result)) == old(self)@.compact_to(index),
            final(self)@.well_formed(),
    {
        if index <= self.log_base_index || index != self.last_applied || index
            > self.commit_index {
            return Err(Error::CompactionPoint);
        }
        let snapshot = match self.create_snapshot() {
            Ok(snapshot) => snapshot,
            Err(error) => {
                return Err(error);
            },
        };
        let suffix = self.entries_from(index + 1, usize::MAX);
        let ghost all = self@.entries_from(index + 1);
        assert(suffix.deep_view() =~= all);
        self.rebase(snapshot.clone(), suffix);
        Ok(snapshot)
    }

    /// Whether the node already stands at or past the snapshot.
    fn outdates(&self, snapshot: &Snapshot) -> (result: bool)
        ensures
            result == self@.outdates(snapshot@),
    {
        let index: LogIndex = snapshot.last_included_index;
        let same_boundary = index == self.log_base_index && match &self.snapshot {
            Some(current) => current.last_included_term == snapshot.last_included_term,
            None => false,
        };
        index < self.log_base_index || same_boundary || index < self.commit_index
    }

    /// Whether the snapshot is in order and news to the node.
    pub(super) fn takes(&self, snapshot: &Snapshot) -> (result: bool)
        ensures
            result == self@.takes(snapshot@),
    {
        snapshot.validate().is_ok() && !self.outdates(snapshot)
    }

    /// Whether the snapshot, if it would be installed, leaves room for an index
    /// past it.
    pub fn can_install(&self, snapshot: &Snapshot) -> (result: bool)
        ensures
            result == self@.can_install(snapshot@),
    {
        proof {
            reveal(NodeModel::can_install);
        }
        snapshot.last_included_index < usize::MAX || match snapshot.validate() {
            Ok(()) => self.outdates(snapshot),
            Err(_) => true,
        }
    }

    /// Takes over a snapshot that is newer than what the node has. A malformed or
    /// stale one leaves the node as it was.
    pub fn install_snapshot(&mut self, snapshot: Snapshot) -> (result: Result<
        SnapshotInstallResult,
        Error,
    >)
        requires
            old(self)@.well_formed(),
            old(self)@.can_install(snapshot@),
        ensures
            (final(self)@, result) == old(self)@.install_snapshot(snapshot@),
            final(self)@.well_formed(),
    {
        proof {
            reveal(NodeModel::can_install);
        }
        let ghost before = self@;
        match snapshot.validate() {
            Ok(()) => {},
            Err(error) => {
                return Err(error);
            },
        }
        let index: LogIndex = snapshot.last_included_index;
        if self.outdates(&snapshot) {
            return Ok(SnapshotInstallResult::Stale);
        }
        match self.state_machine.restore_snapshot(&snapshot.state) {
            Ok(()) => {},
            Err(error) => {
                return Err(error);
            },
        }
        let holds_boundary = match self.term_at(index) {
            Some(term) => term == snapshot.last_included_term,
            None => false,
        };
        let suffix: Vec<LogEntry> = if holds_boundary {
            self.entries_from(index + 1, usize::MAX)
        } else {
            Vec::new()
        };
        assert(suffix.deep_view() =~= before.surviving_entries(snapshot@));
        let ghost taken = snapshot@;
        self.rebase(snapshot, suffix);
        if index > self.commit_index {
            self.commit_index = index;
        }
        self.last_applied = index;
        self.leader_id = None;
        assert(self@ =~= before.install_snapshot(taken).0);
        Ok(SnapshotInstallResult::Installed)
    }

    /// Installs a snapshot that `from` sent.
    fn install_from(&mut self, from: NodeId, snapshot: Snapshot, now_ms: u64) -> (result: Result<
        SnapshotInstallResult,
        Error,
    >)
        requires
            old(self)@.well_formed(),
            old(self)@.takes(snapshot@) ==> clock_has_room(now_ms),
            old(self)@.can_install(snapshot@),
        ensures
            (final(self)@, result) == old(self)@.install_from(from, snapshot@, now_ms),
            final(self)@.well_formed(),
    {
        let result = self.install_snapshot(snapshot);
        match result {
            Ok(SnapshotInstallResult::Installed) => {
                self.note_leader(from, now_ms);
            },
            _ => {},
        }
        result
    }

    pub(super) fn handle_install_snapshot(
        &mut self,
        from: NodeId,
        snapshot: Snapshot,
        now_ms: u64,
    ) -> (reply: InstallSnapshotReply)
        requires
            old(self)@.well_formed(),
            old(self)@.takes(snapshot@) ==> clock_has_room(now_ms),
            old(self)@.can_install(snapshot@),
        ensures
            (final(self)@, reply) == old(self)@.on_install_snapshot(from, snapshot@, now_ms),
            final(self)@.well_formed(),
    {
        let term = self.current_term;
        let index: LogIndex = snapshot.last_included_index;
        let already = self.log_base_index == index && match self.term_at(index) {
            Some(held) => held == snapshot.last_included_term,
            None => false,
        };
        let accepted = match self.install_from(from, snapshot, now_ms) {
            Ok(SnapshotInstallResult::Installed) => true,
            Ok(SnapshotInstallResult::Stale) => already,
            Err(_) => false,
        };
        InstallSnapshotReply { term, accepted, last_included_index: index }
    }

    pub(super) fn handle_install_snapshot_request(
        &mut self,
        from: NodeId,
        request: InstallSnapshotRequest,
        now_ms: u64,
    ) -> (reply: InstallSnapshotReply)
        requires
            old(self)@.well_formed(),
            old(self)@.moved_by_leader(request.term) || (request.term == old(self)@.current_term
                && request.leader_id == from && old(self)@.takes(request.snapshot@))
                ==> clock_has_room(now_ms),
            old(self)@.can_install(request.snapshot@),
        ensures
            (final(self)@, reply) == old(self)@.on_install_request(from, request@, now_ms),
            final(self)@.well_formed(),
    {
        if request.term < self.current_term {
            return InstallSnapshotReply {
                term: self.current_term,
                accepted: false,
                last_included_index: request.snapshot.last_included_index,
            };
        }
        self.follow(request.term, now_ms);
        proof {
            lemma_can_install_stays(old(self)@, self@, request.snapshot@);
        }
        if request.leader_id != from {
            return InstallSnapshotReply {
                term: self.current_term,
                accepted: false,
                last_included_index: request.snapshot.last_included_index,
            };
        }
        self.handle_install_snapshot(from, request.snapshot, now_ms)
    }

    pub(super) fn handle_install_snapshot_reply(
        &mut self,
        from: NodeId,
        reply: InstallSnapshotReply,
        now_ms: u64,
    ) -> (messages: Vec<Message>)
        requires
            old(self)@.well_formed(),
            reply.term > old(self)@.current_term ==> clock_has_room(now_ms),
            old(self)@.hears_acceptance(reply) ==> old(self)@.matched_by(from) < usize::MAX
                && reply.last_included_index < usize::MAX,
        ensures
            (final(self)@, messages.deep_view()) == old(self)@.on_install_reply(
                from,
                reply,
                now_ms,
            ),
            final(self)@.well_formed(),
    {
        let mut messages: Vec<Message> = Vec::new();
        assert(messages.deep_view() =~= Seq::<MessageView>::empty());
        if reply.term > self.current_term {
            self.step_down(reply.term, now_ms);
            return messages;
        }
        if self.role != Role::Leader || reply.term != self.current_term || !reply.accepted {
            return messages;
        }
        self.last_quorum_contact.insert(from, now_ms);
        self.acknowledge(from, reply.last_included_index);
        messages.push(self.append_entries_for(from));
        assert(messages.deep_view() =~= seq![self@.append_message(from)]);
        messages
    }

    /// Whether the chunk is the next piece of the transfer under way.
    pub(super) fn continues_transfer(&self, chunk: &InstallSnapshotChunk) -> (result: bool)
        ensures
            result == self@.continues_transfer(chunk@),
    {
        match &self.incoming_snapshot {
            Some((id, transfer)) => *id == chunk.snapshot_id && transfer.term == chunk.term
                && transfer.leader_id == chunk.leader_id && transfer.total_size
                == chunk.total_size && transfer.bytes.len() == chunk.offset && chunk.data.len()
                <= chunk.total_size.saturating_sub(chunk.offset),
            None => false,
        }
    }

    /// Follows the sender, and opens a new transfer on its first chunk.
    fn receive(&mut self, chunk: &InstallSnapshotChunk, now_ms: u64)
        requires
            old(self)@.well_formed(),
            chunk.term >= old(self)@.current_term,
            old(self)@.moved_by_leader(chunk.term) ==> clock_has_room(now_ms),
        ensures
            final(self)@ == old(self)@.receiving(chunk@, now_ms),
            final(self)@.well_formed(),
    {
        self.follow(chunk.term, now_ms);
        if chunk.offset == 0 {
            let transfer = PartialSnapshot {
                term: chunk.term,
                leader_id: chunk.leader_id,
                total_size: chunk.total_size,
                bytes: Vec::new(),
            };
            assert(transfer@.bytes =~= Seq::empty());
            self.incoming_snapshot = Some((chunk.snapshot_id, transfer));
        }
    }

    /// Stores the chunk's bytes, and says how many have arrived.
    fn store(&mut self, chunk: InstallSnapshotChunk) -> (arrived: usize)
        requires
            old(self)@.well_formed(),
            old(self)@.continues_transfer(chunk@),
        ensures
            final(self)@ == old(self)@.storing(chunk@),
            final(self)@.well_formed(),
            arrived == old(self)@.arrived(chunk@).len(),
    {
        let ghost before = self@;
        let ghost piece = chunk@;
        let mut data = chunk.data;
        let mut incoming = self.incoming_snapshot.take();
        let mut arrived: usize = 0;
        if let Some((id, transfer)) = incoming {
            let mut transfer = transfer;
            transfer.bytes.append(&mut data);
            arrived = transfer.bytes.len();
            self.incoming_snapshot = Some((id, transfer));
        }
        assert(self@ =~= before.storing(piece));
        arrived
    }

    /// Ends a transfer: installs the snapshot that the bytes hold, if they hold
    /// one.
    fn finish_transfer(&mut self, from: NodeId, now_ms: u64) -> (accepted: bool)
        requires
            old(self)@.well_formed(),
            (parsed_snapshot(old(self)@.incoming_bytes()) matches Some(snapshot) && old(
                self,
            )@.takes(snapshot)) ==> clock_has_room(now_ms),
            parsed_snapshot(old(self)@.incoming_bytes()) matches Some(snapshot)
                ==> old(self)@.can_install(snapshot),
            old(self)@.incoming_snapshot is Some,
        ensures
            (final(self)@, accepted) == old(self)@.finish_transfer(
                from,
                old(self)@.incoming_bytes(),
                now_ms,
            ),
            final(self)@.well_formed(),
    {
        let decoded = match &self.incoming_snapshot {
            Some((_, transfer)) => decode_snapshot(transfer.bytes.as_slice()),
            None => None,
        };
        let accepted = match decoded {
            Some(snapshot) => self.install_from(from, snapshot, now_ms).is_ok(),
            None => false,
        };
        self.incoming_snapshot = None;
        accepted
    }

    pub(super) fn handle_install_snapshot_chunk(
        &mut self,
        from: NodeId,
        chunk: InstallSnapshotChunk,
        now_ms: u64,
    ) -> (reply: InstallSnapshotChunkReply)
        requires
            old(self)@.well_formed(),
            old(self)@.moved_by_chunk(from, chunk@, now_ms) ==> clock_has_room(now_ms),
            old(self)@.completes_transfer(from, chunk@, now_ms) ==> (parsed_snapshot(
                old(self)@.receiving(chunk@, now_ms).arrived(chunk@),
            ) matches Some(snapshot) ==> old(self)@.can_install(snapshot)),
        ensures
            (final(self)@, reply) == old(self)@.on_chunk(from, chunk@, now_ms),
            final(self)@.well_formed(),
    {
        let mut reply = InstallSnapshotChunkReply {
            term: self.current_term,
            snapshot_id: chunk.snapshot_id,
            accepted: false,
            next_offset: 0,
        };
        if chunk.term < self.current_term || chunk.leader_id != from || chunk.total_size
            > MAX_TRANSFER_BYTES {
            return reply;
        }
        self.receive(&chunk, now_ms);
        if !self.continues_transfer(&chunk) {
            if let Some((_, transfer)) = &self.incoming_snapshot {
                reply.next_offset = transfer.bytes.len();
            }
            return reply;
        }
        let done = chunk.done;
        let total_size: usize = chunk.total_size;
        let ghost ready = self@;
        let ghost piece = chunk@;
        reply.next_offset = self.store(chunk);
        if !done {
            self.reset_election_timer(now_ms);
            reply.accepted = true;
        } else if reply.next_offset != total_size {
            return reply;
        } else {
            assert(self@.incoming_bytes() == ready.arrived(piece));
            proof {
                if let Some(snapshot) = parsed_snapshot(self@.incoming_bytes()) {
                    lemma_can_install_stays(old(self)@, self@, snapshot);
                }
            }
            reply.accepted = self.finish_transfer(from, now_ms);
            proof {
                lemma_finish_ignores_transfer(ready, ready.storing(piece), from, piece, now_ms);
            }
        }
        reply.term = self.current_term;
        reply
    }

    pub(super) fn handle_install_snapshot_chunk_reply(
        &mut self,
        from: NodeId,
        reply: InstallSnapshotChunkReply,
        now_ms: u64,
    ) -> (messages: Vec<Message>)
        requires
            old(self)@.well_formed(),
            reply.term > old(self)@.current_term ==> clock_has_room(now_ms),
            old(self)@.transferring(from, reply) matches Some((snapshot, bytes)) ==> reply.accepted
                || reply.next_offset <= bytes.len(),
        ensures
            (final(self)@, messages.deep_view()) == old(self)@.on_chunk_reply(
                from,
                reply,
                now_ms,
            ),
            final(self)@.well_formed(),
    {
        let mut messages: Vec<Message> = Vec::new();
        assert(messages.deep_view() =~= Seq::<MessageView>::empty());
        if reply.term > self.current_term {
            self.step_down(reply.term, now_ms);
            return messages;
        }
        if self.role != Role::Leader || reply.term != self.current_term || !self.is_peer(from) {
            return messages;
        }
        let snapshot = match &self.snapshot {
            Some(snapshot) => snapshot.clone(),
            None => {
                return messages;
            },
        };
        let bytes = match encode_snapshot(&snapshot) {
            Some(bytes) => bytes,
            None => {
                return messages;
            },
        };
        if snapshot_id(&snapshot) != reply.snapshot_id {
            return messages;
        }
        self.last_quorum_contact.insert(from, now_ms);
        if !reply.accepted || reply.next_offset < bytes.len() {
            messages.push(self.snapshot_chunk_for(from, &snapshot, reply.next_offset, &bytes));
            assert(messages.deep_view() =~= seq![
                self@.chunk_message(from, snapshot@, reply.next_offset as int, bytes@),
            ]);
            return messages;
        }
        let known: LogIndex = self.matched_by(from);
        self.match_index.insert(
            from,
            if known > self.log_base_index {
                known
            } else {
                self.log_base_index
            },
        );
        self.next_index.insert(from, self.log_base_index + 1);
        messages.push(self.append_entries_for(from));
        assert(messages.deep_view() =~= seq![self@.append_message(from)]);
        messages
    }

    /// Encodes the current snapshot into ordered chunks that can be replayed, for
    /// transports that cannot buffer one large frame. The data of the chunks, in
    /// order, decodes to the snapshot.
    pub fn snapshot_transfer_chunks(&self, peer: NodeId) -> (messages: Vec<Message>)
        ensures
            messages.deep_view() == self@.transfer_chunks(peer),
            self@.snapshot matches Some(snapshot) ==> (snapshot_bytes(snapshot) matches Some(bytes)
                ==> parsed_snapshot(bytes) == Some(snapshot)),
    {
        let mut messages: Vec<Message> = Vec::new();
        let snapshot = match &self.snapshot {
            Some(snapshot) => snapshot,
            None => {
                assert(messages.deep_view() =~= self@.transfer_chunks(peer));
                return messages;
            },
        };
        let bytes = match encode_snapshot(snapshot) {
            Some(bytes) => bytes,
            None => {
                assert(messages.deep_view() =~= self@.transfer_chunks(peer));
                return messages;
            },
        };
        messages.push(self.snapshot_chunk_for(peer, snapshot, 0, &bytes));
        let mut offset: usize = 0;
        while bytes.len() - offset > SNAPSHOT_CHUNK_BYTES
            invariant
                self@.snapshot == Some(snapshot@),
                offset <= bytes.len(),
                messages.len() >= 1,
                offset == (messages.len() - 1) * SNAPSHOT_CHUNK_BYTES,
                offset > 0 ==> offset < bytes.len(),
                forall|i: int|
                    0 <= i < messages.len() ==> (#[trigger] messages[i])@ == self@.chunk_message(
                        peer,
                        snapshot@,
                        i * SNAPSHOT_CHUNK_BYTES,
                        bytes@,
                    ),
            decreases bytes.len() - offset,
        {
            offset += SNAPSHOT_CHUNK_BYTES;
            messages.push(self.snapshot_chunk_for(peer, snapshot, offset, &bytes));
        }
        proof {
            let count = self@.transfer_chunks(peer).len();
            assert(count == messages.len());
            assert(messages.deep_view() =~= self@.transfer_chunks(peer));
        }
        messages
    }
}

/// A transfer's own bytes play no part in installing what they hold.
proof fn lemma_finish_ignores_transfer<S: StateMachine>(
    ready: NodeModel<S>,
    stored: NodeModel<S>,
    from: NodeId,
    chunk: InstallSnapshotChunkView,
    now_ms: u64,
)
    requires
        stored == ready.storing(chunk),
    ensures
        stored.finish_transfer(from, ready.arrived(chunk), now_ms) == ready.finish_transfer(
            from,
            ready.arrived(chunk),
            now_ms,
        ),
{
    let bytes = ready.arrived(chunk);
    assert(stored.finish_transfer(from, bytes, now_ms).0 =~= ready.finish_transfer(
        from,
        bytes,
        now_ms,
    ).0);
}

} // verus!
