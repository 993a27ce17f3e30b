//! Reads, writes and the hand-over of leadership.
use crate::error::Error;
use crate::node::model::clock_has_room;
use crate::node::model::minus;
use crate::node::model::NodeModel;
use crate::node::Node;
use crate::node::PendingRead;
use crate::node::PendingReadState;
use crate::node::PendingWrite;
use crate::state_machine::StateMachine;
use crate::types::ClientReply;
use crate::types::ClientReplyView;
use crate::types::ClientRequest;
use crate::types::Command;
use crate::types::LogEntry;
use crate::types::LogIndex;
use crate::types::Message;
use crate::types::MessageView;
use crate::types::NodeId;
use crate::types::ReadIndex;
use crate::types::ReadIndexReply;
use crate::types::Role;
use crate::types::Rpc;
use std::collections::HashSet;
use vstd::prelude::*;

verus! {

broadcast use vstd::std_specs::hash::group_hash_axioms;

/// What starting a read or a write gives, as mathematical values.
pub open spec fn start_result<T>(result: Result<(T, Vec<Message>), ClientReply>) -> Result<
    (T, Seq<MessageView>),
    ClientReplyView,
> {
    match result {
        Ok((pending, messages)) => Ok((pending, messages.deep_view())),
        Err(reply) => Err(reply@),
    }
}

/// The messages inside, as mathematical values.
pub open spec fn messages_result(result: Result<Vec<Message>, Error>) -> Result<
    Seq<MessageView>,
    Error,
> {
    match result {
        Ok(messages) => Ok(messages.deep_view()),
        Err(error) => Err(error),
    }
}

impl<S: StateMachine> NodeModel<S> {
    /// How far each peer is behind the commit index, as far as the leader knows.
    pub open spec fn lags(self) -> Seq<(NodeId, LogIndex)> {
        if self.role != Role::Leader {
            Seq::empty()
        } else {
            Seq::new(
                self.peers.len(),
                |i: int|
                    (
                        self.peers[i],
                        minus(
                            self.commit_index as int,
                            self.matched_by(self.peers[i]) as int,
                        ) as LogIndex,
                    ),
            )
        }
    }
}

impl<S: StateMachine> Node<S> {
    /// Starts a read. The caller waits for [`Node::read_committed_and_applied`]
    /// before it looks at the state; that keeps reads linearizable even when the
    /// leader has not yet heard from a quorum in its term.
    pub fn start_client_read(&mut self) -> (result: Result<
        (PendingRead, Vec<Message>),
        ClientReply,
    >)
        requires
            old(self)@.well_formed(),
        ensures
            (final(self)@, start_result(result)) == old(self)@.start_read(),
            final(self)@.well_formed(),
    {
        if self.role != Role::Leader {
            return Err(ClientReply::refused(self.leader_id));
        }
        let ghost before = self@;
        let id: u64 = self.next_read_id;
        self.next_read_id = id.wrapping_add(1);
        let barrier_index: LogIndex = if self.commit_index > self.term_start_index {
            self.commit_index
        } else {
            self.term_start_index
        };
        let mut acknowledgements: HashSet<NodeId> = HashSet::new();
        acknowledgements.insert(self.id);
        let read = PendingReadState { term: self.current_term, barrier_index, acknowledgements };
        let ghost reads = self.pending_reads@;
        self.pending_reads.insert(id, read);
        assert(super::reads_view(reads.insert(id, read)) =~= super::reads_view(reads).insert(
            id,
            read@,
        ));
        assert(self@ =~= before.start_read().0);
        let messages = self.to_peers(
            Rpc::ReadIndex(
                ReadIndex {
                    term: self.current_term,
                    leader_id: self.id,
                    request_id: id,
                    commit_index: barrier_index,
                },
            ),
        );
        Ok((PendingRead { id, term: self.current_term, barrier_index }, messages))
    }

    /// Whether the leader may serve the read now.
    pub fn read_committed_and_applied(&self, read: PendingRead) -> (ready: bool)
        requires
            self@.well_formed(),
        ensures
            ready == self@.read_ready(read),
    {
        if self.role != Role::Leader || self.current_term != read.term || self.commit_index
            < read.barrier_index || self.last_applied < read.barrier_index {
            return false;
        }
        match self.pending_reads.get(&read.id) {
            Some(state) => state.term == read.term && state.barrier_index == read.barrier_index
                && state.acknowledgements.len() >= self.majority(),
            None => false,
        }
    }

    /// Forgets a read.
    pub fn finish_read(&mut self, read: PendingRead)
        ensures
            final(self)@ == (NodeModel {
                pending_reads: old(self)@.pending_reads.remove(read.id),
                ..old(self)@
            }),
    {
        let ghost reads = self.pending_reads@;
        self.pending_reads.remove(&read.id);
        assert(super::reads_view(reads.remove(read.id)) =~= super::reads_view(reads).remove(
            read.id,
        ));
    }

    pub(super) fn handle_read_index(
        &mut self,
        from: NodeId,
        request: ReadIndex,
        now_ms: u64,
    ) -> (reply: ReadIndexReply)
        requires
            old(self)@.well_formed(),
            request.term >= old(self)@.current_term && request.leader_id == from ==> clock_has_room(
                now_ms,
            ),
        ensures
            (final(self)@, reply) == old(self)@.on_read_index(from, request, now_ms),
            final(self)@.well_formed(),
    {
        if request.term >= self.current_term && request.leader_id == from {
            self.follow(request.term, now_ms);
            self.note_leader(request.leader_id, now_ms);
        }
        ReadIndexReply {
            term: self.current_term,
            request_id: request.request_id,
            applied_index: self.last_applied,
        }
    }

    /// Counts a confirmation towards its read. A follower need not have applied
    /// the barrier to show that it heard this leader.
    pub(super) fn handle_read_index_reply(
        &mut self,
        from: NodeId,
        reply: ReadIndexReply,
        now_ms: u64,
    ) -> (messages: Vec<Message>)
        requires
            old(self)@.well_formed(),
            reply.term > old(self)@.current_term ==> clock_has_room(now_ms),
        ensures
            (final(self)@, messages.deep_view()) == old(self)@.on_read_reply(from, reply, now_ms),
            final(self)@.well_formed(),
    {
        let messages: Vec<Message> = Vec::new();
        assert(messages.deep_view() =~= Seq::<MessageView>::empty());
        if reply.term > self.current_term {
            self.step_down(reply.term, now_ms);
            return messages;
        }
        if self.role != Role::Leader || reply.term != self.current_term || !self.is_peer(from) {
            return messages;
        }
        let ghost before = self@;
        self.last_quorum_contact.insert(from, now_ms);
        let counts = match self.pending_reads.get(&reply.request_id) {
            Some(state) => state.term == self.current_term,
            None => false,
        };
        if counts {
            let ghost reads = self.pending_reads@;
            if let Some(read) = self.pending_reads.remove(&reply.request_id) {
                let mut read = read;
                read.acknowledgements.insert(from);
                self.pending_reads.insert(reply.request_id, read);
                assert(super::reads_view(
                    reads.remove(reply.request_id).insert(reply.request_id, read),
                ) =~= super::reads_view(reads).insert(reply.request_id, read@));
            }
            assert(self@ =~= before.on_read_reply(from, reply, now_ms).0);
        }
        messages
    }

    /// Asks a caught-up follower to campaign at once. One that is behind is first
    /// sent what it lacks; the word to campaign follows its acknowledgement.
    pub fn transfer_leadership(&mut self, target: NodeId, now_ms: u64) -> (result: Result<
        Vec<Message>,
        Error,
    >)
        requires
            old(self)@.well_formed(),
        ensures
            (final(self)@, messages_result(result)) == old(self)@.transfer_leadership(
                target,
                now_ms,
            ),
            final(self)@.well_formed(),
    {
        if self.role != Role::Leader {
            return Err(Error::NotLeader);
        }
        if !self.is_peer(target) {
            return Err(Error::TransferTargetNotPeer);
        }
        self.leader_transfer_target = Some(target);
        if !self.last_quorum_contact.contains_key(&target) {
            self.last_quorum_contact.insert(target, now_ms);
        }
        let mut messages: Vec<Message> = Vec::new();
        if self.matched_by(target) < self.last_log_index() {
            messages.push(self.append_entries_for(target));
            assert(messages.deep_view() =~= seq![self@.append_message(target)]);
        } else {
            messages.push(self.timeout_now_for(target));
            assert(messages.deep_view() =~= seq![self@.timeout_message(target)]);
        }
        Ok(messages)
    }

    /// The same as [`Node::transfer_leadership`].
    pub fn initiate_leader_transfer(&mut self, target: NodeId, now_ms: u64) -> (result: Result<
        Vec<Message>,
        Error,
    >)
        requires
            old(self)@.well_formed(),
        ensures
            (final(self)@, messages_result(result)) == old(self)@.transfer_leadership(
                target,
                now_ms,
            ),
            final(self)@.well_formed(),
    {
        self.transfer_leadership(target, now_ms)
    }

    /// The same as [`Node::transfer_leadership`].
    pub fn request_leadership_transfer(&mut self, target: NodeId, now_ms: u64) -> (result: Result<
        Vec<Message>,
        Error,
    >)
        requires
            old(self)@.well_formed(),
        ensures
            (final(self)@, messages_result(result)) == old(self)@.transfer_leadership(
                target,
                now_ms,
            ),
            final(self)@.well_formed(),
    {
        self.transfer_leadership(target, now_ms)
    }

    /// How far each peer is behind the commit index; nothing unless this node
    /// leads.
    pub fn replication_lag_by_peer(&self) -> (lags: Vec<(NodeId, LogIndex)>)
        ensures
            lags@ == self@.lags(),
    {
        let mut lags: Vec<(NodeId, LogIndex)> = Vec::new();
        if self.role != Role::Leader {
            assert(lags@ =~= self@.lags());
            return lags;
        }
        let mut i: usize = 0;
        while i < self.peers.len()
            invariant
                self@.role == Role::Leader,
                i <= self.peers.len(),
                lags@ == self@.lags().take(i as int),
            decreases self.peers.len() - i,
        {
            let peer: NodeId = self.peers[i];
            lags.push((peer, self.commit_index.saturating_sub(self.matched_by(peer))));
            i += 1;
            assert(lags@ =~= self@.lags().take(i as int));
        }
        assert(lags@ =~= self@.lags());
        lags
    }

    /// Answers what needs no life cycle of its own: a local read on any node.
    /// Writes and linearizable reads are turned away.
    pub fn handle_client_request(&mut self, request: ClientRequest) -> (result: (
        ClientReply,
        Vec<Message>,
    ))
        ensures
            result.0@ == old(self)@.direct_reply(request@),
            result.1@.len() == 0,
            final(self)@ == old(self)@,
    {
        let none: Vec<Message> = Vec::new();
        if let ClientRequest::LocalGet { key } = &request {
            return match self.state_machine.get(key.as_str()) {
                Ok(response) => (
                    ClientReply { success: true, leader_id: self.leader_id, response },
                    none,
                ),
                Err(_) => (ClientReply::refused(self.leader_id), none),
            };
        }
        if self.role != Role::Leader {
            return (ClientReply::refused(self.leader_id), none);
        }
        let text = match &request {
            ClientRequest::Get { .. } => "read requires a ReadIndex lifecycle",
            _ => "pending write requires proposal lifecycle",
        };
        let reply = ClientReply {
            success: false,
            leader_id: Some(self.id),
            response: Some(text.to_string()),
        };
        (reply, none)
    }

    /// Starts a write: the command enters the leader's log and goes out to the
    /// peers.
    pub fn start_client_write(&mut self, request: ClientRequest) -> (result: Result<
        (PendingWrite, Vec<Message>),
        ClientReply,
    >)
        requires
            old(self)@.well_formed(),
            old(self)@.last_index() + 1 < usize::MAX,
        ensures
            (final(self)@, start_result(result)) == old(self)@.start_write(request@),
            final(self)@.well_formed(),
    {
        if self.role != Role::Leader {
            return Err(ClientReply::refused(self.leader_id));
        }
        let command = match request {
            ClientRequest::Put { key, value } => Command::Put { key, value },
            ClientRequest::Delete { key } => Command::Delete { key },
            ClientRequest::Get { .. } | ClientRequest::LocalGet { .. } => {
                return Err(ClientReply::refused(Some(self.id)));
            },
        };
        let ghost before = self@;
        let entry = LogEntry { term: self.current_term, command };
        self.log.push(entry);
        assert(self.log.deep_view() =~= before.log.push(entry@));
        let last: LogIndex = self.last_log_index();
        self.match_index.insert(self.id, last);
        assert(self@ =~= before.proposed(command@));
        let messages = self.append_messages();
        Ok((PendingWrite { index: last, term: self.current_term }, messages))
    }

    /// Whether the write is in the log, committed and applied.
    pub fn write_committed_and_applied(&self, write: PendingWrite) -> (done: bool)
        requires
            self@.well_formed(),
        ensures
            done == self@.write_done(write),
    {
        let in_log = match self.term_at(write.index) {
            Some(term) => term == write.term,
            None => false,
        };
        in_log && self.commit_index >= write.index && self.last_applied >= write.index
    }
}

} // verus!
