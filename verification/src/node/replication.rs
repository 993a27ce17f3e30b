//! Bringing followers forward, committing and applying.
use crate::codec::encode_snapshot;
use crate::codec::snapshot_id;
use crate::error::Error;
use crate::node::model::clock_has_room;
use crate::node::model::larger;
use crate::node::model::NodeModel;
use crate::node::Node;
use crate::node::MAX_APPEND_ENTRIES;
use crate::node::SNAPSHOT_CHUNK_BYTES;
use crate::state_machine::StateMachine;
use crate::types::copy_bytes;
use crate::types::AppendEntries;
use crate::types::AppendEntriesReply;
use crate::types::InstallSnapshotChunk;
use crate::types::InstallSnapshotRequest;
use crate::types::LogEntryView;
use crate::types::LogIndex;
use crate::types::Message;
use crate::types::MessageView;
use crate::types::NodeId;
use crate::types::Role;
use crate::types::Rpc;
use crate::types::Snapshot;
use crate::types::Term;
use crate::types::TimeoutNow;
use vstd::prelude::*;

verus! {

broadcast use vstd::std_specs::hash::group_hash_axioms;

/// Applying touches the state and the index it has reached, nothing else.
pub proof fn lemma_apply_committed_frame<S: StateMachine>(node: NodeModel<S>)
    ensures
        ({
            let after = node.apply_committed().0;
            &&& after == NodeModel {
                state: after.state,
                last_applied: after.last_applied,
                ..node
            }
            &&& node.last_applied <= after.last_applied
            &&& after.last_applied <= node.commit_index || after.last_applied == node.last_applied
        }),
    decreases node.commit_index - node.last_applied,
{
    if node.last_applied < node.commit_index {
        let next = (node.last_applied + 1) as LogIndex;
        if let Some(entry) = node.entry_at(next as int) {
            let (state, result) = S::applied(node.state, next, entry.command);
            if result is Ok {
                lemma_apply_committed_frame(NodeModel { state, last_applied: next, ..node });
            }
        }
    }
}

/// The commit point is the present commit index or a committable index past it.
pub proof fn lemma_commit_point<S: StateMachine>(node: NodeModel<S>, limit: int)
    requires
        limit <= usize::MAX,
    ensures
        ({
            let point = node.commit_point(limit);
            &&& node.commit_index <= point <= usize::MAX
            &&& point == node.commit_index || (point <= limit && node.committable(point))
            &&& forall|index: int| point < index <= limit ==> !node.committable(index)
        }),
    decreases limit - node.commit_index,
{
    if limit > node.commit_index && !node.committable(limit) {
        lemma_commit_point(node, limit - 1);
    }
}

/// The slots that agree reach no further than the log and the entries.
pub proof fn lemma_agreement_bounds<S: StateMachine>(
    node: NodeModel<S>,
    index: int,
    entries: Seq<LogEntryView>,
)
    requires
        node.first_index() <= index <= node.last_index() + 1,
    ensures
        node.agreement(index, entries) <= entries.len(),
        index + node.agreement(index, entries) <= node.last_index() + 1,
    decreases entries.len(),
{
    if entries.len() > 0 && node.term_at(index) == Some(entries[0].term) {
        lemma_agreement_bounds(node, index + 1, entries.skip(1));
    }
}

/// Hearing from a leader leaves the log and what is applied alone.
pub proof fn lemma_led_frame<S: StateMachine>(
    node: NodeModel<S>,
    term: Term,
    leader: NodeId,
    now_ms: u64,
)
    ensures
        ({
            let led = node.following(term, now_ms).led_by(leader, now_ms);
            &&& led.log == node.log
            &&& led.log_base_index == node.log_base_index
            &&& led.commit_index == node.commit_index
            &&& led.last_applied == node.last_applied
            &&& led.last_index() == node.last_index()
            &&& forall|index: int| led.term_at(index) == node.term_at(index)
        }),
{
}

impl<S: StateMachine> Node<S> {
    /// The next index to send to `peer`.
    pub(super) fn next_for(&self, peer: NodeId) -> (next: LogIndex)
        requires
            self@.well_formed(),
        ensures
            next == self@.next_for(peer),
    {
        match self.next_index.get(&peer) {
            Some(next) => *next,
            None => self.last_log_index() + 1,
        }
    }

    /// The index up to which `peer` is known to hold the log.
    pub(super) fn matched_by(&self, peer: NodeId) -> (index: LogIndex)
        ensures
            index == self@.matched_by(peer),
    {
        match self.match_index.get(&peer) {
            Some(matched) => *matched,
            None => 0,
        }
    }

    /// The piece of `bytes`, an encoding of `snapshot`, that starts at `offset`.
    pub(super) fn snapshot_chunk_for(
        &self,
        peer: NodeId,
        snapshot: &Snapshot,
        offset: usize,
        bytes: &Vec<u8>,
    ) -> (message: Message)
        requires
            offset <= bytes.len(),
        ensures
            message@ == self@.chunk_message(peer, snapshot@, offset as int, bytes@),
    {
        let end: usize = if bytes.len() - offset > SNAPSHOT_CHUNK_BYTES {
            offset + SNAPSHOT_CHUNK_BYTES
        } else {
            bytes.len()
        };
        self.message(
            peer,
            Rpc::InstallSnapshotChunk(
                InstallSnapshotChunk {
                    term: self.current_term,
                    leader_id: self.id,
                    snapshot_id: snapshot_id(snapshot),
                    offset,
                    total_size: bytes.len(),
                    data: copy_bytes(bytes.as_slice(), offset, end),
                    done: end == bytes.len(),
                },
            ),
        )
    }

    /// What brings `peer` forward: the next entries, or the snapshot where those
    /// are compacted.
    pub(super) fn append_entries_for(&self, peer: NodeId) -> (message: Message)
        requires
            self@.well_formed(),
        ensures
            message@ == self@.append_message(peer),
    {
        let next: LogIndex = self.next_for(peer);
        if next <= self.log_base_index {
            if let Some(snapshot) = &self.snapshot {
                if let Some(bytes) = encode_snapshot(snapshot) {
                    if bytes.len() > SNAPSHOT_CHUNK_BYTES {
                        return self.snapshot_chunk_for(peer, snapshot, 0, &bytes);
                    }
                }
                return self.message(
                    peer,
                    Rpc::InstallSnapshotRequest(
                        InstallSnapshotRequest {
                            term: self.current_term,
                            leader_id: self.id,
                            snapshot: snapshot.clone(),
                        },
                    ),
                );
            }
        }
        let previous: LogIndex = next.saturating_sub(1);
        self.message(
            peer,
            Rpc::AppendEntries(
                AppendEntries {
                    term: self.current_term,
                    leader_id: self.id,
                    prev_log_index: previous,
                    prev_log_term: self.term_or_zero(previous),
                    entries: self.entries_from(next, MAX_APPEND_ENTRIES),
                    leader_commit: self.commit_index,
                },
            ),
        )
    }

    /// What brings each peer forward.
    pub(super) fn append_messages(&self) -> (messages: Vec<Message>)
        requires
            self@.well_formed(),
        ensures
            messages.deep_view() == self@.append_messages(),
    {
        let mut messages: Vec<Message> = Vec::new();
        let mut i: usize = 0;
        while i < self.peers.len()
            invariant
                self@.well_formed(),
                i <= self.peers.len(),
                messages.len() == i,
                forall|j: int|
                    0 <= j < i ==> (#[trigger] messages[j])@ == self@.append_message(
                        self.peers[j],
                    ),
            decreases self.peers.len() - i,
        {
            messages.push(self.append_entries_for(self.peers[i]));
            i += 1;
        }
        assert(messages.deep_view() =~= self@.append_messages());
        messages
    }

    pub(super) fn timeout_now_for(&self, target: NodeId) -> (message: Message)
        ensures
            message@ == self@.timeout_message(target),
    {
        self.message(
            target,
            Rpc::TimeoutNow(TimeoutNow { term: self.current_term, leader_id: self.id }),
        )
    }

    /// Applies what is committed, in order.
    pub(super) fn apply_committed(&mut self) -> (result: Result<(), Error>)
        requires
            old(self)@.well_formed(),
        ensures
            (final(self)@, result) == old(self)@.apply_committed(),
            final(self)@.well_formed(),
    {
        while self.last_applied < self.commit_index
            invariant
                self@.well_formed(),
                self@.apply_committed() == old(self)@.apply_committed(),
            decreases self.commit_index - self.last_applied,
        {
            let next: LogIndex = self.last_applied + 1;
            let command = match self.entry_at(next) {
                Some(entry) => entry.command.clone(),
                None => {
                    return Err(Error::CommitOutsideLog);
                },
            };
            match self.state_machine.apply(next, &command) {
                Ok(()) => {},
                Err(error) => {
                    return Err(error);
                },
            }
            self.last_applied = next;
        }
        Ok(())
    }

    /// Commits the greatest index that a majority holds, if it is of this term.
    pub(super) fn advance_commit_index(&mut self)
        requires
            old(self)@.well_formed(),
        ensures
            final(self)@ == old(self)@.commit_advanced(),
            final(self)@.well_formed(),
    {
        let majority: usize = self.majority();
        let mut limit: LogIndex = self.last_log_index();
        let ghost before = self@;
        while limit > self.commit_index
            invariant_except_break
                before.commit_point(before.last_index()) == before.commit_point(limit as int),
            invariant
                self@ == before,
                before.well_formed(),
                majority == before.majority(),
            ensures
                before.commit_point(before.last_index()) == (if limit > before.commit_index {
                    limit as int
                } else {
                    before.commit_index as int
                }),
            decreases limit,
        {
            let own_term = match self.term_at(limit) {
                Some(term) => term == self.current_term,
                None => false,
            };
            if own_term && self.count_holders(limit) >= majority {
                break;
            }
            limit -= 1;
        }
        if limit > self.commit_index {
            self.commit_index = limit;
        }
        let _ = self.apply_committed();
    }

    /// Takes over the entries that follow `prev_log_index`: what agrees stays,
    /// what conflicts makes way.
    fn merge_entries(&mut self, request: &mut AppendEntries)
        requires
            old(self)@.well_formed(),
            old(request).prev_log_index >= old(self)@.log_base_index,
            old(self)@.term_at(old(request).prev_log_index as int) is Some,
            old(request).prev_log_index + old(request).entries.len() < usize::MAX,
        ensures
            final(self)@ == (NodeModel {
                log: old(self)@.merged_log(
                    old(request).prev_log_index + 1,
                    old(request)@.entries,
                ),
                ..old(self)@
            }),
            final(self)@.well_formed(),
    {
        let ghost before = self@;
        let ghost entries = request.entries.deep_view();
        let start: LogIndex = request.prev_log_index + 1;
        let first: usize = if self.log_base_index == 0 {
            1
        } else {
            self.log_base_index
        };
        let mut kept: usize = 0;
        assert(entries.skip(0) =~= entries);
        while kept < request.entries.len()
            invariant_except_break
                before.agreement(start as int, entries) == kept + before.agreement(
                    start + kept,
                    entries.skip(kept as int),
                ),
            invariant
                self@ == before,
                before.well_formed(),
                entries == request.entries.deep_view(),
                start == request.prev_log_index + 1,
                first == before.first_index(),
                kept <= request.entries.len(),
                request.prev_log_index + request.entries.len() < usize::MAX,
                first <= start + kept <= before.last_index() + 1,
            ensures
                kept == before.agreement(start as int, entries),
            decreases request.entries.len() - kept,
        {
            let ghost rest = entries.skip(kept as int);
            assert(rest[0] == request.entries[kept as int]@);
            let agrees = match self.term_at(start + kept) {
                Some(term) => term == request.entries[kept].term,
                None => false,
            };
            if !agrees {
                break;
            }
            assert(rest.skip(1) =~= entries.skip(kept + 1));
            kept += 1;
        }
        if kept < request.entries.len() {
            let mut rest = request.entries.split_off(kept);
            let ghost moved = rest.deep_view();
            assert(moved =~= entries.skip(kept as int));
            let ghost old_log = self.log.deep_view();
            self.log.truncate(start + kept - first);
            assert(self.log.deep_view() =~= old_log.take(start + kept - first));
            let ghost short = self.log.deep_view();
            self.log.append(&mut rest);
            assert(self.log.deep_view() =~= short + moved);
            assert(self@ =~= NodeModel {
                log: before.merged_log(start as int, entries),
                ..before
            });
        }
    }

    /// Takes over an accepted request: its entries, its commit index, and what
    /// that commits.
    fn take_entries(&mut self, request: AppendEntries)
        requires
            old(self)@.well_formed(),
            request.prev_log_index >= old(self)@.log_base_index,
            old(self)@.term_at(request.prev_log_index as int) is Some,
            request.prev_log_index + request.entries.len() < usize::MAX,
        ensures
            final(self)@ == old(self)@.appended(request@).apply_committed().0,
            final(self)@.well_formed(),
    {
        let ghost before = self@;
        let ghost asked = request@;
        let leader_commit: LogIndex = request.leader_commit;
        let mut request = request;
        self.merge_entries(&mut request);
        if leader_commit > self.commit_index {
            let last: LogIndex = self.last_log_index();
            self.commit_index = if leader_commit < last {
                leader_commit
            } else {
                last
            };
        }
        assert(self@ =~= before.appended(asked));
        let _ = self.apply_committed();
    }

    pub(super) fn handle_append_entries(
        &mut self,
        request: AppendEntries,
        now_ms: u64,
    ) -> (reply: AppendEntriesReply)
        requires
            old(self)@.well_formed(),
            request.term >= old(self)@.current_term ==> clock_has_room(now_ms),
            old(self)@.accepts_append(request@) ==> request.prev_log_index
                + request.entries.len() < usize::MAX,
        ensures
            (final(self)@, reply) == old(self)@.on_append_entries(request@, now_ms),
            final(self)@.well_formed(),
    {
        if request.term < self.current_term {
            return AppendEntriesReply {
                term: self.current_term,
                success: false,
                match_index: self.last_log_index(),
            };
        }
        let ghost before = self@;
        self.follow(request.term, now_ms);
        self.note_leader(request.leader_id, now_ms);
        proof {
            lemma_led_frame(before, request.term, request.leader_id, now_ms);
        }
        if request.prev_log_index < self.log_base_index {
            return AppendEntriesReply { term: self.current_term, success: false, match_index: 0 };
        }
        let holds_previous = match self.term_at(request.prev_log_index) {
            Some(term) => term == request.prev_log_term,
            None => false,
        };
        if !holds_previous {
            return AppendEntriesReply {
                term: self.current_term,
                success: false,
                match_index: self.last_log_index(),
            };
        }
        let term: Term = self.current_term;
        let match_index: LogIndex = request.prev_log_index + request.entries.len();
        self.take_entries(request);
        AppendEntriesReply { term, success: true, match_index }
    }

    /// Notes that `from` holds the log up to `index`, never less than before:
    /// replies may be duplicated or reordered on their way.
    pub(super) fn acknowledge(&mut self, from: NodeId, index: LogIndex) -> (matched: LogIndex)
        requires
            old(self)@.well_formed(),
            old(self)@.matched_by(from) < usize::MAX,
            index < usize::MAX,
        ensures
            final(self)@ == old(self)@.acknowledged(from, index),
            final(self)@.well_formed(),
            matched == larger(
                old(self)@.matched_by(from) as int,
                index as int,
            ),
    {
        let known: LogIndex = self.matched_by(from);
        let matched: LogIndex = if known > index {
            known
        } else {
            index
        };
        self.match_index.insert(from, matched);
        self.next_index.insert(from, matched + 1);
        matched
    }

    pub(super) fn handle_append_entries_reply(
        &mut self,
        from: NodeId,
        reply: AppendEntriesReply,
        now_ms: u64,
    ) -> (messages: Vec<Message>)
        requires
            old(self)@.well_formed(),
            reply.term > old(self)@.current_term ==> clock_has_room(now_ms),
            old(self)@.hears_peer(from, reply.term) && reply.success ==> old(self)@.matched_by(from)
                < usize::MAX && reply.match_index < usize::MAX,
        ensures
            (final(self)@, messages.deep_view()) == old(self)@.on_append_reply(
                from,
                reply,
                now_ms,
            ),
            final(self)@.well_formed(),
    {
        let mut messages: Vec<Message> = Vec::new();
        assert(messages.deep_view() =~= Seq::<MessageView>::empty());
        if reply.term > self.current_term {
            self.step_down(reply.term, now_ms);
            return messages;
        }
        if self.role != Role::Leader || reply.term != self.current_term || !self.is_peer(from) {
            return messages;
        }
        self.last_quorum_contact.insert(from, now_ms);
        if reply.success {
            let matched: LogIndex = self.acknowledge(from, reply.match_index);
            let ghost acknowledged = self@;
            self.advance_commit_index();
            proof {
                lemma_apply_committed_frame(
                    NodeModel {
                        commit_index: acknowledged.commit_point(
                            acknowledged.last_index(),
                        ) as LogIndex,
                        ..acknowledged
                    },
                );
            }
            let due = match self.leader_transfer_target {
                Some(target) => target == from,
                None => false,
            };
            if due && matched >= self.last_log_index() {
                self.leader_transfer_target = None;
                messages.push(self.timeout_now_for(from));
                assert(messages.deep_view() =~= seq![self@.timeout_message(from)]);
            }
        } else {
            let next: LogIndex = self.next_for(from).saturating_sub(1);
            self.next_index.insert(
                from,
                if next > 1 {
                    next
                } else {
                    1
                },
            );
            messages.push(self.append_entries_for(from));
            assert(messages.deep_view() =~= seq![self@.append_message(from)]);
        }
        messages
    }
}

} // verus!
