//! What a follower makes of its leader's log, as the ledger sees it.
use crate::cluster::campaigns::stays;
use crate::cluster::growth::lemma_beginning;
use crate::cluster::ledger::are_distinct;
use crate::cluster::ledger::is_piece;
use crate::cluster::ledger::Ledger;
use crate::cluster::vouching::is_committed_somewhere;
use crate::cluster::vouching::strays;
use crate::codec::parsed_snapshot;
use crate::codec::snapshot_bytes;
use crate::codec::transfer_id;
use crate::error::Error;
use crate::kv_map::lemma_pairs_map_is_finite;
use crate::kv_map::ordered;
use crate::kv_map::pairs_map;
use crate::node::laws::histories::law_append_merges;
use crate::node::laws::histories::law_install_merges;
use crate::node::laws::histories::lemma_full_terms;
use crate::node::laws::histories::lemma_same_full;
use crate::node::model::NodeModel;
use crate::node::replication::lemma_apply_committed_frame;
use crate::node::SnapshotInstallResult;
use crate::state_machine::MemoryStateMachine;
use crate::types::AppendEntriesView;
use crate::types::InstallSnapshotChunkView;
use crate::types::InstallSnapshotRequestView;
use crate::types::MessageView;
use crate::types::NodeId;
use crate::types::Role;
use crate::types::RpcView;
use crate::types::SnapshotView;
use crate::types::Term;
use vstd::prelude::*;

verus! {

/// What an installed snapshot makes of a node.
proof fn lemma_install_fields(
    node: NodeModel<MemoryStateMachine>,
    from: NodeId,
    snapshot: SnapshotView,
    now_ms: u64,
)
    requires
        snapshot.valid(),
        !node.outdates(snapshot),
    ensures
        ({
            let next = node.install_from(from, snapshot, now_ms).0;
            let rebased = node.rebased(snapshot, node.surviving_entries(snapshot));
            &&& next.id == node.id
            &&& next.peers == node.peers
            &&& next.role == node.role
            &&& next.current_term == node.current_term
            &&& next.voted_for == node.voted_for
            &&& next.pending_reads == node.pending_reads
            &&& next.next_read_id == node.next_read_id
            &&& next.incoming_snapshot == node.incoming_snapshot
            &&& next.log == rebased.log
            &&& next.log_base_index == rebased.log_base_index
            &&& rebased.log_base_index == snapshot.last_included_index
            &&& next.snapshot == Some(snapshot)
            &&& next.commit_index == snapshot.last_included_index
            &&& next.last_applied == snapshot.last_included_index
            &&& next.state.last_applied == snapshot.last_included_index
            &&& next.state.data == pairs_map(snapshot.state.data)
            &&& snapshot.last_included_index > 0
            &&& node.commit_index <= snapshot.last_included_index
            &&& ordered(snapshot.state.data)
        }),
{
}

impl Ledger {
    /// A follower that has merged its leader's log.
    proof fn lemma_merged_move(
        self,
        nodes: Seq<NodeModel<MemoryStateMachine>>,
        queue: Seq<MessageView>,
        id: NodeId,
        present: NodeModel<MemoryStateMachine>,
        next: NodeModel<MemoryStateMachine>,
        term: Term,
        upto: int,
    )
        requires
            self.is_ready(nodes, queue, id),
            stays(nodes[id as int], present),
            present.role == Role::Follower,
            present.current_term == term,
            self.has(term),
            0 <= upto <= self.log(term).len(),
            next.id == present.id,
            next.peers == present.peers,
            next.role == present.role,
            next.current_term == term,
            next.voted_for == present.voted_for,
            next.pending_reads == present.pending_reads,
            next.next_read_id == present.next_read_id,
            next.log_base_index >= present.log_base_index,
            self.merge(id, term, upto).store_is_sound(next),
            nodes[id as int].commit_index <= next.commit_index,
        ensures
            self.advances(self.merge(id, term, upto), nodes, id, next, Seq::empty()),
            upto <= self.merge(id, term, upto).acked(term, id),
    {
        let after = self.merge(id, term, upto);
        let node = nodes[id as int];
        assert(self.node_holds(nodes, id as int));
        self.lemma_shape(nodes, queue);
        self.lemma_stays(nodes, queue, id, present);
        self.lemma_merge(nodes, queue, id, term, upto);
        assert(after.office_is_sound(next));
        assert(self.moves(after, node, next));
        assert forall|t: Term| #[trigger] after.has(t) && after.terms[t].owner == id implies {
            &&& t <= next.current_term
            &&& t == next.current_term ==> after.fulls[id] == after.log(t) && next.role
                != Role::Candidate
        } by {
            assert(self.has(t));
            assert(self.term_holds(nodes, t));
        }
        assert forall|t: Term, other: NodeId|
            after.acks.contains_key((t, other)) implies #[trigger] self.ack_goes_along(
            after,
            t,
            other,
            id,
            next.current_term,
        ) by {
            if (t, other) == (term, id) && after.acks != self.acks {
                assert(0 <= self.acked(term, id));
            }
        }
        assert forall|t: Term| t != next.current_term implies self.acked(t, id)
            == #[trigger] after.acked(t, id) by {}
        assert(self.goes_along(after, nodes, id, next));
    }

    /// A batch from a leader.
    pub proof fn lemma_append(
        self,
        nodes: Seq<NodeModel<MemoryStateMachine>>,
        queue: Seq<MessageView>,
        id: NodeId,
        from: NodeId,
        request: AppendEntriesView,
        now_ms: u64,
    ) -> (after: Ledger)
        requires
            self.is_ready(nodes, queue, id),
            self.is_member(from),
            self.batch_is_sound(request),
            !strays(nodes, id, request),
        ensures
            ({
                let (next, sent) = nodes[id as int].handle(
                    from,
                    RpcView::AppendEntries(request),
                    now_ms,
                );
                self.advances(after, nodes, id, next, sent)
            }),
    {
        let node = nodes[id as int];
        let (next, reply) = node.on_append_entries(request, now_ms);
        let sent = node.handle(from, RpcView::AppendEntries(request), now_ms).1;
        let later = nodes.update(id as int, next);
        let term = request.term;
        assert(self.node_holds(nodes, id as int));
        self.lemma_shape(nodes, queue);
        assert(sent.len() == 1);
        assert(sent[0] == node.message(from, RpcView::AppendEntriesReply(reply)));
        if !node.accepts_append(request) {
            assert(!reply.success);
            assert(stays(node, next));
            self.lemma_stays(nodes, queue, id, next);
            assert(self.message_holds(later, sent[0]));
            self
        } else {
            let led = node.following(term, now_ms).led_by(request.leader_id, now_ms);
            let upto = request.prev_log_index + request.entries.len();
            let after = self.merge(id, term, upto);
            let old_full = self.fulls[id];
            let full = after.fulls[id];
            assert(stays(node, led));
            self.lemma_stays(nodes, queue, id, led);
            self.lemma_merge(nodes, queue, id, term, upto);
            lemma_same_full(node, led, old_full);
            law_append_merges(led, old_full, self.log(term), request);
            let appended = led.appended(request);
            self.lemma_appended_waits(nodes, queue, id, led, request);
            after.lemma_apply(appended);
            lemma_apply_committed_frame(appended);
            assert(next == appended.apply_committed().0);
            self.lemma_merged_move(nodes, queue, id, led, next, term, upto);
            assert(after.message_holds(later, sent[0]));
            after
        }
    }

    proof fn lemma_appended_waits(
        self,
        nodes: Seq<NodeModel<MemoryStateMachine>>,
        queue: Seq<MessageView>,
        id: NodeId,
        led: NodeModel<MemoryStateMachine>,
        request: AppendEntriesView,
    )
        requires
            self.is_ready(nodes, queue, id),
            self.batch_is_sound(request),
            stays(nodes[id as int], led),
            self.node_is_sound(led),
            led.well_formed(),
            led.current_term == request.term,
            request.prev_log_index >= led.log_base_index,
            led.term_at(request.prev_log_index as int) == Some(request.prev_log_term),
            nodes[id as int].accepts_append(request),
            !strays(nodes, id, request),
        ensures
            self.merge(
                id,
                request.term,
                request.prev_log_index + request.entries.len(),
            ).waits_to_apply(led.appended(request)),
            nodes[id as int].commit_index <= led.appended(request).commit_index,
    {
        let node = nodes[id as int];
        let term = request.term;
        let upto = request.prev_log_index + request.entries.len();
        let after = self.merge(id, term, upto);
        let old_full = self.fulls[id];
        let full = after.fulls[id];
        let appended = led.appended(request);
        let base = led.log_base_index as int;
        assert(self.node_holds(nodes, id as int));
        self.lemma_shape(nodes, queue);
        self.lemma_merge(nodes, queue, id, term, upto);
        lemma_same_full(node, led, old_full);
        law_append_merges(led, old_full, self.log(term), request);
        let count = node.commit_index as int;
        lemma_beginning(full, old_full, count, base);
        if base > 0 {
            assert(full.take(base)[base - 1] == old_full.take(base)[base - 1]);
        }
        lemma_beginning(full, old_full, count, node.last_applied as int);
        assert(full.len() == appended.last_index());
        if appended.commit_index > count {
            self.lemma_appended_covers(nodes, queue, id, led, request);
        }
        if let Some((transfer_id, transfer)) = node.incoming_snapshot {
            let snapshot = choose|snapshot: SnapshotView| #[trigger]
                self.carries(transfer_id, transfer, snapshot);
            self.lemma_backs_grows(after, id, snapshot, transfer.term);
            assert(after.carries(transfer_id, transfer, snapshot));
        }
    }

    /// What the request lets the follower commit, its leader has committed.
    proof fn lemma_appended_covers(
        self,
        nodes: Seq<NodeModel<MemoryStateMachine>>,
        queue: Seq<MessageView>,
        id: NodeId,
        led: NodeModel<MemoryStateMachine>,
        request: AppendEntriesView,
    )
        requires
            self.is_ready(nodes, queue, id),
            self.batch_is_sound(request),
            stays(nodes[id as int], led),
            led.well_formed(),
            led.current_term == request.term,
            request.prev_log_index >= led.log_base_index,
            led.term_at(request.prev_log_index as int) == Some(request.prev_log_term),
            nodes[id as int].accepts_append(request),
            !strays(nodes, id, request),
            led.appended(request).commit_index > led.commit_index,
        ensures
            ({
                let upto = request.prev_log_index + request.entries.len();
                let after = self.merge(id, request.term, upto);
                after.is_covered(
                    after.fulls[id],
                    led.appended(request).commit_index as int,
                    request.term,
                )
            }),
    {
        let node = nodes[id as int];
        let term = request.term;
        let upto = request.prev_log_index + request.entries.len();
        let after = self.merge(id, term, upto);
        let old_full = self.fulls[id];
        let full = after.fulls[id];
        let source = self.log(term);
        let appended = led.appended(request);
        let commit = appended.commit_index as int;
        let sent = request.leader_commit as int;
        assert(self.node_holds(nodes, id as int));
        self.lemma_shape(nodes, queue);
        self.lemma_merge(nodes, queue, id, term, upto);
        lemma_same_full(node, led, old_full);
        law_append_merges(led, old_full, source, request);
        lemma_full_terms(appended, full);
        assert(commit <= sent && commit <= full.len());
        self.lemma_covered_less(source, sent, commit, term);
        let by = choose|by: Term|
            by <= term && #[trigger] self.is_covered_by(source, sent, by);
        assert(self.is_covered_by(source, sent, by));
        assert(sent <= source.len());
        if commit <= upto {
            lemma_beginning(full, source, upto, commit);
        } else {
            let same = node.appended(request);
            law_append_merges(node, old_full, source, request);
            lemma_full_terms(same, full);
            assert(same.commit_index == commit);
            assert(node.commits_unvouched(request));
            assert(same.term_at(commit) == Some(full[commit - 1].term));
            let found = same.term_or_zero(commit);
            assert(is_committed_somewhere(nodes, commit, found));
            let i = choose|i: int|
                0 <= i < nodes.len() && (#[trigger] nodes[i]).commit_index >= commit
                    && nodes[i].term_at(commit) == Some(found);
            let other = nodes[i];
            let held = self.fulls[other.id];
            assert(self.node_holds(nodes, i));
            lemma_full_terms(other, held);
            assert(other.term_at(commit) == Some(held[commit - 1].term));
            self.lemma_coherent_grows(after, id, held);
            after.lemma_match_up(full, held);
            assert(full[commit - 1].term == held[commit - 1].term);
            assert(full.take(commit) == held.take(commit));
            self.lemma_covered_less(held, other.commit_index as int, commit, other.current_term);
            self.lemma_covered_agree(
                nodes,
                queue,
                held,
                other.current_term,
                source,
                term,
                commit,
            );
        }
        self.lemma_covered_grows(after, id, source, full, commit, term, term);
    }

    /// A transfer that is under way stays in order.
    proof fn lemma_incoming_grows(
        self,
        after: Ledger,
        id: NodeId,
        node: NodeModel<MemoryStateMachine>,
    )
        requires
            self.grows(after, id),
            self.is_shaped(),
            self.store_is_sound(node),
        ensures
            node.incoming_snapshot matches Some((transfer_id, transfer)) ==> exists|
                snapshot: SnapshotView,
            | #[trigger] after.carries(transfer_id, transfer, snapshot),
    {
        if let Some((transfer_id, transfer)) = node.incoming_snapshot {
            let under_way = choose|under_way: SnapshotView| #[trigger]
                self.carries(transfer_id, transfer, under_way);
            self.lemma_backs_grows(after, id, under_way, transfer.term);
            assert(after.carries(transfer_id, transfer, under_way));
        }
    }

    /// A snapshot that the node stands at already.
    proof fn lemma_already_installed(
        self,
        nodes: Seq<NodeModel<MemoryStateMachine>>,
        queue: Seq<MessageView>,
        id: NodeId,
        present: NodeModel<MemoryStateMachine>,
        snapshot: SnapshotView,
    )
        requires
            self.is_ready(nodes, queue, id),
            stays(nodes[id as int], present),
            present.role == Role::Follower,
            present.well_formed(),
            self.backs(snapshot, present.current_term),
            present.log_base_index == snapshot.last_included_index,
            present.term_at(snapshot.last_included_index as int) == Some(
                snapshot.last_included_term,
            ),
        ensures
            ({
                let term = present.current_term;
                let index = snapshot.last_included_index as int;
                let after = self.merge(id, term, index);
                &&& self.advances(after, nodes, id, present, Seq::empty())
                &&& index <= after.acked(term, id)
            }),
    {
        let node = nodes[id as int];
        let term = present.current_term;
        let index = snapshot.last_included_index as int;
        let after = self.merge(id, term, index);
        let old_full = self.fulls[id];
        let full = after.fulls[id];
        assert(self.node_holds(nodes, id as int));
        self.lemma_shape(nodes, queue);
        self.lemma_stays(nodes, queue, id, present);
        lemma_same_full(node, present, old_full);
        self.lemma_merge(nodes, queue, id, term, index);
        lemma_full_terms(present, old_full);
        assert(old_full[index - 1].term == self.log(term)[index - 1].term);
        assert(old_full.take(index) == self.log(term).take(index));
        assert(full == old_full);
        self.lemma_incoming_grows(after, id, present);
        assert(after.store_is_sound(present));
        self.lemma_merged_move(nodes, queue, id, present, present, term, index);
    }

    /// A snapshot that is news to the node.
    proof fn lemma_newly_installed(
        self,
        nodes: Seq<NodeModel<MemoryStateMachine>>,
        queue: Seq<MessageView>,
        id: NodeId,
        from: NodeId,
        present: NodeModel<MemoryStateMachine>,
        snapshot: SnapshotView,
        now_ms: u64,
    )
        requires
            self.is_ready(nodes, queue, id),
            stays(nodes[id as int], present),
            present.role == Role::Follower,
            present.well_formed(),
            self.backs(snapshot, present.current_term),
            !present.outdates(snapshot),
        ensures
            ({
                let next = present.install_from(from, snapshot, now_ms).0;
                let term = present.current_term;
                let index = snapshot.last_included_index as int;
                let after = self.merge(id, term, index);
                &&& self.advances(after, nodes, id, next, Seq::empty())
                &&& index <= after.acked(term, id)
            }),
    {
        let node = nodes[id as int];
        lemma_install_fields(present, from, snapshot, now_ms);
        let next = present.install_from(from, snapshot, now_ms).0;
        self.lemma_fresh_store(nodes, queue, id, present, next, snapshot);
        let term = present.current_term;
        let index = snapshot.last_included_index as int;
        self.lemma_merged_move(nodes, queue, id, present, next, term, index);
    }

    proof fn lemma_fresh_store(
        self,
        nodes: Seq<NodeModel<MemoryStateMachine>>,
        queue: Seq<MessageView>,
        id: NodeId,
        present: NodeModel<MemoryStateMachine>,
        next: NodeModel<MemoryStateMachine>,
        snapshot: SnapshotView,
    )
        requires
            self.is_ready(nodes, queue, id),
            stays(nodes[id as int], present),
            present.role == Role::Follower,
            present.well_formed(),
            self.backs(snapshot, present.current_term),
            !present.outdates(snapshot),
            next.id == present.id,
            next.current_term == present.current_term,
            next.incoming_snapshot == present.incoming_snapshot,
            next.log == present.rebased(snapshot, present.surviving_entries(snapshot)).log,
            next.log_base_index == snapshot.last_included_index,
            next.snapshot == Some(snapshot),
            next.commit_index == snapshot.last_included_index,
            next.last_applied == snapshot.last_included_index,
            next.state.last_applied == snapshot.last_included_index,
            next.state.data == pairs_map(snapshot.state.data),
            snapshot.last_included_index > 0,
        ensures
            self.merge(
                id,
                present.current_term,
                snapshot.last_included_index as int,
            ).store_is_sound(next),
    {
        let node = nodes[id as int];
        let term = present.current_term;
        let index = snapshot.last_included_index as int;
        let after = self.merge(id, term, index);
        let old_full = self.fulls[id];
        let full = after.fulls[id];
        assert(self.node_holds(nodes, id as int));
        self.lemma_shape(nodes, queue);
        self.lemma_stays(nodes, queue, id, present);
        lemma_same_full(node, present, old_full);
        self.lemma_merge(nodes, queue, id, term, index);
        law_install_merges(present, old_full, self.log(term), snapshot);
        let rebased = present.rebased(snapshot, present.surviving_entries(snapshot));
        lemma_same_full(rebased, next, full);
        lemma_pairs_map_is_finite(snapshot.state.data);
        assert(full.take(index)[index - 1] == self.log(term).take(index)[index - 1]);
        self.lemma_covered_grows(after, id, self.log(term), full, index, term, term);
        self.lemma_incoming_grows(after, id, present);
        assert(next.commit_index == index);
        assert(next.shows(full));
        assert(after.store_is_sound(next));
    }

    /// A snapshot from a leader.
    proof fn lemma_installed(
        self,
        nodes: Seq<NodeModel<MemoryStateMachine>>,
        queue: Seq<MessageView>,
        id: NodeId,
        from: NodeId,
        present: NodeModel<MemoryStateMachine>,
        snapshot: SnapshotView,
        now_ms: u64,
    ) -> (after: Ledger)
        requires
            self.is_ready(nodes, queue, id),
            stays(nodes[id as int], present),
            present.role == Role::Follower,
            present.well_formed(),
            self.backs(snapshot, present.current_term),
        ensures
            ({
                let (next, result) = present.install_from(from, snapshot, now_ms);
                let index = snapshot.last_included_index;
                &&& self.advances(after, nodes, id, next, Seq::empty())
                &&& after.has(present.current_term)
                &&& after.size == self.size
                &&& result == Ok::<_, Error>(SnapshotInstallResult::Installed) || (
                present.log_base_index == index && present.term_at(index as int) == Some(
                    snapshot.last_included_term,
                )) ==> index <= after.acked(present.current_term, id)
            }),
    {
        let (next, result) = present.install_from(from, snapshot, now_ms);
        let term = present.current_term;
        let index = snapshot.last_included_index as int;
        let after = self.merge(id, term, index);
        if present.outdates(snapshot) {
            assert(next == present);
            if present.log_base_index == index && present.term_at(index) == Some(
                snapshot.last_included_term,
            ) {
                self.lemma_already_installed(nodes, queue, id, present, snapshot);
                after
            } else {
                self.lemma_stays(nodes, queue, id, present);
                self
            }
        } else {
            self.lemma_newly_installed(nodes, queue, id, from, present, snapshot, now_ms);
            after
        }
    }

    /// A whole snapshot arrives.
    pub proof fn lemma_install_request(
        self,
        nodes: Seq<NodeModel<MemoryStateMachine>>,
        queue: Seq<MessageView>,
        id: NodeId,
        from: NodeId,
        request: InstallSnapshotRequestView,
        now_ms: u64,
    ) -> (after: Ledger)
        requires
            self.is_ready(nodes, queue, id),
            self.is_member(from),
            self.backs(request.snapshot, request.term),
            request.snapshot.last_included_index <= self.boundary_in(nodes, request.term),
        ensures
            ({
                let (next, sent) = nodes[id as int].handle(
                    from,
                    RpcView::InstallSnapshotRequest(request),
                    now_ms,
                );
                self.advances(after, nodes, id, next, sent)
            }),
    {
        let node = nodes[id as int];
        let (next, reply) = node.on_install_request(from, request, now_ms);
        let sent = node.handle(from, RpcView::InstallSnapshotRequest(request), now_ms).1;
        let later = nodes.update(id as int, next);
        assert(self.node_holds(nodes, id as int));
        assert(sent.len() == 1);
        assert(sent[0] == node.message(from, RpcView::InstallSnapshotReply(reply)));
        if request.term < node.current_term {
            self.lemma_stays(nodes, queue, id, next);
            assert(self.message_holds(later, sent[0]));
            self
        } else {
            let present = node.following(request.term, now_ms);
            assert(stays(node, present));
            if request.leader_id != from {
                self.lemma_stays(nodes, queue, id, next);
                assert(self.message_holds(later, sent[0]));
                self
            } else {
                let after = self.lemma_installed(
                    nodes,
                    queue,
                    id,
                    from,
                    present,
                    request.snapshot,
                    now_ms,
                );
                assert(self.term_holds(nodes, request.term));
                assert(self.boundary_in(nodes, request.term) <= after.boundary_in(
                    later,
                    request.term,
                ));
                assert(after.message_holds(later, sent[0]));
                after
            }
        }
    }

    /// The bytes that arrive continue those of the transfer under way.
    proof fn lemma_piece(
        self,
        node: NodeModel<MemoryStateMachine>,
        chunk: InstallSnapshotChunkView,
        snapshot: SnapshotView,
        under_way: SnapshotView,
    )
        requires
            are_distinct(self.taken),
            node.continues_transfer(chunk),
            is_piece(chunk, snapshot),
            self.backs(snapshot, chunk.term),
            ({
                let (id, transfer) = node.incoming_snapshot->0;
                self.carries(id, transfer, under_way)
            }),
            chunk.offset == 0 ==> under_way == snapshot,
        ensures
            !chunk.done ==> {
                let (id, transfer) = node.storing(chunk).incoming_snapshot->0;
                self.carries(id, transfer, snapshot)
            },
            chunk.done ==> node.arrived(chunk).len() == chunk.total_size,
            node.arrived(chunk).len() == chunk.total_size ==> parsed_snapshot(node.arrived(chunk))
                == Some(snapshot),
    {
        let bytes = snapshot_bytes(snapshot)->0;
        let offset = chunk.offset as int;
        assert(self.taken.contains(snapshot));
        assert(self.taken.contains(under_way));
        assert(node.arrived(chunk) =~= bytes.take(offset + chunk.data.len()));
        if node.arrived(chunk).len() == chunk.total_size {
            assert(node.arrived(chunk) =~= bytes);
        }
    }

    /// A piece of a snapshot arrives.
    pub proof fn lemma_chunk(
        self,
        nodes: Seq<NodeModel<MemoryStateMachine>>,
        queue: Seq<MessageView>,
        id: NodeId,
        from: NodeId,
        chunk: InstallSnapshotChunkView,
        snapshot: SnapshotView,
        now_ms: u64,
    ) -> (after: Ledger)
        requires
            self.is_ready(nodes, queue, id),
            self.is_member(from),
            is_piece(chunk, snapshot),
            self.backs(snapshot, chunk.term),
        ensures
            ({
                let next = nodes[id as int].on_chunk(from, chunk, now_ms).0;
                &&& self.advances(after, nodes, id, next, Seq::empty())
                &&& after.size == self.size
            }),
    {
        let node = nodes[id as int];
        let next = node.on_chunk(from, chunk, now_ms).0;
        assert(self.node_holds(nodes, id as int));
        if !node.admits_chunk(from, chunk) {
            self.lemma_stays(nodes, queue, id, next);
            self
        } else {
            let present = node.following(chunk.term, now_ms);
            let ready = node.receiving(chunk, now_ms);
            assert(stays(node, present));
            self.lemma_stays(nodes, queue, id, present);
            if chunk.offset == 0 {
                let (transfer_id, transfer) = ready.incoming_snapshot->0;
                let bytes = snapshot_bytes(snapshot)->0;
                assert(transfer.bytes =~= bytes.take(0));
                assert(self.carries(transfer_id, transfer, snapshot));
            }
            if ready.incoming_snapshot is None || !ready.continues_transfer(chunk) {
                self.lemma_alike(self, nodes, queue, id, present, next);
                self
            } else {
                let (transfer_id, transfer) = ready.incoming_snapshot->0;
                let under_way = if chunk.offset == 0 {
                    snapshot
                } else {
                    choose|under_way: SnapshotView| #[trigger]
                        self.carries(transfer_id, transfer, under_way)
                };
                assert(self.carries(transfer_id, transfer, under_way));
                self.lemma_piece(ready, chunk, snapshot, under_way);
                let bytes = ready.arrived(chunk);
                if !chunk.done || bytes.len() != chunk.total_size {
                    self.lemma_alike(self, nodes, queue, id, present, next);
                    self
                } else {
                    let after = self.lemma_installed(
                        nodes,
                        queue,
                        id,
                        from,
                        present,
                        snapshot,
                        now_ms,
                    );
                    let installed = present.install_from(from, snapshot, now_ms).0;
                    lemma_same_installed(present, ready, from, snapshot, now_ms);
                    self.lemma_alike(after, nodes, queue, id, installed, next);
                    after
                }
            }
        }
    }
}

/// Whether a transfer is under way makes no difference to a snapshot.
proof fn lemma_same_installed(
    node: NodeModel<MemoryStateMachine>,
    other: NodeModel<MemoryStateMachine>,
    from: NodeId,
    snapshot: SnapshotView,
    now_ms: u64,
)
    requires
        other == (NodeModel { incoming_snapshot: other.incoming_snapshot, ..node }),
    ensures
        other.install_from(from, snapshot, now_ms).0 == (NodeModel {
            incoming_snapshot: other.incoming_snapshot,
            ..node.install_from(from, snapshot, now_ms).0
        }),
{
}

} // verus!
