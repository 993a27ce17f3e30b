//! What holds of the state: it is what the committed part of the log makes of the
//! snapshot that the log starts at.
use crate::codec::parsed_snapshot;
use crate::error::Error;
use crate::kv_map::lemma_finite_map_has_pairs;
use crate::kv_map::lemma_pairs_map_is_finite;
use crate::kv_map::pairs_map;
use crate::node::model::larger;
use crate::node::model::minus;
use crate::node::model::NodeModel;
use crate::node::replication::lemma_agreement_bounds;
use crate::node::replication::lemma_apply_committed_frame;
use crate::node::replication::lemma_commit_point;
use crate::node::SnapshotInstallResult;
use crate::state_machine::after_command;
use crate::state_machine::MemoryStateMachine;
use crate::state_machine::StateMachine;
use crate::storage::DurableStateView;
use crate::storage::PersistedStateView;
use crate::types::AppendEntriesReply;
use crate::types::AppendEntriesView;
use crate::types::ClientRequestView;
use crate::types::InstallSnapshotChunkView;
use crate::types::InstallSnapshotRequestView;
use crate::types::LogEntryView;
use crate::types::LogIndex;
use crate::types::NodeId;
use crate::types::RequestVoteReply;
use crate::types::Role;
use crate::types::RpcView;
use crate::types::SnapshotView;
use vstd::prelude::*;

verus! {

type Contents = Map<Seq<char>, Seq<char>>;

impl NodeModel<MemoryStateMachine> {
    /// The contents that the log starts from.
    pub open spec fn origin(self) -> Contents {
        match self.snapshot {
            Some(snapshot) => pairs_map(snapshot.state.data),
            None => Map::empty(),
        }
    }

    /// The contents after the entries up to `index`, one after the other.
    pub open spec fn replayed(self, index: int) -> Contents
        decreases index,
    {
        if index <= self.log_base_index || index <= 0 {
            self.origin()
        } else {
            after_command(
                self.replayed(index - 1),
                self.log[index - self.first_index()].command,
            )
        }
    }

    /// The log starts at the boundary of the snapshot, if there is one.
    pub open spec fn starts_at_snapshot(self) -> bool {
        &&& self.snapshot is Some <==> self.log_base_index > 0
        &&& self.snapshot matches Some(snapshot) ==> {
            &&& snapshot.valid()
            &&& snapshot.last_included_index == self.log_base_index
            &&& self.log.len() > 0
            &&& self.log[0].term == snapshot.last_included_term
        }
    }

    /// What is committed is in the log and applied, and the state is what the
    /// entries up to there make of the snapshot.
    pub open spec fn is_consistent(self) -> bool {
        &&& self.starts_at_snapshot()
        &&& self.last_index() < usize::MAX
        &&& self.log_base_index <= self.commit_index <= self.last_index()
        &&& self.last_applied == self.commit_index
        &&& self.state.last_applied == self.commit_index
        &&& self.state.data == self.replayed(self.commit_index as int)
        &&& self.state.data.dom().finite()
    }

    /// Nothing changes that the state depends on.
    spec fn same_history(self, other: Self) -> bool {
        &&& other.log == self.log
        &&& other.log_base_index == self.log_base_index
        &&& other.snapshot == self.snapshot
        &&& other.commit_index == self.commit_index
        &&& other.last_applied == self.last_applied
        &&& other.state == self.state
    }

    proof fn lemma_replayed_same(self, other: Self, index: int)
        requires
            other.log_base_index == self.log_base_index,
            other.snapshot == self.snapshot,
            forall|i: int|
                self.log_base_index < i <= index ==> #[trigger] other.log[i - self.first_index()]
                    == self.log[i - self.first_index()],
        ensures
            other.replayed(index) == self.replayed(index),
        decreases index,
    {
        if index > self.log_base_index && index > 0 {
            assert(other.log[index - self.first_index()] == self.log[index
                - self.first_index()]);
            self.lemma_replayed_same(other, index - 1);
        }
    }

    proof fn lemma_same_history(self, other: Self)
        requires
            self.is_consistent(),
            self.same_history(other),
        ensures
            other.is_consistent(),
    {
        self.lemma_replayed_same(other, self.commit_index as int);
    }

    /// Applying what is committed brings the state to the commit index.
    proof fn lemma_applied(self)
        requires
            self.starts_at_snapshot(),
            self.last_index() < usize::MAX,
            self.log_base_index <= self.last_applied <= self.commit_index <= self.last_index(),
            self.state.last_applied == self.last_applied,
            self.state.data == self.replayed(self.last_applied as int),
            self.state.data.dom().finite(),
        ensures
            self.apply_committed().0.is_consistent(),
            self.apply_committed().1 is Ok,
            self.apply_committed().0.commit_index == self.commit_index,
            self.apply_committed().0.state.data == self.replayed(self.commit_index as int),
        decreases self.commit_index - self.last_applied,
    {
        if self.last_applied < self.commit_index {
            let index = (self.last_applied + 1) as LogIndex;
            let entry = self.entry_at(index as int)->0;
            let (state, result) = MemoryStateMachine::applied(self.state, index, entry.command);
            let next = NodeModel { state, last_applied: index, ..self };
            self.lemma_replayed_same(next, index as int);
            self.lemma_replayed_same(next, index - 1);
            self.lemma_replayed_same(next, self.commit_index as int);
            next.lemma_applied();
        }
    }

    proof fn lemma_append_keeps_consistent(self, request: AppendEntriesView, now_ms: u64)
        requires
            self.is_consistent(),
            self.accepts_append(request) ==> request.prev_log_index + request.entries.len()
                < usize::MAX,
            self.spares_committed(request),
        ensures
            self.on_append_entries(request, now_ms).0.is_consistent(),
    {
        if request.term >= self.current_term {
            let led = self.following(request.term, now_ms).led_by(request.leader_id, now_ms);
            self.lemma_same_history(led);
            if self.accepts_append(request) {
                let first = request.prev_log_index + 1;
                let kept = led.agreement(first, request.entries) as int;
                let base = led.first_index();
                lemma_agreement_bounds(led, first, request.entries);
                assert(kept == self.agreement(first, request.entries)) by {
                    lemma_same_agreement(self, led, first, request.entries);
                }
                let after = led.appended(request);
                if kept < request.entries.len() {
                    assert(after.log =~= led.log.take(first + kept - base)
                        + request.entries.skip(kept));
                }
                assert forall|i: int|
                    led.log_base_index < i <= led.commit_index implies #[trigger] after.log[i - base]
                    == led.log[i - base] by {}
                led.lemma_replayed_same(after, led.commit_index as int);
                assert(after.starts_at_snapshot());
                after.lemma_applied();
            }
        }
    }

    /// The request overwrites nothing that is committed here.
    pub open spec fn spares_committed(self, request: AppendEntriesView) -> bool {
        let first = request.prev_log_index + 1;
        let kept = self.agreement(first, request.entries);
        self.accepts_append(request) && kept < request.entries.len() ==> first + kept
            > self.commit_index
    }

    proof fn lemma_commit_keeps_consistent(self)
        requires
            self.is_consistent(),
        ensures
            self.commit_advanced().is_consistent(),
    {
        lemma_commit_point(self, self.last_index());
        let after = NodeModel {
            commit_index: self.commit_point(self.last_index()) as LogIndex,
            ..self
        };
        self.lemma_replayed_same(after, self.last_applied as int);
        after.lemma_applied();
    }

    proof fn lemma_append_reply_keeps_consistent(
        self,
        from: NodeId,
        reply: AppendEntriesReply,
        now_ms: u64,
    )
        requires
            self.is_consistent(),
        ensures
            self.on_append_reply(from, reply, now_ms).0.is_consistent(),
    {
        let acknowledged = self.contacted(from, now_ms).acknowledged(from, reply.match_index);
        self.lemma_same_history(acknowledged);
        acknowledged.lemma_commit_keeps_consistent();
        let advanced = acknowledged.commit_advanced();
        advanced.lemma_same_history(NodeModel { leader_transfer_target: None, ..advanced });
        if reply.term > self.current_term {
            self.lemma_same_history(self.stepped_down(reply.term, now_ms));
        }
        let next = larger(
            minus(self.next_for(from), 1),
            1,
        );
        self.lemma_same_history(
            NodeModel {
                next_index: self.next_index.insert(from, next as LogIndex),
                ..self.contacted(from, now_ms)
            },
        );
    }

    proof fn lemma_install_keeps_consistent(self, snapshot: SnapshotView)
        requires
            self.is_consistent(),
            self.can_install(snapshot),
        ensures
            self.install_snapshot(snapshot).0.is_consistent(),
            self.install_snapshot(snapshot).1 !is Ok || self.outdates(snapshot)
                ==> self.install_snapshot(snapshot).0 == self,
            snapshot.valid() && !self.outdates(snapshot) ==> {
                let after = self.install_snapshot(snapshot).0;
                &&& after.state.data == pairs_map(snapshot.state.data)
                &&& after.commit_index == snapshot.last_included_index
            },
    {
        reveal(NodeModel::can_install);
        if snapshot.valid() && !self.outdates(snapshot) {
            let after = self.install_snapshot(snapshot).0;
            lemma_pairs_map_is_finite(snapshot.state.data);
            assert(after.log[0].term == snapshot.last_included_term);
            if self.term_at(snapshot.last_included_index as int) == Some(
                snapshot.last_included_term,
            ) {
                let kept = self.entries_from(snapshot.last_included_index + 1);
                assert(after.log.len() == 1 + kept.len());
            }
            assert(after.replayed(after.commit_index as int) == after.origin());
        }
    }

    proof fn lemma_install_from_keeps_consistent(
        self,
        from: NodeId,
        snapshot: SnapshotView,
        now_ms: u64,
    )
        requires
            self.is_consistent(),
            self.can_install(snapshot),
        ensures
            self.install_from(from, snapshot, now_ms).0.is_consistent(),
    {
        self.lemma_install_keeps_consistent(snapshot);
        let installed = self.install_snapshot(snapshot).0;
        installed.lemma_same_history(installed.led_by(from, now_ms));
    }

    proof fn lemma_request_keeps_consistent(
        self,
        from: NodeId,
        request: InstallSnapshotRequestView,
        now_ms: u64,
    )
        requires
            self.is_consistent(),
            self.can_install(request.snapshot),
        ensures
            self.on_install_request(from, request, now_ms).0.is_consistent(),
    {
        reveal(NodeModel::can_install);
        if request.term >= self.current_term {
            let present = self.following(request.term, now_ms);
            self.lemma_same_history(present);
            present.lemma_install_from_keeps_consistent(from, request.snapshot, now_ms);
        }
    }

    proof fn lemma_chunk_keeps_consistent(
        self,
        from: NodeId,
        chunk: InstallSnapshotChunkView,
        now_ms: u64,
    )
        requires
            self.is_consistent(),
            self.can_handle(from, RpcView::InstallSnapshotChunk(chunk), now_ms),
        ensures
            self.on_chunk(from, chunk, now_ms).0.is_consistent(),
    {
        reveal(NodeModel::can_install);
        let ready = self.receiving(chunk, now_ms);
        self.lemma_same_history(ready);
        let stored = ready.storing(chunk);
        self.lemma_same_history(stored);
        self.lemma_same_history(stored.timer_reset(now_ms));
        if self.completes_transfer(from, chunk, now_ms) {
            let bytes = ready.arrived(chunk);
            if let Some(snapshot) = parsed_snapshot(bytes) {
                ready.lemma_install_from_keeps_consistent(from, snapshot, now_ms);
                let installed = ready.install_from(from, snapshot, now_ms).0;
                installed.lemma_same_history(
                    NodeModel { incoming_snapshot: None, ..installed },
                );
            } else {
                ready.lemma_same_history(NodeModel { incoming_snapshot: None, ..ready });
            }
        }
    }

    proof fn lemma_others_keep_history(self, from: NodeId, rpc: RpcView, now_ms: u64)
        requires
            rpc is RequestVote || rpc is PreVote || rpc is PreVoteReply || rpc is ReadIndex
                || rpc is ReadIndexReply || rpc is TimeoutNow || rpc is InstallSnapshotReply
                || rpc is InstallSnapshotChunkReply,
        ensures
            self.same_history(self.handle(from, rpc, now_ms).0),
    {
    }
}

/// Agreement depends on the log alone.
proof fn lemma_same_agreement(
    node: NodeModel<MemoryStateMachine>,
    other: NodeModel<MemoryStateMachine>,
    index: int,
    entries: Seq<LogEntryView>,
)
    requires
        node.log == other.log,
        node.log_base_index == other.log_base_index,
    ensures
        node.agreement(index, entries) == other.agreement(index, entries),
    decreases entries.len(),
{
    if entries.len() > 0 {
        lemma_same_agreement(node, other, index + 1, entries.skip(1));
    }
}

/// A node that has seen nothing yet is consistent.
pub proof fn law_new_node_is_consistent(id: NodeId, peers: Seq<NodeId>)
    ensures
        NodeModel::<MemoryStateMachine>::initial(
            id,
            peers,
            MemoryStateMachine::initial(),
        ).is_consistent(),
{
}

/// Whatever a node is told, its state stays what the committed part of its log
/// makes of its snapshot, as long as no request overwrites what is committed.
pub proof fn law_state_is_the_replayed_log(
    node: NodeModel<MemoryStateMachine>,
    from: NodeId,
    rpc: RpcView,
    now_ms: u64,
)
    requires
        node.is_consistent(),
        node.can_handle(from, rpc, now_ms),
        rpc matches RpcView::AppendEntries(request) ==> node.spares_committed(request),
    ensures
        node.handle(from, rpc, now_ms).0.is_consistent(),
{
    match rpc {
        RpcView::AppendEntries(request) => {
            node.lemma_append_keeps_consistent(request, now_ms);
        },
        RpcView::AppendEntriesReply(reply) => {
            node.lemma_append_reply_keeps_consistent(from, reply, now_ms);
        },
        RpcView::InstallSnapshot(snapshot) => {
            node.lemma_install_from_keeps_consistent(from, snapshot, now_ms);
        },
        RpcView::InstallSnapshotRequest(request) => {
            node.lemma_request_keeps_consistent(from, request, now_ms);
        },
        RpcView::InstallSnapshotChunk(chunk) => {
            node.lemma_chunk_keeps_consistent(from, chunk, now_ms);
        },
        RpcView::RequestVoteReply(reply) => {
            node.lemma_election_keeps_consistent(from, reply, now_ms);
        },
        _ => {
            node.lemma_others_keep_history(from, rpc, now_ms);
            node.lemma_same_history(node.handle(from, rpc, now_ms).0);
        },
    }
}

impl NodeModel<MemoryStateMachine> {
    proof fn lemma_longer_log_keeps_consistent(self, other: Self)
        requires
            self.is_consistent(),
            self.log.is_prefix_of(other.log),
            other.last_index() < usize::MAX,
            other.log_base_index == self.log_base_index,
            other.snapshot == self.snapshot,
            other.commit_index == self.commit_index,
            other.last_applied == self.last_applied,
            other.state == self.state,
        ensures
            other.is_consistent(),
    {
        assert forall|i: int|
            self.log_base_index < i <= self.commit_index implies #[trigger] other.log[i
            - self.first_index()] == self.log[i - self.first_index()] by {
            assert(other.log.take(self.log.len() as int)[i - self.first_index()] == other.log[i
                - self.first_index()]);
        }
        if self.log.len() > 0 {
            assert(other.log.take(self.log.len() as int)[0] == other.log[0]);
        }
        self.lemma_replayed_same(other, self.commit_index as int);
    }

    proof fn lemma_election_keeps_consistent(
        self,
        from: NodeId,
        reply: RequestVoteReply,
        now_ms: u64,
    )
        requires
            self.is_consistent(),
            self.wins_vote(from, reply) ==> self.last_index() + 1 < usize::MAX,
        ensures
            self.on_request_vote_reply(from, reply, now_ms).0.is_consistent(),
    {
        let after = self.on_request_vote_reply(from, reply, now_ms).0;
        if self.wins_vote(from, reply) && reply.term <= self.current_term {
            assert(after.log.take(self.log.len() as int) =~= self.log);
            self.lemma_longer_log_keeps_consistent(after);
        } else {
            self.lemma_same_history(after);
        }
    }
}

/// The clock leaves a node consistent.
pub proof fn law_ticking_keeps_consistent(node: NodeModel<MemoryStateMachine>, now_ms: u64)
    requires
        node.is_consistent(),
    ensures
        node.tick(now_ms).0.is_consistent(),
{
    node.lemma_same_history(node.tick(now_ms).0);
}

/// Clients leave a node consistent.
pub proof fn law_clients_keep_consistent(
    node: NodeModel<MemoryStateMachine>,
    request: ClientRequestView,
)
    requires
        node.is_consistent(),
        node.last_index() + 1 < usize::MAX,
    ensures
        node.start_write(request).0.is_consistent(),
        node.start_read().0.is_consistent(),
{
    let after = node.start_write(request).0;
    if node.role == Role::Leader && (request is Put || request is Delete) {
        assert(after.log.take(node.log.len() as int) =~= node.log);
        node.lemma_longer_log_keeps_consistent(after);
    } else {
        node.lemma_same_history(after);
    }
    node.lemma_same_history(node.start_read().0);
}

/// Compaction succeeds at the last applied index once there is something new, and
/// keeps the state, the commit index, every entry past the boundary and every term
/// from the boundary on. The node stays consistent.
pub proof fn law_compaction_loses_nothing(node: NodeModel<MemoryStateMachine>)
    requires
        node.is_consistent(),
        node.last_applied > node.log_base_index,
    ensures
        ({
            let (after, result) = node.compact_to(node.last_applied);
            &&& result matches Ok(snapshot) && {
                &&& snapshot.last_included_index == node.last_applied
                &&& node.term_at(node.last_applied as int) == Some(snapshot.last_included_term)
                &&& pairs_map(snapshot.state.data) == node.state.data
                &&& after.snapshot == Some(snapshot)
            }
            &&& after.is_consistent()
            &&& after.log_base_index == node.last_applied
            &&& after.state == node.state
            &&& after.commit_index == node.commit_index
            &&& after.current_term == node.current_term
            &&& after.voted_for == node.voted_for
            &&& after.last_index() == node.last_index()
            &&& forall|index: int|
                index >= node.last_applied ==> #[trigger] after.term_at(index) == node.term_at(
                    index,
                )
            &&& forall|index: int|
                index > node.last_applied ==> #[trigger] after.entry_at(index) == node.entry_at(
                    index,
                )
        }),
{
    lemma_finite_map_has_pairs(node.state.data);
    let index = node.last_applied;
    let (after, result) = node.compact_to(index);
    let snapshot = node.create_snapshot()->Ok_0;
    assert(snapshot.valid());
    let kept = node.entries_from(index + 1);
    assert(kept =~= node.log.skip(index + 1 - node.first_index()));
    assert forall|i: int| i >= index implies #[trigger] after.term_at(i) == node.term_at(i) by {
        if i > index && node.has_slot(i) {
            assert(after.log[i - index] == kept[i - index - 1]);
        }
    }
    assert forall|i: int| i > index implies #[trigger] after.entry_at(i) == node.entry_at(i) by {
        if node.has_slot(i) {
            assert(after.log[i - index] == kept[i - index - 1]);
        }
    }
    assert(after.replayed(index as int) == after.origin());
}

/// A snapshot that is not installed leaves the node exactly as it was.
pub proof fn law_rejected_install_changes_nothing(
    node: NodeModel<MemoryStateMachine>,
    snapshot: SnapshotView,
)
    requires
        node.install_snapshot(snapshot).1 != Ok::<_, Error>(SnapshotInstallResult::Installed),
    ensures
        node.install_snapshot(snapshot).0 == node,
{
}

/// A snapshot is installed exactly if it is well formed and newer than what the
/// node has; the node then has the snapshot's contents and stands at its boundary.
pub proof fn law_installed_snapshot_is_the_state(
    node: NodeModel<MemoryStateMachine>,
    snapshot: SnapshotView,
)
    ensures
        ({
            let (after, result) = node.install_snapshot(snapshot);
            &&& result == Ok::<_, Error>(SnapshotInstallResult::Installed) <==> snapshot.valid()
                && !node.outdates(snapshot)
            &&& result == Ok::<_, Error>(SnapshotInstallResult::Stale) <==> snapshot.valid()
                && node.outdates(snapshot)
            &&& result is Err <==> !snapshot.valid()
            &&& result == Ok::<_, Error>(SnapshotInstallResult::Installed) ==> {
                &&& after.state.data == pairs_map(snapshot.state.data)
                &&& after.last_applied == snapshot.last_included_index
                &&& after.commit_index == snapshot.last_included_index
                &&& after.log_base_index == snapshot.last_included_index
                &&& after.snapshot == Some(snapshot)
                &&& after.term_at(snapshot.last_included_index as int) == Some(
                    snapshot.last_included_term,
                )
                &&& after.current_term == node.current_term
                &&& after.voted_for == node.voted_for
            }
        }),
{
}

/// A snapshot that was installed is stale when it comes again, and changes nothing.
pub proof fn law_second_install_is_stale(
    node: NodeModel<MemoryStateMachine>,
    snapshot: SnapshotView,
)
    requires
        node.install_snapshot(snapshot).1 == Ok::<_, Error>(SnapshotInstallResult::Installed),
    ensures
        ({
            let after = node.install_snapshot(snapshot).0;
            after.install_snapshot(snapshot) == (
                after,
                Ok::<_, Error>(SnapshotInstallResult::Stale),
            )
        }),
{
}

/// The state of a compacted node reaches another node with the snapshot: where it
/// is installed, both hold the same state.
pub proof fn law_compacted_state_reaches_others(
    source: NodeModel<MemoryStateMachine>,
    target: NodeModel<MemoryStateMachine>,
    snapshot: SnapshotView,
)
    requires
        source.is_consistent(),
        source.compact_to(source.last_applied).1 == Ok::<_, Error>(snapshot),
        target.install_snapshot(snapshot).1 == Ok::<_, Error>(SnapshotInstallResult::Installed),
    ensures
        target.install_snapshot(snapshot).0.state == source.state,
{
    lemma_finite_map_has_pairs(source.state.data);
}

/// A consistent node that was kept comes back as a follower that knows no leader, with
/// its term, its vote, its log, its snapshot, all that was committed, and the state.
pub proof fn law_kept_node_comes_back(node: NodeModel<MemoryStateMachine>)
    requires
        node.is_consistent(),
    ensures
        PersistedStateView::of_node(node).restored::<MemoryStateMachine>(
            node.id,
            node.peers,
            MemoryStateMachine::initial(),
        ) matches Ok(back) && {
            &&& back.id == node.id
            &&& back.peers == node.peers
            &&& back.role == Role::Follower
            &&& back.leader_id is None
            &&& back.current_term == node.current_term
            &&& back.voted_for == node.voted_for
            &&& back.log == node.log
            &&& back.log_base_index == node.log_base_index
            &&& back.snapshot == node.snapshot
            &&& back.commit_index == node.commit_index
            &&& back.last_applied == node.last_applied
            &&& back.state == node.state
            &&& back.is_consistent()
        },
{
    let state = MemoryStateMachine::initial();
    let parts = NodeModel::<MemoryStateMachine>::persisted_parts(
        node.id,
        node.peers,
        node.current_term,
        node.voted_for,
        node.log,
        node.commit_index,
        node.snapshot,
        state,
    );
    assert(parts is Ok);
    let back = parts->Ok_0;
    assert(back.commit_index == node.commit_index);
    if let Some(snapshot) = node.snapshot {
        lemma_pairs_map_is_finite(snapshot.state.data);
    }
    assert(back.replayed(back.last_applied as int) == back.origin());
    back.lemma_applied();
    lemma_apply_committed_frame(back);
    let applied = back.apply_committed().0;
    node.lemma_replayed_same(back, node.commit_index as int);
    assert(applied.state =~= node.state);
}

/// A consistent node without a snapshot comes back from its durable state alone, as a
/// follower that knows no leader.
pub proof fn law_durable_node_comes_back(node: NodeModel<MemoryStateMachine>)
    requires
        node.is_consistent(),
        node.snapshot is None,
    ensures
        ({
            let durable = DurableStateView::of_node(node);
            let back = NodeModel::<MemoryStateMachine>::from_parts(
                node.id,
                node.peers,
                durable.current_term,
                durable.voted_for,
                durable.log,
                durable.commit_index,
                MemoryStateMachine::initial(),
            );
            &&& back.role == Role::Follower
            &&& back.leader_id is None
            &&& back.current_term == node.current_term
            &&& back.voted_for == node.voted_for
            &&& back.log == node.log
            &&& back.commit_index == node.commit_index
            &&& back.state == node.state
            &&& back.is_consistent()
        }),
{
    let start = NodeModel {
        current_term: node.current_term,
        voted_for: node.voted_for,
        log: node.log,
        commit_index: node.commit_index,
        ..NodeModel::<MemoryStateMachine>::initial(
            node.id,
            node.peers,
            MemoryStateMachine::initial(),
        )
    };
    assert(start.replayed(0) == start.origin());
    start.lemma_applied();
    lemma_apply_committed_frame(start);
    node.lemma_replayed_same(start, node.commit_index as int);
    assert(start.apply_committed().0.state =~= node.state);
}

} // verus!
