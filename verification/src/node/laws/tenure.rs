//! What a leader keeps as long as it leads, and what its state shows of a write.
use crate::error::Error;
use crate::node::model::NodeModel;
use crate::node::replication::lemma_apply_committed_frame;
use crate::node::replication::lemma_commit_point;
use crate::state_machine::MemoryStateMachine;
use crate::state_machine::StateMachine;
use crate::types::AppendEntriesReply;
use crate::types::AppendEntriesView;
use crate::types::ClientRequestView;
use crate::types::CommandView;
use crate::types::InstallSnapshotChunkView;
use crate::types::InstallSnapshotRequestView;
use crate::types::LogIndex;
use crate::types::NodeId;
use crate::types::Role;
use crate::types::RpcView;
use crate::types::Term;
use vstd::prelude::*;

verus! {

/// The command writes or deletes `key`.
pub open spec fn touches(command: CommandView, key: Seq<char>) -> bool {
    match command {
        CommandView::Noop => false,
        CommandView::Put { key: written, value } => written == key,
        CommandView::Delete { key: deleted } => deleted == key,
    }
}

/// What the command leaves at the key that it writes or deletes.
pub open spec fn value_left(command: CommandView) -> Option<Seq<char>> {
    match command {
        CommandView::Put { key, value } => Some(value),
        _ => None,
    }
}

impl NodeModel<MemoryStateMachine> {
    /// What is committed is in the log, and exactly that is applied.
    pub open spec fn keeps_pace(self) -> bool {
        &&& self.log_base_index <= self.commit_index <= self.last_index()
        &&& self.last_applied == self.commit_index
        &&& self.state.last_applied == self.commit_index
    }

    /// A read of `key` finds `value` now.
    pub open spec fn finds(self, key: Seq<char>, value: Option<Seq<char>>) -> bool {
        MemoryStateMachine::lookup(self.state, key) == Ok::<_, Error>(value)
    }

    /// From the commit of `index` on a read of `key` finds `value`: the entry there
    /// leaves it, or has left it, and no entry behind it touches the key.
    pub open spec fn will_find(
        self,
        index: int,
        key: Seq<char>,
        value: Option<Seq<char>>,
    ) -> bool {
        &&& index <= self.last_index()
        &&& if index <= self.commit_index {
            self.finds(key, value)
        } else {
            &&& touches(self.log[index - self.first_index()].command, key)
            &&& value_left(self.log[index - self.first_index()].command) == value
        }
        &&& forall|i: int|
            self.commit_index < i <= self.last_index() && index < i ==> !touches(
                (#[trigger] self.log[i - self.first_index()]).command,
                key,
            )
    }

    /// `after` is the same leader in the same term: its log is the same, and what
    /// it has committed besides is applied.
    pub open spec fn leads_on_as(self, after: Self) -> bool {
        let applied = NodeModel { commit_index: after.commit_index, ..self }.apply_committed().0;
        &&& after.role == Role::Leader
        &&& after.current_term == self.current_term
        &&& after.term_start_index == self.term_start_index
        &&& after.log == self.log
        &&& after.log_base_index == self.log_base_index
        &&& after.snapshot == self.snapshot
        &&& self.commit_index <= after.commit_index <= self.last_index()
        &&& after.state == applied.state
        &&& after.last_applied == applied.last_applied
    }

    /// Nothing changes that reads depend on.
    spec fn same_tenure(self, after: Self) -> bool {
        &&& after.role == Role::Leader
        &&& after.current_term == self.current_term
        &&& after.term_start_index == self.term_start_index
        &&& after.log == self.log
        &&& after.log_base_index == self.log_base_index
        &&& after.snapshot == self.snapshot
        &&& after.commit_index == self.commit_index
        &&& after.state == self.state
        &&& after.last_applied == self.last_applied
    }

    proof fn lemma_same_tenure(self, after: Self)
        requires
            self.keeps_pace(),
            self.same_tenure(after),
        ensures
            self.leads_on_as(after),
    {
    }

    /// Applying keeps pace, and shows what it is to show.
    proof fn lemma_applied_finds(self, index: int, key: Seq<char>, value: Option<Seq<char>>)
        requires
            self.well_formed(),
            self.log_base_index <= self.last_applied <= self.commit_index <= self.last_index(),
            self.state.last_applied == self.last_applied,
        ensures
            self.apply_committed().0.keeps_pace(),
            (NodeModel { commit_index: self.last_applied, ..self }).will_find(index, key, value)
                ==> self.apply_committed().0.will_find(index, key, value),
        decreases self.commit_index - self.last_applied,
    {
        lemma_apply_committed_frame(self);
        let now = NodeModel { commit_index: self.last_applied, ..self };
        if self.last_applied < self.commit_index {
            let applying = (self.last_applied + 1) as LogIndex;
            let entry = self.entry_at(applying as int)->0;
            assert(self.entry_at(applying as int) is Some);
            assert(entry == self.log[applying - self.first_index()]);
            let (state, result) = MemoryStateMachine::applied(
                self.state,
                applying,
                entry.command,
            );
            let next = NodeModel { state, last_applied: applying, ..self };
            assert(result is Ok);
            next.lemma_applied_finds(index, key, value);
            assert(self.apply_committed() == next.apply_committed());
            if now.will_find(index, key, value) {
                let then = NodeModel { commit_index: next.last_applied, ..next };
                assert(then.finds(key, value) || applying < index) by {
                    if index <= self.last_applied {
                        assert(!touches(now.log[applying - now.first_index()].command, key));
                    }
                }
                assert(then.will_find(index, key, value));
            }
        } else {
            assert(self.apply_committed().0 == self);
            assert(now == self);
        }
    }

    /// A leader that leads on keeps pace and finds what it is to find.
    pub proof fn lemma_leading_finds(
        self,
        after: Self,
        index: int,
        key: Seq<char>,
        value: Option<Seq<char>>,
    )
        requires
            self.well_formed(),
            self.keeps_pace(),
            self.leads_on_as(after),
        ensures
            after.keeps_pace(),
            self.will_find(index, key, value) ==> after.will_find(index, key, value),
    {
        let committed = NodeModel { commit_index: after.commit_index, ..self };
        committed.lemma_applied_finds(index, key, value);
        lemma_apply_committed_frame(committed);
        let applied = committed.apply_committed().0;
        assert(NodeModel { commit_index: committed.last_applied, ..committed } == self);
        if self.will_find(index, key, value) {
            assert(applied.will_find(index, key, value));
            assert(forall|i: int| #[trigger]
                after.log[i - after.first_index()] == applied.log[i - applied.first_index()]);
        }
    }

    proof fn lemma_append_reply(self, from: NodeId, reply: AppendEntriesReply, now_ms: u64)
        requires
            self.well_formed(),
            self.keeps_pace(),
            self.role == Role::Leader,
        ensures
            ({
                let after = self.on_append_reply(from, reply, now_ms).0;
                after.role == Role::Leader ==> self.leads_on_as(after)
            }),
    {
        if reply.term > self.current_term || !self.hears_peer(from, reply.term) {
            let after = self.on_append_reply(from, reply, now_ms).0;
            if after.role == Role::Leader {
                self.lemma_same_tenure(after);
            }
        } else if reply.success {
            let acknowledged = self.contacted(from, now_ms).acknowledged(from, reply.match_index);
            lemma_commit_point(acknowledged, acknowledged.last_index());
            let point = acknowledged.commit_point(acknowledged.last_index()) as LogIndex;
            let raised = NodeModel { commit_index: point, ..acknowledged };
            let committed = NodeModel { commit_index: point, ..self };
            lemma_apply_committed_frame(raised);
            lemma_same_application(committed, raised);
        } else {
            self.lemma_same_tenure(self.on_append_reply(from, reply, now_ms).0);
        }
    }

    proof fn lemma_append(self, request: AppendEntriesView, now_ms: u64)
        requires
            self.keeps_pace(),
            self.role == Role::Leader,
        ensures
            ({
                let after = self.on_append_entries(request, now_ms).0;
                after.role == Role::Leader ==> self.leads_on_as(after)
            }),
    {
        if request.term >= self.current_term {
            let led = self.following(request.term, now_ms).led_by(request.leader_id, now_ms);
            lemma_apply_committed_frame(led.appended(request));
        } else {
            self.lemma_same_tenure(self);
        }
    }

    proof fn lemma_install_request(
        self,
        from: NodeId,
        request: InstallSnapshotRequestView,
        now_ms: u64,
    )
        requires
            self.keeps_pace(),
            self.role == Role::Leader,
        ensures
            ({
                let after = self.on_install_request(from, request, now_ms).0;
                after.role == Role::Leader ==> self.leads_on_as(after)
            }),
    {
        if request.term < self.current_term {
            self.lemma_same_tenure(self);
        } else {
            let present = self.following(request.term, now_ms);
            assert(present.role == Role::Follower);
            assert(present.install_snapshot(request.snapshot).0.role == Role::Follower);
        }
    }

    proof fn lemma_chunk(self, from: NodeId, chunk: InstallSnapshotChunkView, now_ms: u64)
        requires
            self.keeps_pace(),
            self.role == Role::Leader,
        ensures
            ({
                let after = self.on_chunk(from, chunk, now_ms).0;
                after.role == Role::Leader ==> self.leads_on_as(after)
            }),
    {
        if self.admits_chunk(from, chunk) {
            let ready = self.receiving(chunk, now_ms);
            assert(ready.role == Role::Follower);
            assert(ready.storing(chunk).role == Role::Follower);
            assert(ready.finish_transfer(from, ready.arrived(chunk), now_ms).0.role
                == Role::Follower);
        } else {
            self.lemma_same_tenure(self);
        }
    }

    proof fn lemma_others(self, from: NodeId, rpc: RpcView, now_ms: u64)
        requires
            self.keeps_pace(),
            self.role == Role::Leader,
            rpc is RequestVote || rpc is RequestVoteReply || rpc is PreVote || rpc is PreVoteReply
                || rpc is ReadIndex || rpc is ReadIndexReply || rpc is TimeoutNow
                || rpc is InstallSnapshotReply || rpc is InstallSnapshotChunkReply,
        ensures
            ({
                let after = self.handle(from, rpc, now_ms).0;
                after.role == Role::Leader ==> self.same_tenure(after)
            }),
    {
    }
}

/// Applying depends on the log, the state and what is committed alone.
proof fn lemma_same_application(
    node: NodeModel<MemoryStateMachine>,
    other: NodeModel<MemoryStateMachine>,
)
    requires
        other.log == node.log,
        other.log_base_index == node.log_base_index,
        other.commit_index == node.commit_index,
        other.last_applied == node.last_applied,
        other.state == node.state,
    ensures
        other.apply_committed().0.state == node.apply_committed().0.state,
        other.apply_committed().0.last_applied == node.apply_committed().0.last_applied,
    decreases node.commit_index - node.last_applied,
{
    if node.last_applied < node.commit_index {
        let next = (node.last_applied + 1) as LogIndex;
        if let Some(entry) = node.entry_at(next as int) {
            let (state, result) = MemoryStateMachine::applied(node.state, next, entry.command);
            if result is Ok {
                lemma_same_application(
                    NodeModel { state, last_applied: next, ..node },
                    NodeModel { state, last_applied: next, ..other },
                );
            }
        }
    }
}

/// A node whose state is what its log makes of its snapshot keeps pace.
pub proof fn law_consistent_node_keeps_pace(node: NodeModel<MemoryStateMachine>)
    requires
        node.is_consistent(),
    ensures
        node.keeps_pace(),
{
}

/// A leader that still leads after a message has the same term, the same log and the
/// same snapshot, and has applied what it has committed besides. Only a bare snapshot,
/// which comes without a term, can do more to a leader.
pub proof fn law_leader_keeps_its_log(
    node: NodeModel<MemoryStateMachine>,
    from: NodeId,
    rpc: RpcView,
    now_ms: u64,
)
    requires
        node.well_formed(),
        node.keeps_pace(),
        node.role == Role::Leader,
        rpc !is InstallSnapshot,
    ensures
        ({
            let after = node.handle(from, rpc, now_ms).0;
            after.role == Role::Leader ==> node.leads_on_as(after) && after.keeps_pace()
        }),
{
    let after = node.handle(from, rpc, now_ms).0;
    match rpc {
        RpcView::AppendEntries(request) => {
            node.lemma_append(request, now_ms);
        },
        RpcView::AppendEntriesReply(reply) => {
            node.lemma_append_reply(from, reply, now_ms);
        },
        RpcView::InstallSnapshotRequest(request) => {
            node.lemma_install_request(from, request, now_ms);
        },
        RpcView::InstallSnapshotChunk(chunk) => {
            node.lemma_chunk(from, chunk, now_ms);
        },
        _ => {
            node.lemma_others(from, rpc, now_ms);
            if after.role == Role::Leader {
                node.lemma_same_tenure(after);
            }
        },
    }
    if after.role == Role::Leader {
        node.lemma_leading_finds(after, 0, Seq::empty(), None);
    }
}

/// A leader that still leads when the clock has ticked has lost nothing either.
pub proof fn law_ticking_leader_keeps_its_log(
    node: NodeModel<MemoryStateMachine>,
    now_ms: u64,
)
    requires
        node.well_formed(),
        node.keeps_pace(),
        node.role == Role::Leader,
    ensures
        ({
            let after = node.tick(now_ms).0;
            after.role == Role::Leader ==> node.leads_on_as(after) && after.keeps_pace()
        }),
{
    let after = node.tick(now_ms).0;
    if after.role == Role::Leader {
        node.lemma_same_tenure(after);
        node.lemma_leading_finds(after, 0, Seq::empty(), None);
    }
}

/// The node has left `term`, or follows in it: it can lead in a later term only.
pub open spec fn is_out_of_office<S: StateMachine>(node: NodeModel<S>, term: Term) -> bool {
    ||| node.current_term > term
    ||| node.current_term == term && node.role == Role::Follower
}

/// No node leads twice in a term: once it no longer leads, it can lead again in later
/// terms only.
pub proof fn law_no_second_tenure_in_a_term<S: StateMachine>(
    node: NodeModel<S>,
    from: NodeId,
    rpc: RpcView,
    now_ms: u64,
    term: Term,
)
    requires
        node.well_formed(),
        is_out_of_office(node, term) || node.role == Role::Leader && node.current_term == term,
    ensures
        node.can_handle(from, rpc, now_ms) ==> {
            let after = node.handle(from, rpc, now_ms).0;
            &&& node.role == Role::Leader && after.role == Role::Leader ==> after.current_term
                == node.current_term
            &&& {
                ||| is_out_of_office(after, term)
                ||| node.role == Role::Leader && after.role == Role::Leader && after.current_term
                    == term && !is_out_of_office(node, term)
            }
        },
        node.can_tick(now_ms) ==> {
            let after = node.tick(now_ms).0;
            &&& node.role == Role::Leader && after.role == Role::Leader ==> after.current_term
                == node.current_term
            &&& {
                ||| is_out_of_office(after, term)
                ||| node.role == Role::Leader && after.role == Role::Leader && after.current_term
                    == term && !is_out_of_office(node, term)
            }
        },
{
    if node.can_handle(from, rpc, now_ms) {
        lemma_role_after(node, from, rpc, now_ms);
    }
}

/// Who does not lead comes to lead only as a candidate, in its term; who does not
/// stand comes to stand only in a later term.
pub proof fn lemma_role_after<S: StateMachine>(
    node: NodeModel<S>,
    from: NodeId,
    rpc: RpcView,
    now_ms: u64,
)
    requires
        node.well_formed(),
        node.can_handle(from, rpc, now_ms),
    ensures
        ({
            let after = node.handle(from, rpc, now_ms).0;
            &&& after.current_term >= node.current_term
            &&& after.role == Role::Leader && node.role == Role::Follower ==> after.current_term
                > node.current_term
            &&& after.role == Role::Leader && node.role == Role::Leader ==> after.current_term
                == node.current_term
            &&& after.role == Role::Candidate && node.role != Role::Candidate
                ==> after.current_term > node.current_term
        }),
{
    match rpc {
        RpcView::AppendEntries(request) => {
            let led = node.following(request.term, now_ms).led_by(request.leader_id, now_ms);
            lemma_apply_committed_frame(led.appended(request));
        },
        RpcView::AppendEntriesReply(reply) => {
            let acknowledged = node.contacted(from, now_ms).acknowledged(from, reply.match_index);
            let point = acknowledged.commit_point(acknowledged.last_index()) as LogIndex;
            lemma_apply_committed_frame(NodeModel { commit_index: point, ..acknowledged });
        },
        RpcView::InstallSnapshot(snapshot) => {
            assert(node.install_snapshot(snapshot).0.role == node.role);
            assert(node.install_snapshot(snapshot).0.current_term == node.current_term);
        },
        RpcView::InstallSnapshotRequest(request) => {
            let present = node.following(request.term, now_ms);
            assert(present.install_snapshot(request.snapshot).0.role == present.role);
            assert(present.install_snapshot(request.snapshot).0.current_term
                == present.current_term);
        },
        RpcView::InstallSnapshotChunk(chunk) => {
            let ready = node.receiving(chunk, now_ms);
            let finished = ready.finish_transfer(from, ready.arrived(chunk), now_ms).0;
            assert(finished.role == ready.role && finished.current_term == ready.current_term);
            assert(ready.storing(chunk).role == ready.role);
        },
        _ => {},
    }
}

/// A read that begins changes nothing that reads find. A write that begins will be
/// found, once committed, and a write of another key changes nothing either.
pub proof fn law_begun_write_will_be_found(
    node: NodeModel<MemoryStateMachine>,
    request: ClientRequestView,
    index: int,
    key: Seq<char>,
    value: Option<Seq<char>>,
)
    requires
        node.well_formed(),
        node.keeps_pace(),
        node.role == Role::Leader,
    ensures
        node.leads_on_as(node.start_read().0),
        node.last_index() + 1 < usize::MAX ==> node.start_write(request).0.keeps_pace(),
        node.last_index() + 1 < usize::MAX ==> match NodeModel::<
            MemoryStateMachine,
        >::command_of(request) {
            Some(command) => {
                let after = node.start_write(request).0;
                let written = node.last_index() + 1;
                &&& touches(command, key) && value_left(command) == value ==> after.will_find(
                    written,
                    key,
                    value,
                )
                &&& !touches(command, key) && node.will_find(index, key, value)
                    ==> after.will_find(index, key, value)
            },
            None => node.start_write(request).0 == node,
        },
{
    node.lemma_same_tenure(node.start_read().0);
    if node.last_index() + 1 < usize::MAX {
        if let Some(command) = NodeModel::<MemoryStateMachine>::command_of(request) {
            let after = node.start_write(request).0;
            let written = node.last_index() + 1;
            assert(after.last_index() == written);
            assert(after.log[written - after.first_index()].command == command);
            assert forall|i: int|
                node.first_index() <= i <= node.last_index() implies #[trigger] after.log[i
                - after.first_index()] == node.log[i - node.first_index()] by {}
        }
    }
}

/// Compaction changes nothing that reads find.
pub proof fn law_compaction_changes_no_read(
    node: NodeModel<MemoryStateMachine>,
    to: LogIndex,
    index: int,
    key: Seq<char>,
    value: Option<Seq<char>>,
)
    requires
        node.well_formed(),
        node.keeps_pace(),
        index <= node.commit_index,
        node.will_find(index, key, value),
    ensures
        ({
            let after = node.compact_to(to).0;
            &&& after.role == node.role
            &&& after.current_term == node.current_term
            &&& after.commit_index == node.commit_index
            &&& after.keeps_pace()
            &&& after.will_find(index, key, value)
        }),
{
    let (after, result) = node.compact_to(to);
    if result is Ok {
        let kept = node.entries_from(to + 1);
        assert(kept =~= node.log.skip(to + 1 - node.first_index()));
        assert(after.last_index() == node.last_index());
        assert forall|i: int|
            after.commit_index < i <= after.last_index() && index < i implies !touches(
            (#[trigger] after.log[i - after.first_index()]).command,
            key,
        ) by {
            assert(after.log[i - to] == kept[i - to - 1]);
            assert(node.log[i - node.first_index()] == kept[i - to - 1]);
        }
    }
}

} // verus!
