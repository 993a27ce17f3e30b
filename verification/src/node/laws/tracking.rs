//! What a leader knows of its followers.
use crate::node::laws::batches::entries_are_past;
use crate::node::laws::batches::is_batch_within;
use crate::node::laws::tenure::law_begun_write_will_be_found;
use crate::node::laws::tenure::law_leader_keeps_its_log;
use crate::node::laws::tenure::law_ticking_leader_keeps_its_log;
use crate::node::model::larger;
use crate::node::model::NodeModel;
use crate::node::replication::lemma_apply_committed_frame;
use crate::node::replication::lemma_commit_point;
use crate::state_machine::MemoryStateMachine;
use crate::state_machine::StateMachine;
use crate::types::AppendEntriesReply;
use crate::types::ClientRequestView;
use crate::types::LogIndex;
use crate::types::NodeId;
use crate::types::Role;
use crate::types::RpcView;
use crate::types::TimeoutNow;
use vstd::prelude::*;

verus! {

/// The leader knows of no peer that it holds more than the leader has, sends nothing
/// past its log, has the snapshot that its log starts at, and has nothing but entries
/// of its own term from the start of the term on.
pub open spec fn keeps_track<S: StateMachine>(node: NodeModel<S>) -> bool {
    &&& node.match_index.dom().finite()
    &&& forall|peer: NodeId| #[trigger] node.matched_by(peer) <= node.last_index()
    &&& forall|peer: NodeId| 1 <= #[trigger] node.next_for(peer) <= node.last_index() + 1
    &&& node.log_base_index > 0 ==> {
        &&& node.snapshot is Some
        &&& node.snapshot->0.last_included_index == node.log_base_index
    }
    &&& 1 <= node.term_start_index <= node.last_index()
    &&& forall|i: int|
        node.term_start_index <= i && (#[trigger] node.term_at(i)) is Some ==> node.term_at(i)
            == Some(node.current_term)
}

/// What a message tells the leader of a follower is no more than the leader has.
pub open spec fn tells_no_more<S: StateMachine>(
    node: NodeModel<S>,
    from: NodeId,
    rpc: RpcView,
) -> bool {
    match rpc {
        RpcView::AppendEntriesReply(reply) => reply.term == node.current_term && reply.success
            ==> reply.match_index <= node.last_index(),
        RpcView::InstallSnapshotReply(reply) => node.hears_acceptance(reply)
            ==> reply.last_included_index <= node.log_base_index,
        _ => true,
    }
}

/// The message is the peer's acknowledgement, in the leader's term, of all up to `index`.
pub open spec fn acknowledges<S: StateMachine>(
    node: NodeModel<S>,
    rpc: RpcView,
    index: int,
) -> bool {
    rpc matches RpcView::AppendEntriesReply(reply) && reply.term == node.current_term
        && reply.success && reply.match_index >= index
}

/// What the leader sends of its log is no more than it has.
pub proof fn law_own_batch_is_within<S: StateMachine>(node: NodeModel<S>, peer: NodeId)
    requires
        node.well_formed(),
        keeps_track(node),
        node.log_base_index <= node.last_index(),
    ensures
        node.append_message(peer).rpc matches RpcView::AppendEntries(request)
            ==> is_batch_within(
            request,
            node.current_term,
            node.term_start_index as int,
            node.last_index(),
        ),
        node.append_message(peer).rpc matches RpcView::InstallSnapshotRequest(request)
            ==> request.snapshot.last_included_index == node.log_base_index,
{
    let next = node.next_for(peer);
    if node.snapshot_due(peer) is None {
        assert(next > node.log_base_index);
        let backlog = node.entries_from(next);
        let first = node.first_index();
        assert(backlog =~= node.log.skip(next - first));
        let request = node.append_message(peer).rpc->AppendEntries_0;
        assert(request.prev_log_index == next - 1);
        assert forall|i: int|
            0 <= i < request.entries.len() && request.prev_log_index + 1 + i
                >= node.term_start_index implies (#[trigger] request.entries[i]).term
            == node.current_term by {
            assert(request.entries[i] == node.log[next - first + i]);
            assert(node.term_at(next + i) == Some(node.log[next + i - first].term));
        }
        if next - 1 >= node.term_start_index {
            assert(node.term_at(next - 1) is Some);
        }
    }
}

/// What a leader sends holds nothing of a term that the leader has not reached.
pub proof fn law_batch_is_past<S: StateMachine>(node: NodeModel<S>, peer: NodeId)
    requires
        node.well_formed(),
        entries_are_past(node),
    ensures
        node.append_message(peer).rpc matches RpcView::AppendEntries(request) ==> forall|i: int|
            0 <= i < request.entries.len() ==> (#[trigger] request.entries[i]).term
                <= node.current_term,
{
    let next = node.next_for(peer);
    if let RpcView::AppendEntries(request) = node.append_message(peer).rpc {
        let backlog = node.entries_from(next);
        let first = node.first_index();
        let from = larger(next, 1);
        assert forall|i: int| 0 <= i < request.entries.len() implies (
        #[trigger] request.entries[i]).term <= node.current_term by {
            assert(request.entries[i] == backlog[i]);
            assert(backlog[i] == node.log[from - first + i]);
            assert(node.entry_at(from + i) == Some(node.log[from + i - first]));
        }
    }
}

impl NodeModel<MemoryStateMachine> {
    proof fn lemma_holders_grow(self, after: Self, index: int)
        requires
            self.match_index.dom().finite(),
            after.match_index.dom().finite(),
            self.match_index.dom().subset_of(after.match_index.dom()),
            forall|peer: NodeId| #[trigger] after.matched_by(peer) >= self.matched_by(peer),
        ensures
            self.holders(index).len() <= after.holders(index).len(),
    {
        assert forall|peer: NodeId| self.holders(index).contains(peer) implies after.holders(
            index,
        ).contains(peer) by {
            assert(after.matched_by(peer) >= self.matched_by(peer));
        }
        assert(self.holders(index).subset_of(after.holders(index)));
        vstd::set_lib::lemma_len_subset(self.holders(index), after.holders(index));
    }

    /// An acknowledgement commits only what a majority holds.
    proof fn lemma_commit_is_held(self, index: int)
        requires
            self.well_formed(),
            self.match_index.dom().finite(),
        ensures
            self.commit_advanced().commit_index >= index && self.commit_index < index
                ==> self.holders(index).len() >= self.majority(),
    {
        lemma_commit_point(self, self.last_index());
        let point = self.commit_point(self.last_index());
        lemma_apply_committed_frame(NodeModel { commit_index: point as LogIndex, ..self });
        if point >= index && self.commit_index < index {
            assert(self.committable(point));
            assert(self.holders(point).subset_of(self.holders(index)));
            vstd::set_lib::lemma_len_subset(self.holders(point), self.holders(index));
        }
    }

    proof fn lemma_append_reply_tracks(
        self,
        from: NodeId,
        reply: AppendEntriesReply,
        now_ms: u64,
        index: int,
    )
        requires
            self.well_formed(),
            self.keeps_pace(),
            self.role == Role::Leader,
            keeps_track(self),
            tells_no_more(self, from, RpcView::AppendEntriesReply(reply)),
            self.log_base_index < index,
        ensures
            ({
                let after = self.on_append_reply(from, reply, now_ms).0;
                after.role == Role::Leader && self.leads_on_as(after) ==> self.tracks_on(
                    after,
                    from,
                    RpcView::AppendEntriesReply(reply),
                    index,
                )
            }),
    {
        let after = self.on_append_reply(from, reply, now_ms).0;
        if reply.term <= self.current_term && self.hears_peer(from, reply.term) {
            if reply.success {
                let acknowledged = self.contacted(from, now_ms).acknowledged(
                    from,
                    reply.match_index,
                );
                let point = acknowledged.commit_point(acknowledged.last_index()) as LogIndex;
                lemma_apply_committed_frame(NodeModel { commit_index: point, ..acknowledged });
                assert(after.match_index == acknowledged.match_index);
                assert(after.next_index == acknowledged.next_index);
                acknowledged.lemma_commit_is_held(index);
                assert(acknowledged.holders(index) =~= after.holders(index));
                lemma_commit_point(acknowledged, acknowledged.last_index());
                assert(after.commit_index == acknowledged.commit_advanced().commit_index);
            } else {
                assert(after.match_index == self.match_index);
            }
        }
        if after.role == Role::Leader && self.leads_on_as(after) {
            assert forall|peer: NodeId| 1 <= #[trigger] after.next_for(peer) <= after.last_index()
                + 1 by {
                assert(1 <= self.next_for(peer) <= self.last_index() + 1);
                assert(self.matched_by(peer) <= self.last_index());
            }
            assert forall|peer: NodeId| #[trigger] after.matched_by(peer) <= after.last_index() by {
                assert(self.matched_by(peer) <= self.last_index());
            }
            assert forall|i: int|
                after.term_start_index <= i && (#[trigger] after.term_at(i)) is Some implies
                after.term_at(i) == Some(after.current_term) by {
                assert(self.term_at(i) is Some);
            }
            self.lemma_holders_grow(after, index);
        }
    }

    /// What becomes of what the leader knows: it still keeps track; whom it comes to
    /// credit with `index` has acknowledged it just now; and what it comes to commit up
    /// to there a majority is credited with.
    pub open spec fn tracks_on(self, after: Self, from: NodeId, rpc: RpcView, index: int) -> bool {
        &&& keeps_track(after)
        &&& forall|peer: NodeId| #[trigger]
            after.matched_by(peer) >= index ==> self.matched_by(peer) >= index || (peer == from
                && acknowledges(self, rpc, index))
        &&& self.holders(index).len() <= after.holders(index).len()
        &&& after.commit_index >= index && self.commit_index < index ==> after.holders(index).len()
            >= after.majority()
    }

    proof fn lemma_others_tracks(self, from: NodeId, rpc: RpcView, now_ms: u64, index: int)
        requires
            self.well_formed(),
            self.keeps_pace(),
            self.role == Role::Leader,
            keeps_track(self),
            tells_no_more(self, from, rpc),
            self.log_base_index < index,
            rpc is RequestVote || rpc is RequestVoteReply || rpc is PreVote || rpc is PreVoteReply
                || rpc is ReadIndex || rpc is ReadIndexReply || rpc is TimeoutNow,
        ensures
            ({
                let after = self.handle(from, rpc, now_ms).0;
                after.role == Role::Leader && self.leads_on_as(after) ==> self.tracks_on(
                    after,
                    from,
                    rpc,
                    index,
                )
            }),
    {
        let after = self.handle(from, rpc, now_ms).0;
        if after.role == Role::Leader && self.leads_on_as(after) {
            assert(after.match_index == self.match_index);
            assert(after.next_index == self.next_index);
            assert(after.commit_index == self.commit_index);
            self.lemma_same_track(after, from, rpc, index);
        }
    }

    proof fn lemma_same_track(self, after: Self, from: NodeId, rpc: RpcView, index: int)
        requires
            keeps_track(self),
            self.leads_on_as(after),
            after.match_index == self.match_index,
            after.next_index == self.next_index,
            after.commit_index == self.commit_index,
        ensures
            self.tracks_on(after, from, rpc, index),
    {
        assert forall|peer: NodeId| 1 <= #[trigger] after.next_for(peer) <= after.last_index()
            + 1 by {
            assert(1 <= self.next_for(peer) <= self.last_index() + 1);
        }
        assert forall|peer: NodeId| #[trigger] after.matched_by(peer) == self.matched_by(peer) by {}
        assert forall|peer: NodeId| #[trigger] after.matched_by(peer) <= after.last_index() by {
            assert(self.matched_by(peer) <= self.last_index());
        }
        assert forall|i: int|
            after.term_start_index <= i && (#[trigger] after.term_at(i)) is Some implies
            after.term_at(i) == Some(after.current_term) by {
            assert(self.term_at(i) is Some);
        }
        self.lemma_holders_grow(after, index);
    }

    proof fn lemma_snapshot_replies_tracks(
        self,
        from: NodeId,
        rpc: RpcView,
        now_ms: u64,
        index: int,
    )
        requires
            self.well_formed(),
            self.keeps_pace(),
            self.role == Role::Leader,
            keeps_track(self),
            tells_no_more(self, from, rpc),
            self.log_base_index < index,
            rpc is InstallSnapshotReply || rpc is InstallSnapshotChunkReply,
        ensures
            ({
                let after = self.handle(from, rpc, now_ms).0;
                after.role == Role::Leader && self.leads_on_as(after) ==> self.tracks_on(
                    after,
                    from,
                    rpc,
                    index,
                )
            }),
    {
        let after = self.handle(from, rpc, now_ms).0;
        if after.role == Role::Leader && self.leads_on_as(after) {
            assert(after.commit_index == self.commit_index);
            assert(self.matched_by(from) <= self.last_index());
            assert forall|peer: NodeId| 1 <= #[trigger] after.next_for(peer) <= after.last_index()
                + 1 by {
                assert(1 <= self.next_for(peer) <= self.last_index() + 1);
            }
            assert forall|peer: NodeId| #[trigger] after.matched_by(peer) <= after.last_index()
                && after.matched_by(peer) >= self.matched_by(peer) by {
                assert(self.matched_by(peer) <= self.last_index());
            }
            assert forall|i: int|
                after.term_start_index <= i && (#[trigger] after.term_at(i)) is Some implies
                after.term_at(i) == Some(after.current_term) by {
                assert(self.term_at(i) is Some);
            }
            self.lemma_holders_grow(after, index);
        }
    }
}

/// A leader that leads on after a message keeps track of its followers: it credits
/// nobody with more than it was told, and commits what a majority is credited with.
pub proof fn law_leader_keeps_track(
    node: NodeModel<MemoryStateMachine>,
    from: NodeId,
    rpc: RpcView,
    now_ms: u64,
    index: int,
)
    requires
        node.well_formed(),
        node.keeps_pace(),
        node.role == Role::Leader,
        rpc !is InstallSnapshot,
        keeps_track(node),
        tells_no_more(node, from, rpc),
        node.log_base_index < index,
    ensures
        ({
            let after = node.handle(from, rpc, now_ms).0;
            after.role == Role::Leader ==> node.tracks_on(after, from, rpc, index)
        }),
{
    let after = node.handle(from, rpc, now_ms).0;
    law_leader_keeps_its_log(node, from, rpc, now_ms);
    match rpc {
        RpcView::AppendEntriesReply(reply) => {
            node.lemma_append_reply_tracks(from, reply, now_ms, index);
        },
        RpcView::AppendEntries(request) => {
            let led = node.following(request.term, now_ms).led_by(request.leader_id, now_ms);
            lemma_apply_committed_frame(led.appended(request));
            if after.role == Role::Leader {
                assert(after == node);
                node.lemma_same_track(after, from, rpc, index);
            }
        },
        RpcView::InstallSnapshotRequest(request) => {
            let present = node.following(request.term, now_ms);
            assert(present.install_snapshot(request.snapshot).0.role == present.role);
            if after.role == Role::Leader {
                assert(after == node);
                node.lemma_same_track(after, from, rpc, index);
            }
        },
        RpcView::InstallSnapshotChunk(chunk) => {
            let ready = node.receiving(chunk, now_ms);
            let finished = ready.finish_transfer(from, ready.arrived(chunk), now_ms).0;
            assert(finished.role == ready.role);
            assert(ready.storing(chunk).role == ready.role);
            if after.role == Role::Leader {
                assert(after == node);
                node.lemma_same_track(after, from, rpc, index);
            }
        },
        RpcView::InstallSnapshotReply(_) => {
            node.lemma_snapshot_replies_tracks(from, rpc, now_ms, index);
        },
        RpcView::InstallSnapshotChunkReply(_) => {
            node.lemma_snapshot_replies_tracks(from, rpc, now_ms, index);
        },
        _ => {
            node.lemma_others_tracks(from, rpc, now_ms, index);
        },
    }
}

/// A leader that leads on after a tick, and one that begins a read, keeps track. One that
/// takes a write does so too: it credits itself with the new entry, and nobody else.
pub proof fn law_leader_keeps_track_by_itself(
    node: NodeModel<MemoryStateMachine>,
    request: ClientRequestView,
    now_ms: u64,
    index: int,
)
    requires
        node.well_formed(),
        node.keeps_pace(),
        node.role == Role::Leader,
        keeps_track(node),
    ensures
        ({
            let after = node.tick(now_ms).0;
            after.role == Role::Leader ==> node.leads_on_as(after) && node.tracks_on(
                after,
                node.id,
                RpcView::TimeoutNow(TimeoutNow { term: 0, leader_id: 0 }),
                index,
            )
        }),
        keeps_track(node.start_read().0),
        node.last_index() + 1 < usize::MAX ==> keeps_track(node.start_write(request).0),
        node.last_index() + 1 < usize::MAX && (request is Put || request is Delete) ==> forall|
            peer: NodeId,
        |
            #[trigger] node.start_write(request).0.matched_by(peer) > node.last_index() ==> peer
                == node.id,
{
    let any = RpcView::TimeoutNow(TimeoutNow { term: 0, leader_id: 0 });
    let ticked = node.tick(now_ms).0;
    law_ticking_leader_keeps_its_log(node, now_ms);
    if ticked.role == Role::Leader {
        node.lemma_same_track(ticked, node.id, any, index);
    }
    law_begun_write_will_be_found(node, request, 0, Seq::empty(), None);
    node.lemma_same_track(node.start_read().0, node.id, any, index);
    if node.last_index() + 1 < usize::MAX {
        let after = node.start_write(request).0;
        if request is Put || request is Delete {
            assert(after.last_index() == node.last_index() + 1);
            assert forall|peer: NodeId| #[trigger] after.matched_by(peer) <= after.last_index()
                && (after.matched_by(peer) > node.last_index() ==> peer == node.id) by {
                assert(node.matched_by(peer) <= node.last_index());
            }
            assert forall|peer: NodeId| 1 <= #[trigger] after.next_for(peer) <= after.last_index()
                + 1 by {
                assert(1 <= node.next_for(peer) <= node.last_index() + 1);
            }
            assert forall|i: int|
                after.term_start_index <= i && (#[trigger] after.term_at(i)) is Some implies
                after.term_at(i) == Some(after.current_term) by {
                if i <= node.last_index() {
                    assert(after.log[i - after.first_index()] == node.log[i - node.first_index()]);
                    assert(node.term_at(i) is Some);
                }
            }
        }
    }
}

/// A leader that compacts its log keeps track and keeps pace.
pub proof fn law_compacting_leader_keeps_track(
    node: NodeModel<MemoryStateMachine>,
    index: LogIndex,
)
    requires
        node.well_formed(),
        node.keeps_pace(),
        keeps_track(node),
    ensures
        ({
            let after = node.compact_to(index).0;
            &&& after.keeps_pace()
            &&& keeps_track(after)
            &&& after.role == node.role
            &&& after.id == node.id
            &&& after.peers == node.peers
            &&& after.current_term == node.current_term
            &&& after.term_start_index == node.term_start_index
            &&& after.last_index() == node.last_index()
            &&& after.log_base_index >= node.log_base_index
        }),
{
    let (after, result) = node.compact_to(index);
    if result is Ok {
        let kept = node.entries_from(index + 1);
        assert(kept =~= node.log.skip(index + 1 - node.first_index()));
        assert(after.last_index() == node.last_index());
        assert forall|peer: NodeId| #[trigger] after.matched_by(peer) == node.matched_by(peer) by {}
        assert forall|peer: NodeId| #[trigger] after.next_for(peer) == node.next_for(peer) by {}
        assert forall|i: int|
            after.term_start_index <= i && (#[trigger] after.term_at(i)) is Some implies
            after.term_at(i) == Some(after.current_term) by {
            assert(node.term_at(i) is Some);
            if i > index {
                assert(after.log[i - index] == kept[i - index - 1]);
            } else {
                assert(i == index);
                assert(after.log[0].term == node.term_or_zero(index as int));
            }
        }
    }
}

} // verus!
