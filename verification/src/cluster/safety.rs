//! Every event leaves the ledger in order.
use crate::cluster::campaigns::stays;
use crate::cluster::ledger::is_piece;
use crate::cluster::ledger::Ledger;
use crate::cluster::vouching::strays;
use crate::node::model::NodeModel;
use crate::state_machine::MemoryStateMachine;
use crate::types::MessageView;
use crate::types::NodeId;
use crate::types::PreVoteReply;
use crate::types::ReadIndex;
use crate::types::ReadIndexReply;
use crate::types::RequestVoteReply;
use crate::types::Role;
use crate::types::RpcView;
use crate::types::SnapshotView;
use crate::types::TimeoutNow;
use vstd::prelude::*;

verus! {

impl Ledger {
    proof fn lemma_vote_reply(
        self,
        nodes: Seq<NodeModel<MemoryStateMachine>>,
        queue: Seq<MessageView>,
        id: NodeId,
        from: NodeId,
        reply: RequestVoteReply,
        now_ms: u64,
    ) -> (after: Ledger)
        requires
            self.is_ready(nodes, queue, id),
            self.is_member(from),
            reply.vote_granted ==> id == from || self.claims(reply.term, from, id),
            nodes[id as int].can_handle(from, RpcView::RequestVoteReply(reply), now_ms),
        ensures
            ({
                let (next, sent) = nodes[id as int].on_request_vote_reply(from, reply, now_ms);
                self.advances(after, nodes, id, next, sent)
            }),
    {
        let node = nodes[id as int];
        let (next, sent) = node.on_request_vote_reply(from, reply, now_ms);
        assert(self.node_holds(nodes, id as int));
        if reply.term > node.current_term || !node.counts_vote(from, reply) {
            self.lemma_stays(nodes, queue, id, next);
            self
        } else if node.wins_vote(from, reply) {
            self.lemma_elected(nodes, queue, id, from, now_ms)
        } else {
            assert(self.office_is_sound(next));
            self.lemma_quiet(nodes, queue, id, next);
            self
        }
    }

    proof fn lemma_pre_vote_reply(
        self,
        nodes: Seq<NodeModel<MemoryStateMachine>>,
        queue: Seq<MessageView>,
        id: NodeId,
        from: NodeId,
        reply: PreVoteReply,
        now_ms: u64,
    )
        requires
            self.is_ready(nodes, queue, id),
            nodes[id as int].can_handle(from, RpcView::PreVoteReply(reply), now_ms),
        ensures
            ({
                let (next, sent) = nodes[id as int].on_pre_vote_reply(from, reply, now_ms);
                self.advances(self, nodes, id, next, sent)
            }),
    {
        let node = nodes[id as int];
        let (next, sent) = node.on_pre_vote_reply(from, reply, now_ms);
        if node.wins_pre_vote(from, reply) {
            let counted = NodeModel {
                pre_vote_granted: node.pre_vote_granted.insert(from),
                ..node
            };
            self.lemma_campaign(nodes, queue, id, counted, now_ms);
        } else {
            self.lemma_stays(nodes, queue, id, next);
        }
    }

    proof fn lemma_timeout(
        self,
        nodes: Seq<NodeModel<MemoryStateMachine>>,
        queue: Seq<MessageView>,
        id: NodeId,
        from: NodeId,
        request: TimeoutNow,
        now_ms: u64,
    )
        requires
            self.is_ready(nodes, queue, id),
            nodes[id as int].can_handle(from, RpcView::TimeoutNow(request), now_ms),
        ensures
            ({
                let (next, sent) = nodes[id as int].on_timeout_now(from, request, now_ms);
                self.advances(self, nodes, id, next, sent)
            }),
    {
        let node = nodes[id as int];
        let (next, sent) = node.on_timeout_now(from, request, now_ms);
        if node.heeds_timeout(from, request) {
            let ready = NodeModel { leader_id: None, ..node.following(request.term, now_ms) };
            self.lemma_campaign(nodes, queue, id, ready, now_ms);
        } else {
            self.lemma_stays(nodes, queue, id, next);
        }
    }

    proof fn lemma_read_asked(
        self,
        nodes: Seq<NodeModel<MemoryStateMachine>>,
        queue: Seq<MessageView>,
        id: NodeId,
        from: NodeId,
        request: ReadIndex,
        now_ms: u64,
    )
        requires
            self.is_ready(nodes, queue, id),
            self.is_member(from),
            request.request_id < nodes[from as int].next_read_id,
        ensures
            ({
                let (next, sent) = nodes[id as int].handle(
                    from,
                    RpcView::ReadIndex(request),
                    now_ms,
                );
                self.advances(self, nodes, id, next, sent)
            }),
    {
        let node = nodes[id as int];
        let (next, reply) = node.on_read_index(from, request, now_ms);
        let sent = node.handle(from, RpcView::ReadIndex(request), now_ms).1;
        assert(self.node_holds(nodes, id as int));
        assert(stays(node, next));
        self.lemma_stays(nodes, queue, id, next);
        assert(sent.len() == 1);
        assert(sent[0] == node.message(from, RpcView::ReadIndexReply(reply)));
        assert(self.message_holds(nodes.update(id as int, next), sent[0]));
    }

    proof fn lemma_read_confirmed(
        self,
        nodes: Seq<NodeModel<MemoryStateMachine>>,
        queue: Seq<MessageView>,
        id: NodeId,
        from: NodeId,
        reply: ReadIndexReply,
        now_ms: u64,
    )
        requires
            self.is_ready(nodes, queue, id),
            self.is_member(from),
            self.watch matches Some(watch) ==> !(id == watch.reader && reply.term == watch.term
                && reply.request_id == watch.id && watch.others.contains(from)),
        ensures
            ({
                let (next, sent) = nodes[id as int].on_read_reply(from, reply, now_ms);
                self.advances(self, nodes, id, next, sent)
            }),
    {
        let node = nodes[id as int];
        let (next, sent) = node.on_read_reply(from, reply, now_ms);
        assert(self.node_holds(nodes, id as int));
        if reply.term <= node.current_term && node.hears_peer(from, reply.term)
            && node.pending_reads.contains_key(reply.request_id)
            && node.pending_reads[reply.request_id].term == node.current_term {
            assert(self.notes_are_sound(node));
            assert forall|peer: NodeId| 1 <= #[trigger] next.next_for(peer) <= self.log(
                next.current_term,
            ).len() + 1 by {
                assert(node.next_for(peer) == next.next_for(peer));
            }
            assert(self.notes_are_sound(next));
            assert(self.office_is_sound(next)) by {
                if let Some(watch) = self.watch {
                    if id == watch.reader && next.pending_reads.contains_key(watch.id)
                        && next.pending_reads[watch.id].term == watch.term {
                        assert(self.is_unconfirmed(
                            next.pending_reads[watch.id].acknowledgements,
                            watch,
                        ));
                    }
                }
            }
            self.lemma_quiet(nodes, queue, id, next);
        } else {
            self.lemma_stays(nodes, queue, id, next);
        }
    }

    /// A message is handled.
    pub proof fn lemma_handled(
        self,
        nodes: Seq<NodeModel<MemoryStateMachine>>,
        queue: Seq<MessageView>,
        message: MessageView,
        now_ms: u64,
    ) -> (after: Ledger)
        requires
            self.is_ready(nodes, queue, message.to),
            self.message_holds(nodes, message),
            nodes[message.to as int].can_handle(message.from, message.rpc, now_ms),
            message.rpc matches RpcView::AppendEntries(request) ==> !strays(
                nodes,
                message.to,
                request,
            ),
        ensures
            ({
                let (next, sent) = nodes[message.to as int].handle(
                    message.from,
                    message.rpc,
                    now_ms,
                );
                self.advances(after, nodes, message.to, next, sent)
            }),
    {
        let id = message.to;
        let from = message.from;
        let node = nodes[id as int];
        let (next, sent) = node.handle(from, message.rpc, now_ms);
        assert(self.node_holds(nodes, id as int));
        match message.rpc {
            RpcView::RequestVote(request) => {
                self.lemma_vote(nodes, queue, id, from, request, now_ms)
            },
            RpcView::RequestVoteReply(reply) => {
                self.lemma_vote_reply(nodes, queue, id, from, reply, now_ms)
            },
            RpcView::AppendEntries(request) => {
                self.lemma_append(nodes, queue, id, from, request, now_ms)
            },
            RpcView::AppendEntriesReply(reply) => {
                self.lemma_append_reply(nodes, queue, id, from, reply, now_ms)
            },
            RpcView::InstallSnapshot(_) => self,
            RpcView::InstallSnapshotReply(reply) => {
                self.lemma_install_reply(nodes, queue, id, from, reply, now_ms);
                self
            },
            RpcView::PreVote(request) => {
                self.lemma_stays(nodes, queue, id, next);
                assert(sent.len() == 1);
                assert(sent[0].rpc is PreVoteReply);
                assert(self.message_holds(nodes.update(id as int, next), sent[0]));
                self
            },
            RpcView::PreVoteReply(reply) => {
                self.lemma_pre_vote_reply(nodes, queue, id, from, reply, now_ms);
                self
            },
            RpcView::InstallSnapshotRequest(request) => {
                self.lemma_install_request(nodes, queue, id, from, request, now_ms)
            },
            RpcView::ReadIndex(request) => {
                self.lemma_read_asked(nodes, queue, id, from, request, now_ms);
                self
            },
            RpcView::ReadIndexReply(reply) => {
                self.lemma_read_confirmed(nodes, queue, id, from, reply, now_ms);
                self
            },
            RpcView::TimeoutNow(request) => {
                self.lemma_timeout(nodes, queue, id, from, request, now_ms);
                self
            },
            RpcView::InstallSnapshotChunk(chunk) => {
                let snapshot = choose|snapshot: SnapshotView|
                    is_piece(chunk, snapshot) && #[trigger] self.backs(snapshot, chunk.term);
                let after = self.lemma_chunk(nodes, queue, id, from, chunk, snapshot, now_ms);
                assert(sent.len() == 1);
                assert(sent[0].rpc is InstallSnapshotChunkReply);
                assert(after.message_holds(nodes.update(id as int, next), sent[0]));
                after
            },
            RpcView::InstallSnapshotChunkReply(reply) => {
                self.lemma_chunk_reply(nodes, queue, id, from, reply, now_ms);
                self
            },
        }
    }

    /// The clock ticks.
    pub proof fn lemma_ticked(
        self,
        nodes: Seq<NodeModel<MemoryStateMachine>>,
        queue: Seq<MessageView>,
        id: NodeId,
        now_ms: u64,
    )
        requires
            self.is_ready(nodes, queue, id),
            nodes[id as int].can_tick(now_ms),
        ensures
            ({
                let (next, sent) = nodes[id as int].tick(now_ms);
                self.advances(self, nodes, id, next, sent)
            }),
    {
        let node = nodes[id as int];
        let (next, sent) = node.tick(now_ms);
        let later = nodes.update(id as int, next);
        assert(self.node_holds(nodes, id as int));
        self.lemma_shape(nodes, queue);
        if node.heartbeat_due(now_ms) {
            self.lemma_stays(nodes, queue, id, next);
            if node.has_quorum_contact(now_ms) {
                self.lemma_leader_sends_all(later, next);
            }
        } else if node.election_due(now_ms) {
            if node.role == Role::Candidate {
                self.lemma_campaign(nodes, queue, id, node, now_ms);
            } else {
                let probing = NodeModel {
                    pre_vote_term: Some(node.prospective_term()),
                    pre_vote_granted: Set::empty().insert(node.id),
                    ..node
                }.timer_reset(now_ms);
                if 1 >= node.majority() {
                    self.lemma_campaign(nodes, queue, id, probing, now_ms);
                } else {
                    self.lemma_stays(nodes, queue, id, next);
                    assert forall|k: int| 0 <= k < sent.len() implies self.message_holds(
                        later,
                        #[trigger] sent[k],
                    ) by {
                        assert(self.is_member(node.peers[k]));
                        assert(sent[k].rpc is PreVote);
                    }
                }
            }
        } else {
            self.lemma_stays(nodes, queue, id, next);
        }
    }

    /// A leader begins a read; nobody has confirmed it yet.
    pub proof fn lemma_read_begun(
        self,
        nodes: Seq<NodeModel<MemoryStateMachine>>,
        queue: Seq<MessageView>,
        id: NodeId,
    )
        requires
            self.is_ready(nodes, queue, id),
            self.watch is None,
            nodes[id as int].role == Role::Leader,
            nodes[id as int].next_read_id < u64::MAX,
        ensures
            ({
                let (next, result) = nodes[id as int].start_read();
                &&& result is Ok
                &&& self.advances(self, nodes, id, next, result->Ok_0.1)
            }),
    {
        let node = nodes[id as int];
        let (next, result) = node.start_read();
        let (read, sent) = result->Ok_0;
        let later = nodes.update(id as int, next);
        assert(self.node_holds(nodes, id as int));
        assert(self.notes_are_sound(node));
        assert forall|peer: NodeId| 1 <= #[trigger] next.next_for(peer) <= self.log(
            next.current_term,
        ).len() + 1 by {
            assert(node.next_for(peer) == next.next_for(peer));
        }
        assert(self.notes_are_sound(next));
        assert(self.office_is_sound(next));
        self.lemma_quiet(nodes, queue, id, next);
        assert forall|k: int| 0 <= k < sent.len() implies self.message_holds(
            later,
            #[trigger] sent[k],
        ) by {
            assert(self.is_member(node.peers[k]));
            assert(sent[k].rpc is ReadIndex);
        }
    }

    /// A read is forgotten.
    pub proof fn lemma_read_released(
        self,
        nodes: Seq<NodeModel<MemoryStateMachine>>,
        queue: Seq<MessageView>,
        id: NodeId,
        read: u64,
    )
        requires
            self.is_ready(nodes, queue, id),
        ensures
            ({
                let node = nodes[id as int];
                let next = NodeModel { pending_reads: node.pending_reads.remove(read), ..node };
                self.advances(self, nodes, id, next, Seq::empty())
            }),
    {
        let node = nodes[id as int];
        let next = NodeModel { pending_reads: node.pending_reads.remove(read), ..node };
        assert(self.node_holds(nodes, id as int));
        if node.role == Role::Leader {
            assert(self.notes_are_sound(node));
            assert forall|peer: NodeId| 1 <= #[trigger] next.next_for(peer) <= self.log(
                next.current_term,
            ).len() + 1 by {
                assert(node.next_for(peer) == next.next_for(peer));
            }
            assert(self.notes_are_sound(next));
        }
        assert(self.office_is_sound(next));
        self.lemma_quiet(nodes, queue, id, next);
    }
}

} // verus!
