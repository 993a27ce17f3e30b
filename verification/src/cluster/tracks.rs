//! A ledger kept along the steps of a cluster.
use crate::cluster::laws::law_next_message_is_in_the_window;
use crate::cluster::ledger::Ledger;
use crate::cluster::model::ClusterModel;
use crate::cluster::tenure::law_step_keeps_every_pledge;
use crate::cluster::tenure::Pledge;
use crate::kv_map::lemma_finite_map_has_pairs;
use crate::node::laws::histories::lemma_compacted_full;
use crate::node::laws::histories::lemma_full_terms;
use crate::node::model::NodeModel;
use crate::node::replication::lemma_apply_committed_frame;
use crate::state_machine::MemoryStateMachine;
use crate::types::LogIndex;
use crate::types::MessageView;
use crate::types::NodeId;
use crate::types::Role;
use crate::types::RpcView;
use crate::types::Term;
use vstd::prelude::*;

verus! {

impl Ledger {
    /// `after` says of every term what this ledger says of it, and may say more.
    pub open spec fn extends_to(self, after: Self) -> bool {
        &&& after.size == self.size
        &&& after.taken == self.taken
        &&& after.mark == self.mark
        &&& after.watch == self.watch
        &&& forall|term: Term| #[trigger]
            self.has(term) ==> {
                let old_tenure = self.terms[term];
                let tenure = after.terms[term];
                &&& after.has(term)
                &&& old_tenure.log.len() <= tenure.log.len()
                &&& tenure.log.take(old_tenure.log.len() as int) == old_tenure.log
                &&& tenure.start == old_tenure.start
                &&& tenure.owner == old_tenure.owner
                &&& tenure.voters == old_tenure.voters
                &&& old_tenure.done <= tenure.done
            }
    }

    pub proof fn lemma_extends_itself(self)
        ensures
            self.extends_to(self),
    {
        assert forall|term: Term| #[trigger] self.has(term) implies self.log(term).take(
            self.log(term).len() as int,
        ) == self.log(term) by {
            assert(self.log(term).take(self.log(term).len() as int) =~= self.log(term));
        }
    }

    pub proof fn lemma_extends_further(self, middle: Self, after: Self)
        requires
            self.extends_to(middle),
            middle.extends_to(after),
        ensures
            self.extends_to(after),
    {
        assert forall|term: Term| #[trigger] self.has(term) implies {
            let old_tenure = self.terms[term];
            let tenure = after.terms[term];
            &&& after.has(term)
            &&& old_tenure.log.len() <= tenure.log.len()
            &&& tenure.log.take(old_tenure.log.len() as int) == old_tenure.log
            &&& tenure.start == old_tenure.start
            &&& tenure.owner == old_tenure.owner
            &&& tenure.voters == old_tenure.voters
            &&& old_tenure.done <= tenure.done
        } by {
            assert(middle.has(term));
            let length = self.log(term).len() as int;
            assert(after.log(term).take(length) =~= after.log(term).take(
                middle.log(term).len() as int,
            ).take(length));
        }
    }

    // ---- compaction ----

    /// A node compacts its log.
    pub proof fn lemma_compacted(
        self,
        nodes: Seq<NodeModel<MemoryStateMachine>>,
        queue: Seq<MessageView>,
        id: NodeId,
        index: LogIndex,
    )
        requires
            self.is_ready(nodes, queue, id),
            nodes[id as int].compact_to(index).1 matches Ok(snapshot) ==> self.taken.contains(
                snapshot,
            ),
        ensures
            self.advances(self, nodes, id, nodes[id as int].compact_to(index).0, Seq::empty()),
    {
        let node = nodes[id as int];
        let (next, result) = node.compact_to(index);
        let full = self.fulls[id];
        assert(self.node_holds(nodes, id as int));
        if result is Ok {
            let snapshot = result->Ok_0;
            lemma_compacted_full(node, full, index);
            lemma_full_terms(node, full);
            lemma_finite_map_has_pairs(node.state.data);
            assert(node.term_at(index as int) == Some(full[index - 1].term));
            assert(next.last_index() == full.len());
            assert(self.store_is_sound(next));
            if next.role == Role::Leader {
                assert(self.notes_are_sound(node));
                assert forall|peer: NodeId| 1 <= #[trigger] next.next_for(peer) <= self.log(
                    next.current_term,
                ).len() + 1 by {
                    assert(1 <= node.next_for(peer) <= self.log(node.current_term).len() + 1);
                }
                assert(self.notes_are_sound(next));
            }
            assert(self.office_is_sound(next));
            self.lemma_stays(nodes, queue, id, node);
            assert forall|term: Term| #[trigger] self.has(term) && self.terms[term].owner
                == id implies {
                &&& term <= next.current_term
                &&& term == next.current_term ==> self.fulls[id] == self.log(term) && next.role
                    != Role::Candidate
            } by {
                assert(self.term_holds(nodes, term));
            }
            assert(self.goes_along(self, nodes, id, next));
        } else {
            self.lemma_stays(nodes, queue, id, next);
        }
    }
}

impl ClusterModel {
    /// The ledger is in order with the cluster.
    pub open spec fn is_recorded(self, ledger: Ledger) -> bool {
        &&& ledger.is_sound(self.nodes, self.under_way())
        &&& forall|i: int|
            0 <= i < self.nodes.len() ==> (#[trigger] self.nodes[i]).next_read_id
                <= self.next_operation_id
    }

    /// A ledger that extends this one is in order with the cluster.
    pub open spec fn is_followed(self, ledger: Ledger) -> bool {
        exists|held: Ledger| ledger.extends_to(held) && #[trigger] self.is_recorded(held)
    }

    /// The ledger that has gone along.
    pub proof fn lemma_held(self, ledger: Ledger) -> (held: Ledger)
        requires
            self.is_followed(ledger),
        ensures
            ledger.extends_to(held),
            self.is_recorded(held),
    {
        choose|held: Ledger| ledger.extends_to(held) && #[trigger] self.is_recorded(held)
    }

    pub proof fn lemma_recorded_is_followed(self, ledger: Ledger)
        requires
            self.is_recorded(ledger),
        ensures
            self.is_followed(ledger),
    {
        ledger.lemma_extends_itself();
    }

    /// One node moves as the ledger says.
    pub proof fn lemma_moved(
        self,
        ledger: Ledger,
        later: Ledger,
        id: NodeId,
        next: NodeModel<MemoryStateMachine>,
        sent: Seq<MessageView>,
        after: Self,
    )
        requires
            self.well_formed(),
            self.has_node(id),
            self.is_recorded(ledger),
            ledger.advances(later, self.nodes, id, next, sent),
            next.next_read_id <= after.next_operation_id,
            self.next_operation_id <= after.next_operation_id,
            after.nodes == self.nodes.update(id as int, next),
            after.messages_come_from(self, sent),
        ensures
            after.is_recorded(later),
            ledger.extends_to(later),
            after.is_followed(ledger),
    {
        let queue = self.under_way();
        let later_queue = after.under_way();
        assert forall|k: int| 0 <= k < later_queue.len() implies queue.contains(
            #[trigger] later_queue[k],
        ) || sent.contains(later_queue[k]) by {
            assert(later_queue[k] == after.messages[k].message);
            if !sent.contains(after.messages[k].message) {
                let i = choose|i: int|
                    0 <= i < self.messages.len() && (#[trigger] self.messages[i]).message
                        == after.messages[k].message;
                assert(queue[i] == later_queue[k]);
            }
        }
        ledger.lemma_move(later, self.nodes, queue, id, next, sent, later_queue);
        assert forall|i: int| 0 <= i < after.nodes.len() implies (
        #[trigger] after.nodes[i]).next_read_id <= after.next_operation_id by {
            if i != id {
                assert(after.nodes[i] == self.nodes[i]);
            }
        }
        assert(ledger.extends_to(later));
    }

    /// The same nodes, and no new messages.
    pub proof fn lemma_nothing_moved(self, ledger: Ledger, after: Self)
        requires
            self.is_followed(ledger),
            after.nodes == self.nodes,
            self.next_operation_id <= after.next_operation_id,
            after.messages_come_from(self, Seq::empty()),
        ensures
            after.is_followed(ledger),
            self.is_recorded(ledger) ==> after.is_recorded(ledger),
    {
        assert forall|held: Ledger| #[trigger] self.is_recorded(held) implies after.is_recorded(
            held,
        ) by {
            let queue = self.under_way();
            let later_queue = after.under_way();
            assert forall|k: int| 0 <= k < later_queue.len() implies held.message_holds(
                after.nodes,
                #[trigger] later_queue[k],
            ) by {
                assert(later_queue[k] == after.messages[k].message);
                assert(!Seq::<MessageView>::empty().contains(after.messages[k].message));
                let i = choose|i: int|
                    0 <= i < self.messages.len() && (#[trigger] self.messages[i]).message
                        == after.messages[k].message;
                assert(queue[i] == later_queue[k]);
                assert(held.message_holds(self.nodes, queue[i]));
            }
            assert forall|i: int| 0 <= i < after.nodes.len() implies (
            #[trigger] after.nodes[i]).next_read_id <= after.next_operation_id by {
                assert(self.nodes[i].next_read_id <= self.next_operation_id);
            }
        }
        let held = self.lemma_held(ledger);
        assert(after.is_recorded(held));
    }

    pub proof fn lemma_ready(self, ledger: Ledger, id: NodeId)
        requires
            self.well_formed(),
            self.has_node(id),
            self.is_recorded(ledger),
        ensures
            ledger.is_ready(self.nodes, self.under_way(), id),
    {
        assert(self.is_at_home(id as int));
        assert forall|i: int| 0 <= i < self.nodes[id as int].peers.len() implies ledger.is_member(
            #[trigger] self.nodes[id as int].peers[i],
        ) by {
            assert(self.has_node(self.nodes[id as int].peers[i]));
        }
    }

    proof fn lemma_delivered_followed(self, position: int, ledger: Ledger)
        requires
            self.well_formed(),
            self.has_no_bare_snapshot(),
            0 <= position < self.messages.len(),
            self.arrives_vouched(position),
            self.is_followed(ledger),
        ensures
            self.deliver(position) matches Some(after) ==> after.is_followed(ledger),
    {
        let message = self.messages[position].message;
        let to = message.to;
        let removed = ClusterModel { messages: self.messages.remove(position), ..self };
        let node = self.nodes[to as int];
        assert(self.is_addressed(message));
        assert(self.is_at_home(to as int));
        assert(message.rpc !is InstallSnapshot);
        removed.lemma_shorter_queue(self, position);
        reveal(ClusterModel::deliver);
        if !self.is_connected(message.from, to) {
            self.lemma_nothing_moved(ledger, removed);
        } else if node.can_handle(message.from, message.rpc, self.now_ms) {
            let (next, replies) = node.handle(message.from, message.rpc, self.now_ms);
            let placed = removed.with_node(to, next);
            placed.lemma_same_queue(removed);
            placed.lemma_comes_from_more(removed, self, Seq::empty());
            placed.lemma_enqueued(replies);
            placed.lemma_enqueue_leaves_nodes(replies);
            if let Some(after) = placed.enqueue(replies) {
                placed.lemma_enqueue_leaves_count(replies);
                after.lemma_comes_from_more(placed, self, replies);
                let held = self.lemma_held(ledger);
                self.lemma_ready(held, to);
                assert(self.under_way()[position] == message);
                assert(held.message_holds(self.nodes, self.under_way()[position]));
                let later = held.lemma_handled(
                    self.nodes,
                    self.under_way(),
                    message,
                    self.now_ms,
                );
                lemma_read_ids_after_handling(node, message, self.now_ms);
                self.lemma_moved(held, later, to, next, replies, after);
                ledger.lemma_extends_further(held, later);
            }
        }
    }

    /// Sending takes no client's request.
    pub proof fn lemma_enqueue_leaves_count(self, messages: Seq<MessageView>)
        ensures
            self.enqueue(messages) matches Some(after) ==> after.next_operation_id
                == self.next_operation_id,
        decreases messages.len(),
    {
        if messages.len() > 0 {
            assert(self.enqueue_one(messages[0]) matches Some(after) ==> after.next_operation_id
                == self.next_operation_id) by {
                reveal(ClusterModel::enqueue_one);
            }
            if let Some(after) = self.enqueue_one(messages[0]) {
                after.lemma_enqueue_leaves_count(messages.skip(1));
            }
        }
    }

    proof fn lemma_ticked_followed(self, id: NodeId, ledger: Ledger)
        requires
            self.well_formed(),
            self.has_node(id),
            self.is_followed(ledger),
        ensures
            self.ticked(id) matches Some(after) ==> after.is_followed(ledger),
    {
        let node = self.nodes[id as int];
        assert(self.is_at_home(id as int));
        reveal(ClusterModel::ticked);
        if node.can_tick(self.now_ms) {
            let (next, messages) = node.tick(self.now_ms);
            let placed = self.with_node(id, next);
            placed.lemma_same_queue(self);
            placed.lemma_enqueued(messages);
            placed.lemma_enqueue_leaves_nodes(messages);
            if let Some(after) = placed.enqueue(messages) {
                placed.lemma_enqueue_leaves_count(messages);
                after.lemma_comes_from_more(placed, self, messages);
                let held = self.lemma_held(ledger);
                self.lemma_ready(held, id);
                held.lemma_ticked(self.nodes, self.under_way(), id, self.now_ms);
                assert(next.next_read_id == node.next_read_id);
                self.lemma_moved(held, held, id, next, messages, after);
            }
        }
    }

    proof fn lemma_all_ticked_followed(self, count: nat, ledger: Ledger)
        requires
            self.well_formed(),
            count <= self.nodes.len(),
            self.is_followed(ledger),
        ensures
            self.ticked_first(count) matches Some(after) ==> after.is_followed(ledger),
        decreases count,
    {
        if count > 0 {
            self.lemma_all_ticked_followed((count - 1) as nat, ledger);
            self.lemma_ticked_first_frame((count - 1) as nat);
            self.lemma_size();
            if let Some(after) = self.ticked_first((count - 1) as nat) {
                after.lemma_ticked_followed((count - 1) as NodeId, ledger);
            }
        }
    }

    /// A step goes along with the ledger.
    pub proof fn lemma_step_followed(self, ledger: Ledger)
        requires
            self.well_formed(),
            self.has_no_bare_snapshot(),
            self.step_is_vouched(),
            self.is_followed(ledger),
        ensures
            self.step() matches Some(after) ==> {
                &&& after.is_followed(ledger)
                &&& after.well_formed()
                &&& after.has_no_bare_snapshot()
                &&& after.nodes.len() == self.nodes.len()
            },
    {
        self.lemma_step_frame();
        law_step_keeps_every_pledge(
            self,
            Pledge { node: 0, term: 0, index: 0, key: Seq::empty(), value: None },
        );
        reveal(ClusterModel::step);
        reveal(ClusterModel::step_is_vouched);
        self.lemma_faults_applied();
        let quiet = self.faults_applied();
        self.lemma_faults_leave_the_rest();
        quiet.lemma_drawn_well_formed();
        law_next_message_is_in_the_window(quiet);
        let (present, position) = quiet.next_ready();
        present.lemma_same_queue(self);
        self.lemma_nothing_moved(ledger, present);
        match position {
            Some(at) => {
                present.lemma_delivered_followed(at, ledger);
            },
            None => {
                if present.now_ms < u64::MAX {
                    let later = ClusterModel { now_ms: (present.now_ms + 1) as u64, ..present };
                    present.lemma_same_nodes_well_formed(later);
                    later.lemma_faults_applied();
                    later.lemma_faults_leave_the_rest();
                    let ticking = later.faults_applied();
                    ticking.lemma_same_queue(present);
                    present.lemma_nothing_moved(ledger, ticking);
                    ticking.lemma_all_ticked_followed(self.nodes.len(), ledger);
                }
            },
        }
    }

    /// Faults stop and restart nodes, and do nothing else.
    pub proof fn lemma_faults_leave_the_rest(self)
        ensures
            ({
                let after = self.faults_applied();
                &&& after.nodes == self.nodes
                &&& after.messages == self.messages
                &&& after.next_operation_id == self.next_operation_id
            }),
        decreases self.fault_plan.lifecycle.len() - self.next_fault,
    {
        if self.next_fault < self.fault_plan.lifecycle.len()
            && self.fault_plan.lifecycle[self.next_fault as int].at_ms <= self.now_ms {
            self.one_fault_applied().lemma_faults_leave_the_rest();
        }
    }
}

/// Messages begin no reads.
proof fn lemma_read_ids_after_handling(
    node: NodeModel<MemoryStateMachine>,
    message: MessageView,
    now_ms: u64,
)
    requires
        node.can_handle(message.from, message.rpc, now_ms),
    ensures
        node.handle(message.from, message.rpc, now_ms).0.next_read_id == node.next_read_id,
{
    match message.rpc {
        RpcView::AppendEntries(request) => {
            let led = node.following(request.term, now_ms).led_by(request.leader_id, now_ms);
            lemma_apply_committed_frame(led.appended(request));
        },
        RpcView::AppendEntriesReply(reply) => {
            let noted = node.contacted(message.from, now_ms).acknowledged(
                message.from,
                reply.match_index,
            );
            lemma_apply_committed_frame(
                NodeModel {
                    commit_index: noted.commit_point(noted.last_index()) as LogIndex,
                    ..noted
                },
            );
        },
        RpcView::InstallSnapshotChunk(chunk) => {
            let ready = node.receiving(chunk, now_ms);
            let finished = ready.finish_transfer(message.from, ready.arrived(chunk), now_ms).0;
            assert(finished.next_read_id == ready.next_read_id);
            assert(ready.storing(chunk).next_read_id == ready.next_read_id);
        },
        RpcView::InstallSnapshotRequest(request) => {
            let present = node.following(request.term, now_ms);
            let installed = present.install_from(message.from, request.snapshot, now_ms).0;
            assert(installed.next_read_id == present.next_read_id);
        },
        RpcView::InstallSnapshot(snapshot) => {
            let installed = node.install_from(message.from, snapshot, now_ms).0;
            assert(installed.next_read_id == node.next_read_id);
        },
        _ => {},
    }
}

} // verus!
