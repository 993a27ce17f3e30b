//! A read sees what was acknowledged before it, over whole simulations.
use crate::cluster::calls::CallView;
use crate::cluster::growth::lemma_beginning;
use crate::cluster::journeys::no_pledge;
use crate::cluster::journeys::other_than;
use crate::cluster::laws::law_new_cluster_is_well_formed;
use crate::cluster::ledger::are_distinct;
use crate::cluster::ledger::Ledger;
use crate::cluster::ledger::Mark;
use crate::cluster::ledger::Watch;
use crate::cluster::model::ClusterModel;
use crate::cluster::model::PendingRequestView;
use crate::cluster::plan::FaultPlanView;
use crate::cluster::tenure::key_of;
use crate::cluster::tenure::law_new_cluster_has_no_bare_snapshot;
use crate::cluster::tenure::overwrites;
use crate::cluster::tenure::value_of;
use crate::cluster::tenure::Pledge;
use crate::cluster::CLIENT_TIMEOUT_MS;
use crate::node::laws::histories::contents;
use crate::node::laws::histories::lemma_full_terms;
use crate::node::laws::tenure::touches;
use crate::node::model::larger;
use crate::node::model::NodeModel;
use crate::node::PendingRead;
use crate::state_machine::MemoryStateMachine;
use crate::types::ClientRequestView;
use crate::types::CommandView;
use crate::types::LogEntryView;
use crate::types::MessageView;
use crate::types::NodeId;
use crate::types::Role;
use crate::types::RpcView;
use crate::types::SnapshotView;
use crate::types::Term;
use vstd::prelude::*;

verus! {

/// What the contents have at a key.
pub open spec fn at_key(map: Map<Seq<char>, Seq<char>>, key: Seq<char>) -> Option<Seq<char>> {
    if map.contains_key(key) {
        Some(map[key])
    } else {
        None
    }
}

/// Entries that do not write a key leave what an earlier one put there.
proof fn lemma_key_stays(log: Seq<LogEntryView>, key: Seq<char>, from: int, upto: int)
    requires
        0 <= from <= upto <= log.len(),
        forall|i: int| from <= i < upto ==> !touches((#[trigger] log[i]).command, key),
    ensures
        at_key(contents(log.take(upto)), key) == at_key(contents(log.take(from)), key),
    decreases upto - from,
{
    if from < upto {
        lemma_key_stays(log, key, from, upto - 1);
        let taken = log.take(upto);
        assert(taken.drop_last() =~= log.take(upto - 1));
        assert(taken.last() == log[upto - 1]);
        assert(!touches(log[upto - 1].command, key));
    }
}

impl Ledger {
    /// The ledger of a cluster that has seen nothing yet.
    pub open spec fn blank(size: nat, taken: Set<SnapshotView>) -> Ledger {
        Ledger {
            size,
            terms: Map::empty(),
            ballots: Map::empty(),
            acks: Map::empty(),
            fulls: Map::new(|id: NodeId| true, |id: NodeId| Seq::empty()),
            taken,
            mark: None,
            watch: None,
        }
    }

    /// A ledger that grows in nothing.
    proof fn lemma_relabelled_grows(self, after: Ledger)
        requires
            after == (Ledger { mark: after.mark, watch: after.watch, ..self }),
        ensures
            self.grows(after, self.size as NodeId),
            forall|term: Term, other: NodeId|
                self.acked(term, other) == #[trigger] after.acked(term, other),
    {
        assert forall|term: Term| #[trigger] self.has(term) implies after.log(term).take(
            self.log(term).len() as int,
        ) == self.log(term) by {
            assert(self.log(term).take(self.log(term).len() as int) =~= self.log(term));
        }
        assert forall|term: Term, other: NodeId|
            self.acked(term, other) == #[trigger] after.acked(term, other) by {}
    }

    /// A mark or a watch is set.
    proof fn lemma_relabelled(
        self,
        after: Ledger,
        nodes: Seq<NodeModel<MemoryStateMachine>>,
        queue: Seq<MessageView>,
    )
        requires
            self.is_sound(nodes, queue),
            self.size <= usize::MAX,
            after == (Ledger { mark: after.mark, watch: after.watch, ..self }),
            after.mark_is_there(),
            forall|term: Term| self.has(term) ==> #[trigger] after.leaves_key(term),
            after.watch == self.watch || after.watch is Some && {
                let watch = after.watch->0;
                &&& forall|i: int|
                    0 <= i < nodes.len() && watch.others.contains((#[trigger] nodes[i]).id)
                        ==> nodes[i].current_term > watch.term
                &&& nodes[watch.reader as int].pending_reads.contains_key(watch.id)
                    ==> self.is_unconfirmed(
                    nodes[watch.reader as int].pending_reads[watch.id].acknowledgements,
                    watch,
                )
                &&& forall|k: int|
                    0 <= k < queue.len() && (#[trigger] queue[k]).to == watch.reader ==> {
                        queue[k].rpc matches RpcView::ReadIndexReply(reply) ==> reply.request_id
                            != watch.id
                    }
            },
        ensures
            after.is_sound(nodes, queue),
    {
        let nobody = self.size as NodeId;
        self.lemma_shape(nodes, queue);
        self.lemma_relabelled_grows(after);
        assert forall|i: int| 0 <= i < nodes.len() implies #[trigger] after.node_holds(
            nodes,
            i,
        ) by {
            assert(self.node_holds(nodes, i));
            let node = nodes[i];
            self.lemma_store_stays(after, nobody, node);
            let unwatched = Ledger { watch: self.watch, ..after };
            self.lemma_relabelled_grows(unwatched);
            self.lemma_office_stays(unwatched, nobody, node);
            if node.role == Role::Candidate {
                assert forall|voter: NodeId| #[trigger] node.granted_voters.contains(voter) implies
                    after.is_member(voter) && (voter == node.id || after.claims(
                    node.current_term,
                    voter,
                    node.id,
                )) by {
                    if voter != node.id {
                        self.lemma_claims_grow(after, nobody, node.current_term, voter, node.id);
                    }
                }
            }
            if node.role == Role::Leader {
                assert(unwatched.notes_are_sound(node));
                assert forall|peer: NodeId| #[trigger] node.match_index.contains_key(peer) implies {
                    &&& after.is_member(peer)
                    &&& node.match_index[peer] <= larger(
                        after.acked(node.current_term, peer),
                        node.log_base_index as int,
                    )
                } by {
                    assert(self.acked(node.current_term, peer) == after.acked(
                        node.current_term,
                        peer,
                    ));
                    assert(self.notes_are_sound(node));
                }
                assert(after.notes_are_sound(node));
            }
            assert(after.office_is_sound(node));
        }
        assert forall|term: Term| after.has(term) implies #[trigger] after.term_holds(
            nodes,
            term,
        ) by {
            assert(self.has(term));
            assert(self.term_holds(nodes, term));
            let unmarked = Ledger { mark: self.mark, ..after };
            self.lemma_relabelled_grows(unmarked);
            self.lemma_term_stays(unmarked, nobody, term);
            self.lemma_coherent_grows(after, nobody, self.log(term));
            let tenure = self.terms[term];
            if tenure.done > 0 {
                assert forall|other: NodeId| #[trigger] tenure.storers.contains(other) implies
                    after.acked(term, other) >= tenure.done by {
                    assert(self.acked(term, other) == after.acked(term, other));
                }
            }
            assert(after.leaves_key(term));
        }
        assert forall|term: Term, voter: NodeId|
            after.ballots.contains_key((term, voter)) implies #[trigger] after.ballot_holds(
            nodes,
            term,
            voter,
        ) by {
            assert(self.ballot_holds(nodes, term, voter));
            self.lemma_ballot_stays(after, nobody, term, voter);
        }
        assert forall|term: Term, id: NodeId|
            after.acks.contains_key((term, id)) implies #[trigger] after.ack_is_sound(
            nodes,
            term,
            id,
        ) by {
            assert(self.ack_is_sound(nodes, term, id));
        }
        assert forall|term: Term| #[trigger] self.has(term) implies self.terms[term].owner
            < nodes.len() by {
            assert(self.term_holds(nodes, term));
        }
        assert forall|k: int| 0 <= k < queue.len() implies after.message_holds(
            nodes,
            #[trigger] queue[k],
        ) by {
            let message = queue[k];
            assert(self.message_holds(nodes, queue[k]));
            if message.rpc !is ReadIndexReply || after.watch == self.watch {
                assert(self.node_holds(nodes, 0));
                assert(nodes =~= nodes.update(0, nodes[0]));
                self.lemma_relabelled_at(after, 0);
                self.lemma_message_stays(after, nodes, nodes, 0, message);
            }
        }
    }

    proof fn lemma_relabelled_at(self, after: Ledger, id: NodeId)
        requires
            after == (Ledger { mark: after.mark, watch: after.watch, ..self }),
        ensures
            self.grows(after, id),
    {
        assert forall|term: Term| #[trigger] self.has(term) implies after.log(term).take(
            self.log(term).len() as int,
        ) == self.log(term) by {
            assert(self.log(term).take(self.log(term).len() as int) =~= self.log(term));
        }
        assert forall|term: Term, other: NodeId|
            self.acked(term, other) == #[trigger] after.acked(term, other) by {}
    }

    /// The marked entry holds the command, and some leader has committed it.
    pub open spec fn is_settled_by(self, term: Term) -> bool {
        self.mark matches Some(mark) && {
            &&& self.has(mark.term)
            &&& 1 <= mark.index <= self.log(mark.term).len()
            &&& self.is_covered_by(self.log(mark.term), mark.index, term)
        }
    }

    pub open spec fn is_settled(self, command: CommandView) -> bool {
        &&& self.mark matches Some(mark) && self.log(mark.term)[mark.index - 1].command == command
        &&& exists|term: Term| #[trigger] self.is_settled_by(term)
    }

    /// What is settled stays settled.
    proof fn lemma_settled_stays(
        self,
        after: Ledger,
        nodes: Seq<NodeModel<MemoryStateMachine>>,
        queue: Seq<MessageView>,
        command: CommandView,
    )
        requires
            self.is_sound(nodes, queue),
            self.extends_to(after),
            self.is_settled(command),
        ensures
            after.is_settled(command),
    {
        let mark = self.mark->0;
        let term = choose|term: Term| #[trigger] self.is_settled_by(term);
        assert(self.term_holds(nodes, term));
        assert(self.has(mark.term));
        assert(self.has(term));
        let k = mark.index;
        let first = self.log(mark.term);
        let second = self.log(term);
        assert(first.take(first.len() as int) =~= first);
        assert(second.take(second.len() as int) =~= second);
        lemma_beginning(after.log(mark.term), first, first.len() as int, k);
        lemma_beginning(after.log(term), second, second.len() as int, k);
        assert(after.log(mark.term).take(k)[k - 1] == first.take(k)[k - 1]);
        assert(after.is_settled_by(term));
    }
}

impl ClusterModel {
    /// A new cluster has a blank ledger.
    pub proof fn lemma_new_is_recorded(
        size: nat,
        fault_plan: FaultPlanView,
        taken: Set<SnapshotView>,
    )
        requires
            size <= usize::MAX,
            are_distinct(taken),
        ensures
            ({
                let cluster = ClusterModel::initial(size, fault_plan);
                &&& cluster.well_formed()
                &&& cluster.has_no_bare_snapshot()
                &&& cluster.is_recorded(Ledger::blank(size, taken))
            }),
    {
        let cluster = ClusterModel::initial(size, fault_plan);
        let ledger = Ledger::blank(size, taken);
        law_new_cluster_is_well_formed(size, fault_plan);
        law_new_cluster_has_no_bare_snapshot(size, fault_plan);
        assert forall|i: int| 0 <= i < cluster.nodes.len() implies #[trigger] ledger.node_holds(
            cluster.nodes,
            i,
        ) by {
            let node = cluster.nodes[i];
            let full = ledger.fulls[node.id];
            assert(full =~= Seq::<LogEntryView>::empty());
            assert(full.take(0) =~= Seq::<LogEntryView>::empty());
            assert(node.shows(full));
            assert(ledger.store_is_sound(node));
            assert(ledger.office_is_sound(node));
        }
        assert(cluster.under_way().len() == 0);
    }
}

impl ClusterModel {
    /// The entry that a leader has just taken is marked.
    proof fn lemma_marked(
        self,
        begun: Self,
        held: Ledger,
        leader: NodeId,
        command: CommandView,
        key: Seq<char>,
    ) -> (marked: Ledger)
        requires
            self.is_recorded(held),
            held.size <= usize::MAX,
            held.mark is None,
            self.has_node(leader),
            self.nodes[leader as int].role == Role::Leader,
            ({
                let term = self.nodes[leader as int].current_term;
                begun.is_recorded(held.append(leader, term, LogEntryView { term, command }))
            }),
        ensures
            begun.is_recorded(marked),
            marked.size == held.size,
            marked.taken == held.taken,
            marked.watch == held.watch,
            ({
                let term = self.nodes[leader as int].current_term;
                let index: int = held.fulls[leader].len() + 1int;
                &&& marked.mark == Some(Mark { term, index, key })
                &&& marked.has(term)
                &&& index == marked.log(term).len()
                &&& marked.log(term)[index - 1] == LogEntryView { term, command }
            }),
    {
        let term = self.nodes[leader as int].current_term;
        let entry = LogEntryView { term, command };
        let later = held.append(leader, term, entry);
        let index: int = held.fulls[leader].len() + 1int;
        let marked = Ledger { mark: Some(Mark { term, index, key }), ..later };
        assert(held.node_holds(self.nodes, leader as int));
        assert(held.notes_are_sound(self.nodes[leader as int]));
        assert forall|t: Term| later.has(t) implies #[trigger] marked.leaves_key(t) by {
            if t != term && marked.holds(marked.log(t), term, index) {
                assert(held.has(t));
                assert(held.term_holds(self.nodes, t));
                let log = held.log(t);
                assert(log.take(index)[index - 1] == marked.log(term).take(index)[index - 1]);
                assert(held.agrees(log, index));
                assert(false);
            }
        }
        later.lemma_relabelled(marked, begun.nodes, begun.under_way());
        marked
    }

    /// A write that is acknowledged is settled.
    proof fn lemma_write_settles(
        self,
        client_id: u64,
        leader: NodeId,
        request: ClientRequestView,
        fuel: nat,
        ledger: Ledger,
    ) -> (settled: Ledger)
        requires
            self.well_formed(),
            self.has_no_bare_snapshot(),
            self.is_followed(ledger),
            ledger.size <= usize::MAX,
            ledger.mark is None,
            ledger.watch is None,
            request is Put || request is Delete,
            self.proposes_vouched(leader, request, fuel),
            self.propose_as(client_id, leader, request, fuel) matches Some((after, reply))
                && reply.success,
        ensures
            ({
                let (after, _) = self.propose_as(client_id, leader, request, fuel)->0;
                &&& after.is_recorded(settled)
                &&& after.well_formed()
                &&& after.has_no_bare_snapshot()
                &&& settled.size == ledger.size
                &&& settled.taken == ledger.taken
                &&& settled.watch is None
                &&& settled.mark is Some
                &&& settled.mark->0.key == key_of(request)
                &&& settled.is_settled(
                    NodeModel::<MemoryStateMachine>::command_of(request)->0,
                )
            }),
    {
        let (after, reply) = self.propose_as(client_id, leader, request, fuel)->0;
        let command = NodeModel::<MemoryStateMachine>::command_of(request)->0;
        let key = key_of(request);
        let numbered = self.numbered();
        self.lemma_same_nodes_well_formed(numbered);
        let node = self.nodes[leader as int];
        assert(self.is_at_home(leader as int));
        let (begun, result) = numbered.begin(leader, request)->0;
        let pending = result->Ok_0;
        let deadline = (begun.now_ms + CLIENT_TIMEOUT_MS) as u64;
        let (settled, _) = begun.settle(leader, pending, deadline, fuel)->0;
        assert(node.role == Role::Leader);
        let term = node.current_term;
        let next = node.proposed(command);
        let sent = next.append_messages();
        self.lemma_placed(leader, next, sent);
        numbered.lemma_begin_frame(leader, request);
        numbered.lemma_begun_tenure(
            leader,
            request,
            Pledge { node: other_than(leader), ..no_pledge() },
        );
        begun.lemma_settle_frame(leader, pending, deadline, fuel);
        assert(after.nodes == settled.nodes);
        let held = self.lemma_held(ledger);
        self.lemma_ready(held, leader);
        let later = held.lemma_write(self.nodes, self.under_way(), leader, command);
        assert(node.next_read_id <= self.next_operation_id);
        self.lemma_moved(held, later, leader, next, sent, begun);
        let marked = self.lemma_marked(begun, held, leader, command, key);
        begun.lemma_recorded_is_followed(marked);
        begun.lemma_settled_followed(leader, pending, deadline, fuel, marked);
        let final_ledger = settled.lemma_held(marked);
        assert(held.node_holds(self.nodes, leader as int));
        assert(held.notes_are_sound(node));
        settled.lemma_acknowledged_is_settled(
            leader,
            marked,
            final_ledger,
            begun,
            command,
        );
        settled.lemma_recorded_is_followed(final_ledger);
        after.lemma_same_queue(settled);
        settled.lemma_nothing_moved(final_ledger, after);
        settled.lemma_same_nodes_well_formed(after);
        final_ledger
    }

    /// The leader has the marked entry committed.
    proof fn lemma_acknowledged_is_settled(
        self,
        leader: NodeId,
        marked: Ledger,
        held: Ledger,
        begun: Self,
        command: CommandView,
    )
        requires
            self.has_node(leader),
            begun.is_recorded(marked),
            marked.extends_to(held),
            self.is_recorded(held),
            marked.mark matches Some(mark) && {
                &&& marked.has(mark.term)
                &&& 1 <= mark.index == marked.log(mark.term).len()
                &&& marked.log(mark.term)[mark.index - 1].command == command
                &&& self.nodes[leader as int].term_at(mark.index) == Some(mark.term)
                &&& self.nodes[leader as int].commit_index >= mark.index
            },
        ensures
            held.is_settled(command),
    {
        let mark = marked.mark->0;
        let index = mark.index;
        let node = self.nodes[leader as int];
        let full = held.fulls[leader];
        assert(held.node_holds(self.nodes, leader as int));
        lemma_full_terms(node, full);
        assert(index <= full.len());
        assert(node.log_base_index <= index);
        assert(node.term_at(index) == Some(full[index - 1].term));
        assert(held.agrees(full, index));
        assert(held.has(mark.term));
        assert(marked.has(mark.term));
        assert(held.log(mark.term).take(index)[index - 1] == marked.log(mark.term)[index - 1]);
        let count = node.commit_index as int;
        let term = choose|term: Term|
            term <= node.current_term && #[trigger] held.is_covered_by(full, count, term);
        assert(held.is_covered_by(full, count, term));
        assert(held.term_holds(self.nodes, term));
        lemma_beginning(full, held.log(term), count, index);
        assert(held.is_settled_by(term));
    }

    // ---- reads ----

    /// A leader of a term before that of a later leader's election gets no majority to
    /// confirm a read.
    proof fn lemma_stale_read_is_not_ready(
        self,
        begun: Self,
        held: Ledger,
        leader: NodeId,
        read: PendingRead,
        key: Seq<char>,
        term: Term,
        deadline: u64,
        fuel: nat,
    )
        requires
            self.well_formed(),
            self.has_no_bare_snapshot(),
            self.is_recorded(held),
            held.size <= usize::MAX,
            held.watch is None,
            self.has_node(leader),
            self.nodes[leader as int].role == Role::Leader,
            self.nodes[leader as int].next_read_id < u64::MAX,
            read.term == self.nodes[leader as int].current_term,
            read.id == self.nodes[leader as int].next_read_id,
            held.has(term),
            read.term < term,
            begun.well_formed(),
            begun.has_no_bare_snapshot(),
            begun.is_recorded(held),
            begun.nodes == self.nodes.update(
                leader as int,
                self.nodes[leader as int].start_read().0,
            ),
            begun.messages_come_from(
                self,
                self.nodes[leader as int].start_read().1->Ok_0.1,
            ),
            begun.settles_vouched(
                leader,
                PendingRequestView::Read(read, key),
                deadline,
                fuel,
            ),
            begun.settle(leader, PendingRequestView::Read(read, key), deadline, fuel) is Some,
        ensures
            ({
                let pending = PendingRequestView::Read(read, key);
                let (settled, _) = begun.settle(leader, pending, deadline, fuel)->0;
                !settled.nodes[leader as int].read_ready(read)
            }),
    {
        let pending = PendingRequestView::Read(read, key);
        let (settled, _) = begun.settle(leader, pending, deadline, fuel)->0;
        let others = held.terms[term].voters;
        let watch = Watch { reader: leader, id: read.id, term: read.term, others };
        let watching = Ledger { watch: Some(watch), ..held };
        let node = self.nodes[leader as int];
        let next = node.start_read().0;
        let sent = node.start_read().1->Ok_0.1;
        let queue = begun.under_way();
        assert(held.term_holds(begun.nodes, term));
        assert(held.node_holds(self.nodes, leader as int));
        assert(held.node_holds(begun.nodes, leader as int));
        assert forall|i: int|
            0 <= i < begun.nodes.len() && others.contains((#[trigger] begun.nodes[i]).id) implies
            begun.nodes[i].current_term > watch.term by {
            assert(held.node_holds(begun.nodes, i));
            assert(held.ballots.contains_key((term, i as NodeId)));
            assert(held.ballot_holds(begun.nodes, term, i as NodeId));
        }
        assert(next.pending_reads[read.id].acknowledgements =~= Set::empty().insert(leader));
        assert(begun.nodes[leader as int] == next);
        assert(!others.contains(leader)) by {
            if others.contains(begun.nodes[leader as int].id) {
                assert(begun.nodes[leader as int].current_term > watch.term);
            }
        }
        assert forall|k: int| 0 <= k < queue.len() && (#[trigger] queue[k]).to == leader implies {
            queue[k].rpc matches RpcView::ReadIndexReply(reply) ==> reply.request_id != read.id
        } by {
            let message = begun.messages[k].message;
            assert(queue[k] == message);
            if message.rpc is ReadIndexReply {
                if sent.contains(message) {
                    let j = choose|j: int| 0 <= j < sent.len() && sent[j] == message;
                    assert(sent[j].rpc is ReadIndex);
                } else {
                    let i = choose|i: int|
                        0 <= i < self.messages.len() && (#[trigger] self.messages[i]).message
                            == message;
                    assert(self.under_way()[i] == message);
                    assert(held.message_holds(self.nodes, self.under_way()[i]));
                }
            }
        }
        assert(held.is_unconfirmed(next.pending_reads[read.id].acknowledgements, watch));
        assert forall|t: Term| held.has(t) implies #[trigger] watching.leaves_key(t) by {
            assert(held.term_holds(begun.nodes, t));
        }
        held.lemma_relabelled(watching, begun.nodes, queue);
        begun.lemma_recorded_is_followed(watching);
        begun.lemma_settled_followed(leader, pending, deadline, fuel, watching);
        let last = settled.lemma_held(watching);
        let reader = settled.nodes[leader as int];
        assert(last.node_holds(settled.nodes, leader as int));
        if reader.read_ready(read) {
            let acknowledgements = reader.pending_reads[read.id].acknowledgements;
            assert(last.is_unconfirmed(acknowledgements, watch));
            assert(last.is_majority(acknowledgements));
            assert(watching.has(term));
            assert(last.term_holds(settled.nodes, term));
            last.lemma_size(settled.nodes, settled.under_way());
            let member = last.lemma_majorities_meet(acknowledgements, others);
            assert(false);
        }
    }

    /// A leader of a term not before the one that committed the marked entry has it, up
    /// to the barrier of a read that it begins.
    proof fn lemma_barrier_covers_the_mark(
        self,
        held: Ledger,
        leader: NodeId,
        term: Term,
    )
        requires
            self.is_recorded(held),
            self.has_node(leader),
            self.nodes[leader as int].role == Role::Leader,
            held.is_settled_by(term),
            term <= self.nodes[leader as int].current_term,
        ensures
            held.mark->0.index <= self.nodes[leader as int].read_barrier(),
            held.holds(
                held.log(self.nodes[leader as int].current_term),
                held.mark->0.term,
                held.mark->0.index,
            ),
    {
        let mark = held.mark->0;
        let node = self.nodes[leader as int];
        let own = node.current_term;
        assert(held.node_holds(self.nodes, leader as int));
        assert(held.notes_are_sound(node));
        assert(held.term_holds(self.nodes, own));
        assert(held.term_holds(self.nodes, term));
        if term < own {
            held.lemma_committed_stays(self.nodes, self.under_way(), term, own);
            lemma_beginning(held.log(own), held.log(term), held.terms[term].done, mark.index);
        }
    }

    /// A read that is served sees the settled entry.
    proof fn lemma_read_sees(
        self,
        client_id: u64,
        leader: NodeId,
        key: Seq<char>,
        fuel: nat,
        held: Ledger,
        request: ClientRequestView,
    )
        requires
            self.well_formed(),
            self.has_no_bare_snapshot(),
            self.is_recorded(held),
            held.size <= usize::MAX,
            held.watch is None,
            held.mark is Some,
            held.mark->0.key == key,
            request is Put || request is Delete,
            key_of(request) == key,
            held.is_settled(NodeModel::<MemoryStateMachine>::command_of(request)->0),
            self.proposes_vouched(leader, (ClientRequestView::Get { key }), fuel),
            self.propose_as(
                client_id,
                leader,
                (ClientRequestView::Get { key }),
                fuel,
            ) matches Some((after, reply)) && reply.success,
        ensures
            ({
                let get = ClientRequestView::Get { key };
                let (_, reply) = self.propose_as(client_id, leader, get, fuel)->0;
                reply.response == value_of(request)
            }),
    {
        let get = ClientRequestView::Get { key };
        let command = NodeModel::<MemoryStateMachine>::command_of(request)->0;
        let (after, reply) = self.propose_as(client_id, leader, get, fuel)->0;
        let numbered = self.numbered();
        self.lemma_same_nodes_well_formed(numbered);
        let node = self.nodes[leader as int];
        assert(self.is_at_home(leader as int));
        let (begun, result) = numbered.begin(leader, get)->0;
        let pending = result->Ok_0;
        let deadline = (begun.now_ms + CLIENT_TIMEOUT_MS) as u64;
        let (settled, _) = begun.settle(leader, pending, deadline, fuel)->0;
        assert(node.role == Role::Leader);
        let (next, started) = node.start_read();
        let (read, sent) = started->Ok_0;
        assert(pending == PendingRequestView::Read(read, key));
        self.lemma_placed(leader, next, sent);
        numbered.lemma_begin_frame(leader, get);
        numbered.lemma_begun_tenure(
            leader,
            get,
            Pledge { node: other_than(leader), ..no_pledge() },
        );
        begun.lemma_settle_frame(leader, pending, deadline, fuel);
        self.lemma_ready(held, leader);
        assert(node.next_read_id <= self.next_operation_id);
        held.lemma_read_begun(self.nodes, self.under_way(), leader);
        self.lemma_moved(held, held, leader, next, sent, begun);
        begun.lemma_recorded_is_followed(held);
        begun.lemma_settled_followed(leader, pending, deadline, fuel, held);
        assert(settled.outcome(leader, pending) == Some(reply));
        let reader = settled.nodes[leader as int];
        assert(reader.read_ready(read));
        let term = choose|term: Term| #[trigger] held.is_settled_by(term);
        if term > node.current_term {
            self.lemma_stale_read_is_not_ready(
                begun,
                held,
                leader,
                read,
                key,
                term,
                deadline,
                fuel,
            );
        }
        self.lemma_barrier_covers_the_mark(held, leader, term);
        let last = settled.lemma_held(held);
        settled.lemma_state_shows_the_mark(held, last, self, leader, request);
    }

    /// A leader's state has at the marked key what the marked entry put there.
    proof fn lemma_state_shows_the_mark(
        self,
        held: Ledger,
        last: Ledger,
        before: Self,
        leader: NodeId,
        request: ClientRequestView,
    )
        requires
            self.is_recorded(last),
            before.is_recorded(held),
            held.extends_to(last),
            self.has_node(leader),
            before.has_node(leader),
            self.nodes[leader as int].role == Role::Leader,
            held.mark is Some,
            held.mark->0.key == key_of(request),
            request is Put || request is Delete,
            held.is_settled(NodeModel::<MemoryStateMachine>::command_of(request)->0),
            held.has(self.nodes[leader as int].current_term),
            held.holds(
                held.log(self.nodes[leader as int].current_term),
                held.mark->0.term,
                held.mark->0.index,
            ),
            self.nodes[leader as int].commit_index >= held.mark->0.index,
        ensures
            at_key(self.nodes[leader as int].state.data, key_of(request)) == value_of(request),
    {
        let mark = held.mark->0;
        let command = NodeModel::<MemoryStateMachine>::command_of(request)->0;
        let node = self.nodes[leader as int];
        let term = node.current_term;
        held.lemma_settled_stays(last, before.nodes, before.under_way(), command);
        assert(last.node_holds(self.nodes, leader as int));
        assert(last.notes_are_sound(node));
        assert(last.term_holds(self.nodes, term));
        assert(node.shows(last.fulls[leader]));
        let log = last.log(term);
        let index = mark.index;
        let settled_by = choose|t: Term| #[trigger] held.is_settled_by(t);
        assert(held.is_settled_by(settled_by));
        let old_log = held.log(term);
        let old_mark = held.log(mark.term);
        assert(held.has(mark.term));
        assert(old_log.take(old_log.len() as int) =~= old_log);
        assert(old_mark.take(old_mark.len() as int) =~= old_mark);
        lemma_beginning(log, old_log, old_log.len() as int, index);
        lemma_beginning(last.log(mark.term), old_mark, old_mark.len() as int, index);
        assert(last.holds(log, mark.term, index));
        let commit = node.commit_index as int;
        assert forall|i: int| index <= i < commit implies !touches(
            (#[trigger] log[i]).command,
            mark.key,
        ) by {
            assert(!touches(last.log(term)[i].command, mark.key));
        }
        lemma_key_stays(log, mark.key, index, commit);
        assert(log.take(index)[index - 1] == last.log(mark.term).take(index)[index - 1]);
        assert(log.take(index).last().command == command);
    }
}

impl ClusterModel {
    /// A read that is served after a write and other calls sees the write.
    proof fn lemma_read_after_write(
        self,
        calls: Seq<CallView>,
        reader: NodeId,
        second: u64,
        request: ClientRequestView,
        fuel: nat,
        settled: Ledger,
    )
        requires
            self.well_formed(),
            self.has_no_bare_snapshot(),
            self.is_recorded(settled),
            settled.size <= usize::MAX,
            settled.watch is None,
            settled.mark is Some,
            settled.mark->0.key == key_of(request),
            request is Put || request is Delete,
            settled.is_settled(NodeModel::<MemoryStateMachine>::command_of(request)->0),
            self.snapshots_taken(calls).subset_of(settled.taken),
            self.stays_vouched(calls),
            forall|i: int, node: NodeId|
                0 <= i < calls.len() ==> !#[trigger] overwrites(calls[i], node, key_of(request)),
            self.called_all(calls) matches Some(between) && {
                let get = ClientRequestView::Get { key: key_of(request) };
                &&& between.proposes_vouched(reader, get, fuel)
                &&& between.propose_as(second, reader, get, fuel) matches Some((_, reply))
                    && reply.success
            },
        ensures
            ({
                let get = ClientRequestView::Get { key: key_of(request) };
                let between = self.called_all(calls)->0;
                let (_, reply) = between.propose_as(second, reader, get, fuel)->0;
                reply.response == value_of(request)
            }),
    {
        let between = self.called_all(calls)->0;
        self.lemma_recorded_is_followed(settled);
        self.lemma_calls_followed(calls, settled);
        let held = between.lemma_held(settled);
        settled.lemma_settled_stays(
            held,
            self.nodes,
            self.under_way(),
            NodeModel::<MemoryStateMachine>::command_of(request)->0,
        );
        between.lemma_read_sees(second, reader, key_of(request), fuel, held, request);
    }
}

/// A read sees the last write that was acknowledged before it, at whichever nodes the two
/// are asked: a simulation begins, calls are made on it, a write is answered with
/// success, more calls are made, runs, faults, partitions, compactions, reads and writes
/// of other keys among them, and a read of the key is answered with success. Left out
/// are simulations in which a node strays: it is told to commit further than the batch
/// that it is sent reaches, and commits an entry of its own there that no node has
/// committed. Left out are also those in which two snapshots cannot be told apart by
/// their transfers, or one cannot be read back.
pub proof fn law_read_sees_the_acknowledged_write(
    size: nat,
    fault_plan: FaultPlanView,
    earlier: Seq<CallView>,
    calls: Seq<CallView>,
    writer: NodeId,
    reader: NodeId,
    first: u64,
    second: u64,
    request: ClientRequestView,
)
    requires
        size <= usize::MAX,
        request is Put || request is Delete,
        forall|i: int, node: NodeId|
            0 <= i < calls.len() ==> !#[trigger] overwrites(calls[i], node, key_of(request)),
        ClusterModel::initial(size, fault_plan).stays_vouched(earlier),
        ClusterModel::initial(size, fault_plan).called_all(earlier) matches Some(cluster) && {
            &&& cluster.call_is_vouched(
                (CallView::Propose { client_id: first, node: writer, request }),
            )
            &&& cluster.answers(first, writer, request)
            &&& cluster.answered(first, writer, request).1.success
            &&& are_distinct(
                ClusterModel::initial(size, fault_plan).snapshots_taken(earlier)
                    + cluster.answered(first, writer, request).0.snapshots_taken(calls),
            )
            &&& cluster.answered(first, writer, request).0.stays_vouched(calls)
            &&& cluster.answered(first, writer, request).0.called_all(calls) matches Some(
                between,
            ) && {
                let get = ClientRequestView::Get { key: key_of(request) };
                &&& between.call_is_vouched(
                    (CallView::Propose { client_id: second, node: reader, request: get }),
                )
                &&& between.answers(second, reader, get)
                &&& between.answered(second, reader, get).1.success
            }
        },
    ensures
        ({
            let cluster = ClusterModel::initial(size, fault_plan).called_all(earlier)->0;
            let between = cluster.answered(first, writer, request).0.called_all(calls)->0;
            let get = ClientRequestView::Get { key: key_of(request) };
            between.answered(second, reader, get).1.response == value_of(request)
        }),
{
    let start = ClusterModel::initial(size, fault_plan);
    let cluster = start.called_all(earlier)->0;
    let written = cluster.answered(first, writer, request).0;
    let between = written.called_all(calls)->0;
    let get = ClientRequestView::Get { key: key_of(request) };
    let taken = start.snapshots_taken(earlier) + written.snapshots_taken(calls);
    let blank = Ledger::blank(size, taken);
    ClusterModel::lemma_new_is_recorded(size, fault_plan, taken);
    start.lemma_recorded_is_followed(blank);
    start.lemma_calls_followed(earlier, blank);
    let fuel = choose|fuel: nat|
        (#[trigger] cluster.propose_as(first, writer, request, fuel)) is Some;
    let more = choose|fuel: nat| (#[trigger] between.propose_as(second, reader, get, fuel)) is Some;
    cluster.lemma_call_proposes_vouched(first, writer, request, fuel);
    between.lemma_call_proposes_vouched(second, reader, get, more);
    let settled = cluster.lemma_write_settles(first, writer, request, fuel, blank);
    written.lemma_read_after_write(calls, reader, second, request, more, settled);
}

} // verus!
