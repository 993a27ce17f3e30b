//! A deterministic simulation of a cluster.
use crate::cluster::model::ClusterModel;
use crate::cluster::model::QueuedMessageView;
use crate::cluster::plan::FaultPlan;
use crate::cluster::plan::FaultPlanView;
use crate::error::Error;
use crate::history::HistoryOperationView;
use crate::history::OperationHistory;
use crate::node::model::NodeModel;
use crate::node::snapshots::snapshot_result;
use crate::node::Node;
use crate::state_machine::MemoryStateMachine;
use crate::types::LogIndex;
use crate::types::Message;
use crate::types::NodeId;
use crate::types::Role;
use crate::types::Snapshot;
use std::collections::HashSet;
use vstd::prelude::*;

pub mod agreement;
pub mod calls;
pub mod campaigns;
pub mod commits;
pub mod conduct;
pub mod elections;
pub mod followers;
pub mod freshness;
pub mod growth;
pub mod journeys;
pub mod laws;
pub mod leads;
pub mod ledger;
pub mod linearity;
pub mod majorities;
pub mod model;
pub mod moves;
pub mod network;
pub mod offices;
pub mod plan;
pub mod replies;
pub mod requests;
pub mod runs;
pub mod safety;
pub mod simulation;
pub mod tenure;
pub mod terms;
pub mod tracks;
pub mod vouching;

verus! {

broadcast use vstd::std_specs::hash::group_hash_axioms;

/// How long a client waits for the answer to a write or a read.
pub const CLIENT_TIMEOUT_MS: u64 = 2000;

/// A message under way.
#[derive(Debug)]
struct QueuedMessage {
    deliver_at: u64,
    sequence: u64,
    message: Message,
}

impl View for QueuedMessage {
    type V = QueuedMessageView;

    closed spec fn view(&self) -> QueuedMessageView {
        QueuedMessageView {
            deliver_at: self.deliver_at,
            sequence: self.sequence,
            message: self.message@,
        }
    }
}

impl DeepView for QueuedMessage {
    type V = QueuedMessageView;

    closed spec fn deep_view(&self) -> QueuedMessageView {
        self@
    }
}

impl Clone for QueuedMessage {
    fn clone(&self) -> (copy: Self)
        ensures
            copy@ == self@,
    {
        QueuedMessage {
            deliver_at: self.deliver_at,
            sequence: self.sequence,
            message: self.message.clone(),
        }
    }
}

/// Nodes, the network between them and the clock, all under control: the same
/// fault plan gives the same run.
#[derive(Debug)]
pub struct Cluster {
    /// Each node stands at the position of its id. The order of the nodes is part
    /// of the order of events.
    nodes: Vec<Node>,
    messages: Vec<QueuedMessage>,
    now_ms: u64,
    stopped: HashSet<NodeId>,
    /// Pairs of nodes of which the first cannot reach the second.
    blocked: Vec<(NodeId, NodeId)>,
    fault_plan: FaultPlan,
    rng_state: u64,
    next_fault: usize,
    next_message_sequence: u64,
    history: OperationHistory,
    next_operation_id: u64,
}

/// The nodes as mathematical values.
pub open spec fn nodes_view(nodes: Seq<Node>) -> Seq<NodeModel<MemoryStateMachine>> {
    Seq::new(nodes.len(), |i: int| nodes[i]@)
}

impl View for Cluster {
    type V = ClusterModel;

    closed spec fn view(&self) -> ClusterModel {
        ClusterModel {
            nodes: nodes_view(self.nodes@),
            messages: self.messages.deep_view(),
            now_ms: self.now_ms,
            stopped: self.stopped@,
            blocked: self.blocked@.to_set(),
            fault_plan: self.fault_plan@,
            rng_state: self.rng_state,
            next_fault: self.next_fault as nat,
            next_message_sequence: self.next_message_sequence,
            history: self.history@,
            next_operation_id: self.next_operation_id,
        }
    }
}

/// The other ids below `size`.
fn peers_of(size: usize, id: NodeId) -> (peers: Vec<NodeId>)
    requires
        id < size,
    ensures
        peers@ == ClusterModel::peers_of(size as nat, id as int),
{
    let mut peers: Vec<NodeId> = Vec::new();
    let mut peer: usize = 0;
    while peer < size
        invariant
            id < size,
            peer <= size,
            peers.len() == (if peer <= id {
                peer as int
            } else {
                peer - 1
            }),
            forall|i: int|
                0 <= i < peers.len() ==> #[trigger] peers[i] == ClusterModel::peers_of(
                    size as nat,
                    id as int,
                )[i],
        decreases size - peer,
    {
        if peer != id {
            peers.push(peer);
        }
        peer += 1;
    }
    assert(peers@ =~= ClusterModel::peers_of(size as nat, id as int));
    peers
}

/// Whether some group holds both ids.
fn stand_together(groups: &[Vec<NodeId>], from: NodeId, to: NodeId) -> (together: bool)
    ensures
        together == exists|i: int|
            0 <= i < groups@.len() && (#[trigger] groups@[i])@.contains(from)
                && groups@[i]@.contains(to),
{
    let mut i: usize = 0;
    while i < groups.len()
        invariant
            i <= groups@.len(),
            forall|j: int|
                0 <= j < i ==> !((#[trigger] groups@[j])@.contains(from) && groups@[j]@.contains(
                    to,
                )),
        decreases groups@.len() - i,
    {
        if group_has(&groups[i], from) && group_has(&groups[i], to) {
            return true;
        }
        i += 1;
    }
    false
}

fn group_has(group: &Vec<NodeId>, id: NodeId) -> (found: bool)
    ensures
        found == group@.contains(id),
{
    let mut i: usize = 0;
    while i < group.len()
        invariant
            i <= group.len(),
            forall|j: int| 0 <= j < i ==> group[j] != id,
        decreases group.len() - i,
    {
        if group[i] == id {
            return true;
        }
        i += 1;
    }
    false
}

/// The groups as mathematical values.
pub open spec fn groups_view(groups: Seq<Vec<NodeId>>) -> Seq<Seq<NodeId>> {
    Seq::new(groups.len(), |i: int| groups[i]@)
}

impl Cluster {
    /// A cluster of that many nodes without faults.
    pub fn new(size: usize) -> (cluster: Self)
        ensures
            cluster@ == ClusterModel::initial(size as nat, FaultPlanView::quiet(0)),
            cluster@.well_formed(),
    {
        Cluster::with_fault_plan(size, FaultPlan::default())
    }

    /// A cluster of that many nodes with the faults of a plan.
    pub fn with_fault_plan(size: usize, fault_plan: FaultPlan) -> (cluster: Self)
        ensures
            cluster@ == ClusterModel::initial(size as nat, fault_plan@),
            cluster@.well_formed(),
    {
        let ghost expected = ClusterModel::initial(size as nat, fault_plan@);
        let mut nodes: Vec<Node> = Vec::new();
        let mut id: usize = 0;
        while id < size
            invariant
                id <= size,
                nodes.len() == id,
                expected == ClusterModel::initial(size as nat, fault_plan@),
                forall|i: int| 0 <= i < id ==> (#[trigger] nodes[i])@ == expected.nodes[i],
                forall|i: int| 0 <= i < id ==> (#[trigger] nodes[i])@.well_formed(),
            decreases size - id,
        {
            nodes.push(Node::new(id, peers_of(size, id)));
            id += 1;
        }
        let seed: u64 = fault_plan.seed;
        let cluster = Cluster {
            nodes,
            messages: Vec::new(),
            now_ms: 0,
            stopped: HashSet::new(),
            blocked: Vec::new(),
            fault_plan,
            rng_state: seed,
            next_fault: 0,
            next_message_sequence: 0,
            history: OperationHistory::new(),
            next_operation_id: 0,
        };
        assert(cluster@ =~= expected);
        assert forall|i: int| 0 <= i < cluster@.nodes.len() implies #[trigger] cluster@.is_at_home(
            i,
        ) by {
            assert(nodes[i]@ == expected.nodes[i]);
        }
        cluster
    }

    /// The node with the given id.
    pub fn node(&self, id: NodeId) -> (node: &Node)
        requires
            self@.has_node(id),
        ensures
            node@ == self@.nodes[id as int],
    {
        &self.nodes[id]
    }

    /// The nodes with their ids, in the order of ids.
    pub fn nodes(&self) -> (nodes: Vec<(NodeId, &Node)>)
        ensures
            nodes.len() == self@.nodes.len(),
            forall|i: int|
                0 <= i < nodes.len() ==> (#[trigger] nodes[i]).0 == i && nodes[i].1@
                    == self@.nodes[i],
    {
        let mut nodes: Vec<(NodeId, &Node)> = Vec::new();
        let mut id: usize = 0;
        while id < self.nodes.len()
            invariant
                id <= self.nodes.len(),
                nodes.len() == id,
                forall|i: int|
                    0 <= i < id ==> (#[trigger] nodes[i]).0 == i && nodes[i].1@ == self@.nodes[i],
            decreases self.nodes.len() - id,
        {
            nodes.push((id, &self.nodes[id]));
            id += 1;
        }
        nodes
    }

    /// The ids, in order.
    pub fn node_ids(&self) -> (ids: Vec<NodeId>)
        ensures
            ids@ == Seq::new(self@.nodes.len(), |i: int| i as NodeId),
    {
        let mut ids: Vec<NodeId> = Vec::new();
        let mut id: usize = 0;
        while id < self.nodes.len()
            invariant
                id <= self.nodes.len(),
                ids.len() == id,
                forall|i: int| 0 <= i < id ==> #[trigger] ids[i] == i,
            decreases self.nodes.len() - id,
        {
            ids.push(id);
            id += 1;
        }
        assert(ids@ =~= Seq::new(self@.nodes.len(), |i: int| i as NodeId));
        ids
    }

    /// Stops a node: it neither sees the clock nor sends or receives.
    pub fn stop(&mut self, id: NodeId)
        ensures
            final(self)@ == old(self)@.stop(id),
            old(self)@.well_formed() ==> final(self)@.well_formed(),
    {
        let ghost before = self@;
        self.stopped.insert(id);
        assert(self@ =~= before.stop(id));
        proof {
            before.lemma_same_nodes_well_formed(self@);
        }
    }

    /// Lets a stopped node go on with the state it had.
    pub fn restart(&mut self, id: NodeId)
        ensures
            final(self)@ == old(self)@.restart(id),
            old(self)@.well_formed() ==> final(self)@.well_formed(),
    {
        let ghost before = self@;
        self.stopped.remove(&id);
        assert(self@ =~= before.restart(id));
        proof {
            before.lemma_same_nodes_well_formed(self@);
        }
    }

    pub fn is_stopped(&self, id: NodeId) -> (stopped: bool)
        ensures
            stopped == self@.stopped.contains(id),
    {
        self.stopped.contains(&id)
    }

    /// Replaces a node's log up to its last applied index with a snapshot.
    pub fn compact_node(&mut self, id: NodeId, index: LogIndex) -> (result: Result<Snapshot, Error>)
        requires
            old(self)@.well_formed(),
            old(self)@.has_node(id) ==> old(self)@.nodes[id as int].last_applied < usize::MAX,
        ensures
            !old(self)@.has_node(id) ==> {
                &&& result matches Err(error) && error == Error::UnknownNode
                &&& final(self)@ == old(self)@
            },
            old(self)@.has_node(id) ==> {
                let (node, compacted) = old(self)@.nodes[id as int].compact_to(index);
                &&& snapshot_result(result) == compacted
                &&& final(self)@ == old(self)@.with_node(id, node)
            },
            final(self)@.well_formed(),
    {
        if id >= self.nodes.len() {
            return Err(Error::UnknownNode);
        }
        let ghost before = self@;
        assert(before.is_at_home(id as int));
        let result = self.nodes[id].compact_to(index);
        proof {
            let node = before.nodes[id as int].compact_to(index).0;
            assert(self@ =~= before.with_node(id, node));
            before.lemma_with_node_well_formed(id, node);
        }
        result
    }

    pub fn fault_plan(&self) -> (plan: &FaultPlan)
        ensures
            plan@ == self@.fault_plan,
    {
        &self.fault_plan
    }

    /// How many messages are under way.
    pub fn queued_message_count(&self) -> (count: usize)
        ensures
            count == self@.messages.len(),
    {
        self.messages.len()
    }

    pub fn history(&self) -> (history: &OperationHistory)
        ensures
            history@ == self@.history,
    {
        &self.history
    }

    /// Hands the history out and starts a new one.
    pub fn take_history(&mut self) -> (history: OperationHistory)
        ensures
            history@ == old(self)@.history,
            final(self)@ == (ClusterModel {
                history: Seq::<HistoryOperationView>::empty(),
                ..old(self)@
            }),
            old(self)@.well_formed() ==> final(self)@.well_formed(),
    {
        let ghost before = self@;
        let mut history = OperationHistory::new();
        std::mem::swap(&mut history, &mut self.history);
        proof {
            before.lemma_same_nodes_well_formed(self@);
        }
        history
    }

    pub fn clear_history(&mut self)
        ensures
            final(self)@ == (ClusterModel {
                history: Seq::<HistoryOperationView>::empty(),
                ..old(self)@
            }),
            old(self)@.well_formed() ==> final(self)@.well_formed(),
    {
        let ghost before = self@;
        self.history.clear();
        proof {
            before.lemma_same_nodes_well_formed(self@);
        }
    }

    /// Cuts the network: two nodes can reach each other only if some group holds
    /// both.
    pub fn partition(&mut self, groups: &[Vec<NodeId>])
        ensures
            final(self)@ == old(self)@.partitioned(groups_view(groups@)),
            old(self)@.well_formed() ==> final(self)@.well_formed(),
    {
        let ghost before = self@;
        let ghost cut = before.partitioned(groups_view(groups@)).blocked;
        let count: usize = self.nodes.len();
        let mut blocked: Vec<(NodeId, NodeId)> = Vec::new();
        let mut from: usize = 0;
        while from < count
            invariant
                from <= count,
                count == before.nodes.len(),
                cut == before.partitioned(groups_view(groups@)).blocked,
                forall|pair: (NodeId, NodeId)| #[trigger]
                    blocked@.to_set().contains(pair) <==> cut.contains(pair) && pair.0 < from,
            decreases count - from,
        {
            let mut to: usize = 0;
            while to < count
                invariant
                    from < count,
                    to <= count,
                    count == before.nodes.len(),
                    cut == before.partitioned(groups_view(groups@)).blocked,
                    forall|pair: (NodeId, NodeId)| #[trigger]
                        blocked@.to_set().contains(pair) <==> cut.contains(pair) && (pair.0 < from
                            || pair.0 == from && pair.1 < to),
                decreases count - to,
            {
                let ghost views = groups_view(groups@);
                let together = stand_together(groups, from, to);
                proof {
                    if together {
                        let i = choose|i: int|
                            0 <= i < groups@.len() && (#[trigger] groups@[i])@.contains(from)
                                && groups@[i]@.contains(to);
                        assert(views[i].contains(from) && views[i].contains(to));
                    }
                    assert(cut.contains((from, to)) == (from != to && !together));
                }
                let ghost sofar = blocked@;
                if from != to && !together {
                    blocked.push((from, to));
                    proof {
                        sofar.lemma_push_to_set_commute((from, to));
                    }
                }
                to += 1;
            }
            from += 1;
        }
        assert(blocked@.to_set() =~= cut);
        self.blocked = blocked;
        proof {
            before.lemma_same_nodes_well_formed(self@);
        }
    }

    /// Lets every node reach every other again.
    pub fn heal(&mut self)
        ensures
            final(self)@ == old(self)@.healed(),
            old(self)@.well_formed() ==> final(self)@.well_formed(),
    {
        let ghost before = self@;
        self.blocked = Vec::new();
        assert(self.blocked@.to_set() =~= Set::empty());
        proof {
            before.lemma_same_nodes_well_formed(self@);
        }
    }

    /// The only node that is up and leads; none if there are several.
    pub fn leader(&self) -> (leader: Option<NodeId>)
        ensures
            leader == self@.leader(),
    {
        let mut leader: Option<NodeId> = None;
        let ghost mut found: int = -1;
        let mut i: usize = 0;
        while i < self.nodes.len()
            invariant
                i <= self.nodes.len(),
                leader is None ==> forall|j: int| 0 <= j < i ==> !#[trigger] self@.is_leading(j),
                leader matches Some(id) ==> {
                    &&& 0 <= found < i
                    &&& self@.is_leading(found)
                    &&& self@.nodes[found].id == id
                    &&& forall|j: int| 0 <= j < i && #[trigger] self@.is_leading(j) ==> j == found
                },
            decreases self.nodes.len() - i,
        {
            let node = &self.nodes[i];
            if !self.stopped.contains(&node.id()) && node.role() == Role::Leader {
                assert(self@.is_leading(i as int));
                if leader.is_some() {
                    assert(self@.is_leading(found) && found != i);
                    return None;
                }
                leader = Some(node.id());
                proof {
                    found = i as int;
                }
            } else {
                assert(!self@.is_leading(i as int));
            }
            i += 1;
        }
        proof {
            if leader is Some {
                assert(self@.is_leading(found));
                let chosen = choose|j: int| self@.is_leading(j);
                assert(self@.is_leading(chosen));
            }
        }
        leader
    }

    /// The simulated time.
    pub fn now(&self) -> (now_ms: u64)
        ensures
            now_ms == self@.now_ms,
    {
        self.now_ms
    }
}

impl ClusterModel {
    /// What does not touch the nodes, the queue or the plan keeps a cluster well
    /// formed.
    proof fn lemma_same_nodes_well_formed(self, other: Self)
        requires
            other.nodes == self.nodes,
            other.messages == self.messages,
            other.fault_plan == self.fault_plan,
            other.next_fault == self.next_fault,
        ensures
            self.well_formed() ==> other.well_formed(),
    {
        if self.well_formed() {
            assert forall|i: int| 0 <= i < other.nodes.len() implies #[trigger] other.is_at_home(
                i,
            ) by {
                assert(self.is_at_home(i));
            }
            assert forall|i: int| 0 <= i < other.messages.len() implies other.is_addressed(
                (#[trigger] other.messages[i]).message,
            ) by {
                assert(self.is_addressed(self.messages[i].message));
            }
        }
    }

    /// A well-formed node with the same id and peers fits in.
    proof fn lemma_with_node_well_formed(self, id: NodeId, node: NodeModel<MemoryStateMachine>)
        requires
            self.well_formed(),
            self.has_node(id),
            node.well_formed(),
            node.id == id,
            node.peers == self.nodes[id as int].peers,
        ensures
            self.with_node(id, node).well_formed(),
    {
        let other = self.with_node(id, node);
        assert forall|i: int| 0 <= i < other.nodes.len() implies #[trigger] other.is_at_home(i) by {
            assert(self.is_at_home(i));
            assert(self.is_at_home(id as int));
        }
        assert forall|i: int| 0 <= i < other.messages.len() implies other.is_addressed(
            (#[trigger] other.messages[i]).message,
        ) by {
            assert(self.is_addressed(self.messages[i].message));
        }
    }
}

} // verus!
