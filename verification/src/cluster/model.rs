//! A simulated cluster as a mathematical value, and what each step makes of it.
//!
//! Where a step would run into a limit of the machine (a counter or the clock at
//! its end, a message that a node cannot take), it has no result: `None`.
use crate::cluster::plan::FaultPlanView;
use crate::cluster::plan::LifecycleAction;
use crate::cluster::CLIENT_TIMEOUT_MS;
use crate::history::HistoryOperationView;
use crate::node::model::larger;
use crate::node::model::smaller;
use crate::node::model::NodeModel;
use crate::node::PendingRead;
use crate::node::PendingWrite;
use crate::node::RANDOM_MULTIPLIER;
use crate::state_machine::MemoryStateMachine;
use crate::state_machine::StateMachine;
use crate::types::ClientReplyView;
use crate::types::ClientRequestView;
use crate::types::MessageView;
use crate::types::NodeId;
use crate::types::Role;
use crate::types::Term;
use vstd::prelude::*;

verus! {

/// A message under way.
pub struct QueuedMessageView {
    pub deliver_at: u64,
    pub sequence: u64,
    pub message: MessageView,
}

/// A request of a client that the leader works on.
pub enum PendingRequestView {
    Write(PendingWrite),
    Read(PendingRead, Seq<char>),
}

impl PendingRequestView {
    /// The term in which the leader took the request.
    pub open spec fn term(self) -> Term {
        match self {
            PendingRequestView::Write(write) => write.term,
            PendingRequestView::Read(read, _) => read.term,
        }
    }
}

/// `a + b`, or the greatest number where that would be too large.
pub open spec fn plus(a: u64, b: u64) -> u64 {
    smaller(a + b, u64::MAX as int) as u64
}

/// `left` is due before `right`: earlier, or at the same time and sent before.
pub open spec fn due_before(left: QueuedMessageView, right: QueuedMessageView) -> bool {
    ||| left.deliver_at < right.deliver_at
    ||| left.deliver_at == right.deliver_at && left.sequence < right.sequence
}

/// How many leading positions of `order` hold a message that `queued` is not due
/// before.
pub open spec fn turn_of(
    messages: Seq<QueuedMessageView>,
    order: Seq<int>,
    queued: QueuedMessageView,
) -> nat
    decreases order.len(),
{
    if order.len() > 0 && !due_before(queued, messages[order[0]]) {
        1 + turn_of(messages, order.skip(1), queued)
    } else {
        0
    }
}

/// The positions, among the first `count`, of the messages that are due at
/// `now_ms`, in the order in which they are due.
pub open spec fn ready_among(
    messages: Seq<QueuedMessageView>,
    now_ms: u64,
    count: nat,
) -> Seq<int>
    decreases count,
{
    if count == 0 {
        Seq::empty()
    } else {
        let earlier = ready_among(messages, now_ms, (count - 1) as nat);
        let queued = messages[count - 1];
        if queued.deliver_at > now_ms {
            earlier
        } else {
            earlier.insert(turn_of(messages, earlier, queued) as int, count - 1)
        }
    }
}

/// The nodes and everything around them.
#[verifier::ext_equal]
pub struct ClusterModel {
    pub nodes: Seq<NodeModel<MemoryStateMachine>>,
    pub messages: Seq<QueuedMessageView>,
    pub now_ms: u64,
    pub stopped: Set<NodeId>,
    pub blocked: Set<(NodeId, NodeId)>,
    pub fault_plan: FaultPlanView,
    pub rng_state: u64,
    pub next_fault: nat,
    pub next_message_sequence: u64,
    pub history: Seq<HistoryOperationView>,
    pub next_operation_id: u64,
}

impl ClusterModel {
    /// The cluster's other nodes, in order.
    pub open spec fn peers_of(size: nat, id: int) -> Seq<NodeId> {
        Seq::new(
            (size - 1) as nat,
            |i: int|
                if i < id {
                    i as NodeId
                } else {
                    (i + 1) as NodeId
                },
        )
    }

    /// A cluster that has seen nothing yet.
    pub open spec fn initial(size: nat, fault_plan: FaultPlanView) -> Self {
        ClusterModel {
            nodes: Seq::new(
                size,
                |i: int|
                    NodeModel::initial(
                        i as NodeId,
                        Self::peers_of(size, i),
                        MemoryStateMachine::initial(),
                    ),
            ),
            messages: Seq::empty(),
            now_ms: 0,
            stopped: Set::empty(),
            blocked: Set::empty(),
            fault_plan,
            rng_state: fault_plan.seed,
            next_fault: 0,
            next_message_sequence: 0,
            history: Seq::empty(),
            next_operation_id: 0,
        }
    }

    pub open spec fn has_node(self, id: NodeId) -> bool {
        id < self.nodes.len()
    }

    /// The node stands at the position of its id and its peers are in the cluster.
    pub open spec fn is_at_home(self, position: int) -> bool {
        let node = self.nodes[position];
        &&& node.well_formed()
        &&& node.id == position
        &&& forall|i: int| 0 <= i < node.peers.len() ==> self.has_node(#[trigger] node.peers[i])
    }

    /// The message goes from one node of the cluster to another.
    pub open spec fn is_addressed(self, message: MessageView) -> bool {
        self.has_node(message.from) && self.has_node(message.to)
    }

    /// What every cluster keeps.
    pub open spec fn well_formed(self) -> bool {
        &&& forall|i: int| 0 <= i < self.nodes.len() ==> #[trigger] self.is_at_home(i)
        &&& forall|i: int|
            0 <= i < self.messages.len() ==> self.is_addressed((#[trigger] self.messages[i]).message)
        &&& self.next_fault <= self.fault_plan.lifecycle.len()
    }

    // ---- chance ----

    /// The cluster with the next random number drawn; it is the new `rng_state`.
    pub open spec fn drawn(self) -> Self {
        ClusterModel {
            rng_state: self.rng_state.wrapping_mul(RANDOM_MULTIPLIER).wrapping_add(1),
            ..self
        }
    }

    /// Whether something that happens at the given rate happens now.
    pub open spec fn chance(self, rate_per_mille: u16) -> (Self, bool) {
        if rate_per_mille == 0 {
            (self, false)
        } else {
            (self.drawn(), self.drawn().rng_state % 1000 < rate_per_mille)
        }
    }

    /// How long a message is under way.
    pub open spec fn random_delay(self) -> Option<(Self, u64)> {
        let limit = self.fault_plan.max_delay_ms;
        if limit == 0 {
            Some((self, 0))
        } else if limit == u64::MAX {
            None
        } else {
            Some((self.drawn(), (self.drawn().rng_state as int % (limit + 1)) as u64))
        }
    }

    // ---- the network ----

    /// A message from `from` can reach `to`.
    pub open spec fn is_connected(self, from: NodeId, to: NodeId) -> bool {
        &&& !self.stopped.contains(from)
        &&& !self.stopped.contains(to)
        &&& !self.blocked.contains((from, to))
    }

    pub open spec fn push_message(self, message: MessageView, delay: u64) -> Option<Self> {
        if self.next_message_sequence == u64::MAX {
            None
        } else {
            Some(
                ClusterModel {
                    messages: self.messages.push(
                        QueuedMessageView {
                            deliver_at: plus(self.now_ms, delay),
                            sequence: self.next_message_sequence,
                            message,
                        },
                    ),
                    next_message_sequence: (self.next_message_sequence + 1) as u64,
                    ..self
                },
            )
        }
    }

    /// The cluster with the message, and sometimes a second copy, under way after
    /// it was not dropped.
    pub open spec fn send(self, message: MessageView) -> Option<Self> {
        match self.random_delay() {
            None => None,
            Some((delayed, delay)) => match delayed.push_message(message, delay) {
                None => None,
                Some(sent) => {
                    let (after, again) = sent.chance(self.fault_plan.duplicate_rate_per_mille);
                    if !again {
                        Some(after)
                    } else {
                        match after.random_delay() {
                            None => None,
                            Some((last, extra)) => last.push_message(message, plus(delay, extra)),
                        }
                    }
                },
            },
        }
    }

    /// The cluster with the message under way, unless it is lost.
    #[verifier::opaque]
    pub open spec fn enqueue_one(self, message: MessageView) -> Option<Self> {
        if !self.is_connected(message.from, message.to) {
            Some(self)
        } else {
            let (after, dropped) = self.chance(self.fault_plan.drop_rate_per_mille);
            if dropped {
                Some(after)
            } else {
                after.send(message)
            }
        }
    }

    /// The cluster with the messages under way.
    pub open spec fn enqueue(self, messages: Seq<MessageView>) -> Option<Self>
        decreases messages.len(),
    {
        if messages.len() == 0 {
            Some(self)
        } else {
            match self.enqueue_one(messages[0]) {
                None => None,
                Some(after) => after.enqueue(messages.skip(1)),
            }
        }
    }

    // ---- steps ----

    pub open spec fn stop(self, id: NodeId) -> Self {
        ClusterModel { stopped: self.stopped.insert(id), ..self }
    }

    pub open spec fn restart(self, id: NodeId) -> Self {
        ClusterModel { stopped: self.stopped.remove(id), ..self }
    }

    /// The cluster after the next fault of the plan.
    pub open spec fn one_fault_applied(self) -> Self {
        let fault = self.fault_plan.lifecycle[self.next_fault as int];
        let after = match fault.action {
            LifecycleAction::Stop => self.stop(fault.node),
            LifecycleAction::Restart => self.restart(fault.node),
        };
        ClusterModel { next_fault: self.next_fault + 1, ..after }
    }

    /// The cluster once every fault that is due has happened.
    pub open spec fn faults_applied(self) -> Self
        decreases self.fault_plan.lifecycle.len() - self.next_fault,
    {
        if self.next_fault < self.fault_plan.lifecycle.len()
            && self.fault_plan.lifecycle[self.next_fault as int].at_ms <= self.now_ms {
            self.one_fault_applied().faults_applied()
        } else {
            self
        }
    }

    /// The positions of the messages that are due, in the order in which they are.
    pub open spec fn ready(self) -> Seq<int> {
        ready_among(self.messages, self.now_ms, self.messages.len())
    }

    /// How many of the messages that are due may come next.
    pub open spec fn window(self) -> int {
        smaller(
            larger(self.fault_plan.reorder_window as int, 1),
            self.ready().len() as int,
        )
    }

    /// The position of the message that comes next.
    pub open spec fn next_ready(self) -> (Self, Option<int>) {
        if self.ready().len() == 0 {
            (self, None)
        } else if self.window() == 1 {
            (self, Some(self.ready()[0]))
        } else {
            let after = self.drawn();
            (after, Some(self.ready()[(after.rng_state as usize) as int % self.window()]))
        }
    }

    /// The cluster with one node replaced.
    pub open spec fn with_node(self, id: NodeId, node: NodeModel<MemoryStateMachine>) -> Self {
        ClusterModel { nodes: self.nodes.update(id as int, node), ..self }
    }

    /// The cluster after the message at `position` has arrived, or was lost.
    #[verifier::opaque]
    pub open spec fn deliver(self, position: int) -> Option<Self> {
        let message = self.messages[position].message;
        let after = ClusterModel { messages: self.messages.remove(position), ..self };
        if !self.is_connected(message.from, message.to) {
            Some(after)
        } else {
            let node = self.nodes[message.to as int];
            if !node.can_handle(message.from, message.rpc, self.now_ms) {
                None
            } else {
                let (next, replies) = node.handle(message.from, message.rpc, self.now_ms);
                after.with_node(message.to, next).enqueue(replies)
            }
        }
    }

    /// The cluster after one node has seen the clock tick.
    #[verifier::opaque]
    pub open spec fn ticked(self, id: NodeId) -> Option<Self> {
        let node = self.nodes[id as int];
        if !node.can_tick(self.now_ms) {
            None
        } else {
            let (next, messages) = node.tick(self.now_ms);
            self.with_node(id, next).enqueue(messages)
        }
    }

    /// The cluster after the first `count` nodes, but those that are stopped, have
    /// seen the clock tick.
    pub open spec fn ticked_first(self, count: nat) -> Option<Self>
        decreases count,
    {
        if count == 0 {
            Some(self)
        } else {
            match self.ticked_first((count - 1) as nat) {
                None => None,
                Some(after) => if after.stopped.contains((count - 1) as NodeId) {
                    Some(after)
                } else {
                    after.ticked((count - 1) as NodeId)
                },
            }
        }
    }

    /// The cluster after one step: the next message that is due arrives, or the
    /// clock ticks if none is.
    #[verifier::opaque]
    pub open spec fn step(self) -> Option<Self> {
        let (present, position) = self.faults_applied().next_ready();
        match position {
            Some(at) => present.deliver(at),
            None => if present.now_ms == u64::MAX {
                None
            } else {
                ClusterModel {
                    now_ms: (present.now_ms + 1) as u64,
                    ..present
                }.faults_applied().ticked_first(self.nodes.len())
            },
        }
    }

    /// The cluster after that many steps.
    pub open spec fn steps(self, count: nat) -> Option<Self>
        decreases count,
    {
        if count == 0 {
            Some(self)
        } else {
            match self.step() {
                None => None,
                Some(next) => next.steps((count - 1) as nat),
            }
        }
    }

    /// The cluster once its clock has passed `deadline`, if `fuel` steps are
    /// enough for that.
    pub open spec fn run_past(self, deadline: u64, fuel: nat) -> Option<Self>
        decreases fuel,
    {
        if self.now_ms > deadline {
            Some(self)
        } else if fuel == 0 {
            None
        } else {
            match self.step() {
                None => None,
                Some(next) => next.run_past(deadline, (fuel - 1) as nat),
            }
        }
    }

    /// The clock passes `deadline` after finitely many steps.
    pub open spec fn passes(self, deadline: u64) -> bool {
        exists|fuel: nat| (#[trigger] self.run_past(deadline, fuel)) is Some
    }

    /// The cluster once its clock has passed `deadline`.
    pub open spec fn past(self, deadline: u64) -> Self {
        self.run_past(
            deadline,
            choose|fuel: nat| (#[trigger] self.run_past(deadline, fuel)) is Some,
        )->0
    }

    /// Within `fuel` steps the clock passes `deadline` or `stop` holds.
    pub open spec fn comes_to(
        self,
        deadline: u64,
        stop: spec_fn(ClusterModel) -> bool,
        fuel: nat,
    ) -> bool
        decreases fuel,
    {
        ||| self.now_ms > deadline
        ||| stop(self)
        ||| fuel > 0 && match self.step() {
            None => false,
            Some(next) => next.comes_to(deadline, stop, (fuel - 1) as nat),
        }
    }

    // ---- clients ----

    /// The node at the position is up and leads.
    pub open spec fn is_leading(self, position: int) -> bool {
        &&& 0 <= position < self.nodes.len()
        &&& !self.stopped.contains(self.nodes[position].id)
        &&& self.nodes[position].role == Role::Leader
    }

    /// The only node that is up and leads.
    pub open spec fn leader(self) -> Option<NodeId> {
        if exists|i: int| #[trigger]
            self.is_leading(i) && forall|j: int| #[trigger] self.is_leading(j) ==> j == i {
            Some(self.nodes[choose|i: int| self.is_leading(i)].id)
        } else {
            None
        }
    }

    /// What the client is answered now, if it is not to wait any longer.
    pub open spec fn outcome(
        self,
        leader: NodeId,
        pending: PendingRequestView,
    ) -> Option<ClientReplyView> {
        let node = self.nodes[leader as int];
        let done = match pending {
            PendingRequestView::Write(write) => node.write_done(write),
            PendingRequestView::Read(read, _) => node.read_ready(read),
        };
        if done {
            Some(
                match pending {
                    PendingRequestView::Write(_) => ClientReplyView {
                        success: true,
                        leader_id: Some(leader),
                        response: Some("committed"@),
                    },
                    PendingRequestView::Read(_, key) => match MemoryStateMachine::lookup(
                        node.state,
                        key,
                    ) {
                        Ok(response) => ClientReplyView {
                            success: true,
                            leader_id: Some(leader),
                            response,
                        },
                        Err(_) => ClientReplyView::refused(Some(leader)),
                    },
                },
            )
        } else if node.role != Role::Leader || node.current_term != pending.term()
            || self.stopped.contains(leader) {
            Some(ClientReplyView::refused(self.leader()))
        } else {
            None
        }
    }

    /// The cluster runs until the client is answered or `deadline` has passed, if
    /// `fuel` steps are enough for that.
    pub open spec fn settle(
        self,
        leader: NodeId,
        pending: PendingRequestView,
        deadline: u64,
        fuel: nat,
    ) -> Option<(Self, ClientReplyView)>
        decreases fuel,
    {
        if self.now_ms > deadline {
            Some((self, ClientReplyView::refused(self.nodes[leader as int].leader_id)))
        } else {
            match self.outcome(leader, pending) {
                Some(reply) => Some((self, reply)),
                None => if fuel == 0 {
                    None
                } else {
                    match self.step() {
                        None => None,
                        Some(next) => next.settle(leader, pending, deadline, (fuel - 1) as nat),
                    }
                },
            }
        }
    }

    /// The leader takes a write or a read: what it works on then, or its refusal.
    pub open spec fn begin(self, leader: NodeId, request: ClientRequestView) -> Option<
        (Self, Result<PendingRequestView, ClientReplyView>),
    > {
        let node = self.nodes[leader as int];
        match request {
            ClientRequestView::Get { key } => {
                let (next, result) = node.start_read();
                match result {
                    Err(reply) => Some((self.with_node(leader, next), Err(reply))),
                    Ok((read, messages)) => match self.with_node(leader, next).enqueue(messages) {
                        None => None,
                        Some(after) => Some((after, Ok(PendingRequestView::Read(read, key)))),
                    },
                }
            },
            _ => if node.last_index() + 1 >= usize::MAX {
                None
            } else {
                let (next, result) = node.start_write(request);
                match result {
                    Err(reply) => Some((self.with_node(leader, next), Err(reply))),
                    Ok((write, messages)) => match self.with_node(leader, next).enqueue(messages) {
                        None => None,
                        Some(after) => Some((after, Ok(PendingRequestView::Write(write)))),
                    },
                }
            },
        }
    }

    /// The leader forgets a read once it is answered.
    pub open spec fn released(self, leader: NodeId, pending: PendingRequestView) -> Self {
        match pending {
            PendingRequestView::Write(_) => self,
            PendingRequestView::Read(read, _) => {
                let node = self.nodes[leader as int];
                self.with_node(
                    leader,
                    NodeModel { pending_reads: node.pending_reads.remove(read.id), ..node },
                )
            },
        }
    }

    /// What becomes of a request, without a record of it.
    pub open spec fn serve(self, leader: NodeId, request: ClientRequestView, fuel: nat) -> Option<
        (Self, ClientReplyView),
    > {
        if !self.has_node(leader) || self.stopped.contains(leader) {
            Some((self, ClientReplyView::refused(None)))
        } else if request is LocalGet {
            Some((self, self.nodes[leader as int].direct_reply(request)))
        } else {
            match self.begin(leader, request) {
                None => None,
                Some((after, Err(reply))) => Some((after, reply)),
                Some((after, Ok(pending))) => if after.now_ms > u64::MAX - CLIENT_TIMEOUT_MS {
                    None
                } else {
                    match after.settle(
                        leader,
                        pending,
                        (after.now_ms + CLIENT_TIMEOUT_MS) as u64,
                        fuel,
                    ) {
                        None => None,
                        Some((settled, reply)) => Some((settled.released(leader, pending), reply)),
                    }
                },
            }
        }
    }

    /// What becomes of a request, with a record of it in the history.
    pub open spec fn propose_as(
        self,
        client_id: u64,
        leader: NodeId,
        request: ClientRequestView,
        fuel: nat,
    ) -> Option<(Self, ClientReplyView)> {
        if self.next_operation_id == u64::MAX {
            None
        } else {
            let numbered = ClusterModel {
                next_operation_id: (self.next_operation_id + 1) as u64,
                ..self
            };
            match numbered.serve(leader, request, fuel) {
                None => None,
                Some((after, reply)) => Some(
                    (
                        ClusterModel {
                            history: after.history.push(
                                HistoryOperationView {
                                    id: self.next_operation_id,
                                    client_id,
                                    invoked_at: self.now_ms,
                                    completed_at: after.now_ms,
                                    request,
                                    response: reply,
                                },
                            ),
                            ..after
                        },
                        reply,
                    ),
                ),
            }
        }
    }

    /// The request is answered after finitely many steps.
    pub open spec fn answers(
        self,
        client_id: u64,
        leader: NodeId,
        request: ClientRequestView,
    ) -> bool {
        exists|fuel: nat| (#[trigger] self.propose_as(client_id, leader, request, fuel)) is Some
    }

    /// The cluster once the request is answered, and the answer.
    pub open spec fn answered(
        self,
        client_id: u64,
        leader: NodeId,
        request: ClientRequestView,
    ) -> (Self, ClientReplyView) {
        self.propose_as(
            client_id,
            leader,
            request,
            choose|fuel: nat|
                (#[trigger] self.propose_as(client_id, leader, request, fuel)) is Some,
        )->0
    }

    // ---- partitions ----

    /// Two nodes that stand in no group together cannot reach each other.
    pub open spec fn partitioned(self, groups: Seq<Seq<NodeId>>) -> Self {
        ClusterModel {
            blocked: Set::new(
                |pair: (NodeId, NodeId)|
                    {
                        &&& self.has_node(pair.0)
                        &&& self.has_node(pair.1)
                        &&& pair.0 != pair.1
                        &&& !exists|i: int|
                            0 <= i < groups.len() && (#[trigger] groups[i]).contains(pair.0)
                                && groups[i].contains(pair.1)
                    },
            ),
            ..self
        }
    }

    pub open spec fn healed(self) -> Self {
        ClusterModel { blocked: Set::empty(), ..self }
    }
}

} // verus!
