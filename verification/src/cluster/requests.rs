//! Requests of clients.
use crate::cluster::model::ClusterModel;
use crate::cluster::model::PendingRequestView;
use crate::cluster::Cluster;
use crate::cluster::CLIENT_TIMEOUT_MS;
use crate::node::laws::is_from_node;
use crate::node::model::NodeModel;
use crate::node::PendingRead;
use crate::node::PendingWrite;
use crate::state_machine::MemoryStateMachine;
use crate::types::ClientReply;
use crate::types::ClientReplyView;
use crate::types::ClientRequest;
use crate::types::ClientRequestView;
use crate::types::Message;
use crate::types::NodeId;
use crate::types::Role;
use crate::types::Term;
use vstd::prelude::*;

verus! {

broadcast use vstd::std_specs::hash::group_hash_axioms;

/// A request of a client that the leader works on.
enum PendingRequest {
    Write(PendingWrite),
    Read(PendingRead, String),
}

impl View for PendingRequest {
    type V = PendingRequestView;

    closed spec fn view(&self) -> PendingRequestView {
        match *self {
            PendingRequest::Write(write) => PendingRequestView::Write(write),
            PendingRequest::Read(read, key) => PendingRequestView::Read(read, key@),
        }
    }
}

/// The answer as a mathematical value.
pub open spec fn optional_reply(reply: Option<ClientReply>) -> Option<ClientReplyView> {
    match reply {
        Some(inner) => Some(inner@),
        None => None,
    }
}

impl ClusterModel {
    /// The request can be taken, and `max_steps` steps are enough for the clock to
    /// pass the time that the client waits.
    pub open spec fn has_time_for(
        self,
        leader: NodeId,
        request: ClientRequestView,
        max_steps: nat,
    ) -> bool {
        let numbered = ClusterModel {
            next_operation_id: (self.next_operation_id + 1) as u64,
            ..self
        };
        &&& self.next_operation_id < u64::MAX
        &&& {
            ||| !self.has_node(leader)
            ||| self.stopped.contains(leader)
            ||| request is LocalGet
            ||| match numbered.begin(leader, request) {
                None => false,
                Some((_, Err(_))) => true,
                Some((after, Ok(_))) => {
                    &&& after.now_ms <= u64::MAX - CLIENT_TIMEOUT_MS
                    &&& after.run_past(
                        (after.now_ms + CLIENT_TIMEOUT_MS) as u64,
                        max_steps,
                    ) is Some
                },
            }
        }
    }

    /// A client is answered once the clock has passed the deadline, at the latest.
    proof fn lemma_passing_settles(
        self,
        leader: NodeId,
        pending: PendingRequestView,
        deadline: u64,
        fuel: nat,
    )
        requires
            self.run_past(deadline, fuel) is Some,
        ensures
            self.settle(leader, pending, deadline, fuel) is Some,
        decreases fuel,
    {
        if self.now_ms <= deadline && self.outcome(leader, pending) is None {
            self.step()->0.lemma_passing_settles(leader, pending, deadline, (fuel - 1) as nat);
        }
    }

    proof fn lemma_settle_more(
        self,
        leader: NodeId,
        pending: PendingRequestView,
        deadline: u64,
        fuel: nat,
        more: nat,
    )
        requires
            fuel <= more,
            self.settle(leader, pending, deadline, fuel) is Some,
        ensures
            self.settle(leader, pending, deadline, more) == self.settle(
                leader,
                pending,
                deadline,
                fuel,
            ),
        decreases fuel,
    {
        if self.now_ms <= deadline && self.outcome(leader, pending) is None {
            self.step()->0.lemma_settle_more(
                leader,
                pending,
                deadline,
                (fuel - 1) as nat,
                (more - 1) as nat,
            );
        }
    }

    proof fn lemma_propose_more(
        self,
        client_id: u64,
        leader: NodeId,
        request: ClientRequestView,
        fuel: nat,
        more: nat,
    )
        requires
            fuel <= more,
            self.propose_as(client_id, leader, request, fuel) is Some,
        ensures
            self.propose_as(client_id, leader, request, more) == self.propose_as(
                client_id,
                leader,
                request,
                fuel,
            ),
    {
        let numbered = ClusterModel {
            next_operation_id: (self.next_operation_id + 1) as u64,
            ..self
        };
        if let Some((after, Ok(pending))) = numbered.begin(leader, request) {
            let deadline = (after.now_ms + CLIENT_TIMEOUT_MS) as u64;
            if after.settle(leader, pending, deadline, fuel) is Some {
                after.lemma_settle_more(leader, pending, deadline, fuel, more);
            }
        }
    }

    /// However many steps are allowed, a request has one outcome.
    pub proof fn law_answer_is_determined(
        self,
        client_id: u64,
        leader: NodeId,
        request: ClientRequestView,
        fuel: nat,
    )
        requires
            self.propose_as(client_id, leader, request, fuel) is Some,
        ensures
            self.answers(client_id, leader, request),
            self.answered(client_id, leader, request) == self.propose_as(
                client_id,
                leader,
                request,
                fuel,
            )->0,
    {
        let chosen = choose|fuel: nat|
            (#[trigger] self.propose_as(client_id, leader, request, fuel)) is Some;
        if chosen <= fuel {
            self.lemma_propose_more(client_id, leader, request, chosen, fuel);
        } else {
            self.lemma_propose_more(client_id, leader, request, fuel, chosen);
        }
    }

    /// A cluster with time for a request answers it.
    pub proof fn lemma_time_is_enough(
        self,
        client_id: u64,
        leader: NodeId,
        request: ClientRequestView,
        max_steps: nat,
    )
        requires
            self.has_time_for(leader, request, max_steps),
        ensures
            self.answers(client_id, leader, request),
    {
        let numbered = ClusterModel {
            next_operation_id: (self.next_operation_id + 1) as u64,
            ..self
        };
        if let Some((after, Ok(pending))) = numbered.begin(leader, request) {
            let deadline = (after.now_ms + CLIENT_TIMEOUT_MS) as u64;
            if after.run_past(deadline, max_steps) is Some {
                after.lemma_passing_settles(leader, pending, deadline, max_steps);
            }
        }
        assert(self.propose_as(client_id, leader, request, max_steps) is Some);
    }
}

/// A started read or write keeps the node's place in the cluster.
pub proof fn lemma_start_is_addressed(
    node: NodeModel<MemoryStateMachine>,
    request: ClientRequestView,
)
    ensures
        node.start_read().0.id == node.id,
        node.start_read().0.peers == node.peers,
        node.start_read().1 matches Ok((_, messages)) ==> is_from_node(node, messages, None),
        node.start_write(request).0.id == node.id,
        node.start_write(request).0.peers == node.peers,
        node.start_write(request).1 matches Ok((_, messages)) ==> is_from_node(
            node,
            messages,
            None,
        ),
{
}

impl Cluster {
    /// What the client is answered now, if it is not to wait any longer.
    fn current_outcome(&self, leader: NodeId, pending: &PendingRequest) -> (reply: Option<
        ClientReply,
    >)
        requires
            self@.well_formed(),
            self@.has_node(leader),
        ensures
            optional_reply(reply) == self@.outcome(leader, pending@),
    {
        let node = &self.nodes[leader];
        assert(self@.is_at_home(leader as int));
        let term: Term = match pending {
            PendingRequest::Write(write) => {
                if node.write_committed_and_applied(*write) {
                    return Some(
                        ClientReply {
                            success: true,
                            leader_id: Some(leader),
                            response: Some("committed".to_string()),
                        },
                    );
                }
                write.term
            },
            PendingRequest::Read(read, key) => {
                if node.read_committed_and_applied(*read) {
                    return match node.read_value(key.as_str()) {
                        Ok(response) => Some(
                            ClientReply { success: true, leader_id: Some(leader), response },
                        ),
                        Err(_) => Some(ClientReply::refused(Some(leader))),
                    };
                }
                read.term
            },
        };
        if node.role() != Role::Leader || node.current_term() != term || self.stopped.contains(
            &leader,
        ) {
            return Some(ClientReply::refused(self.leader()));
        }
        None
    }

    /// Puts a node's messages on their way.
    fn enqueue_from(&mut self, id: NodeId, messages: Vec<Message>) -> (sent: bool)
        requires
            old(self)@.well_formed(),
            old(self)@.has_node(id),
            is_from_node(old(self)@.nodes[id as int], messages.deep_view(), None),
        ensures
            sent == (old(self)@.enqueue(messages.deep_view()) is Some),
            sent ==> final(self)@ == old(self)@.enqueue(messages.deep_view())->0
                && final(self)@.well_formed() && final(self)@.nodes == old(self)@.nodes,
    {
        proof {
            self@.lemma_node_messages(id, messages.deep_view(), None);
            self@.lemma_enqueue(messages.deep_view());
        }
        self.enqueue(messages)
    }

    /// Lets the leader take a write or a read. `None` if a limit of the machine is
    /// in the way; the cluster is then of no further use.
    fn begin(&mut self, leader: NodeId, request: ClientRequest) -> (begun: Option<
        Result<PendingRequest, ClientReply>,
    >)
        requires
            old(self)@.well_formed(),
            old(self)@.has_node(leader),
        ensures
            match (begun, old(self)@.begin(leader, request@)) {
                (Some(Ok(pending)), Some((after, Ok(expected)))) => pending@ == expected
                    && final(self)@ == after,
                (Some(Err(reply)), Some((after, Err(expected)))) => reply@ == expected
                    && final(self)@ == after,
                (None, None) => true,
                _ => false,
            },
            begun is Some ==> final(self)@.well_formed() && final(self)@.has_node(leader),
    {
        let ghost before = self@;
        let ghost node = before.nodes[leader as int];
        proof {
            assert(before.is_at_home(leader as int));
            lemma_start_is_addressed(node, request@);
        }
        match request {
            ClientRequest::Get { key } => {
                let started = self.nodes[leader].start_client_read();
                let ghost next = node.start_read().0;
                assert(self@.nodes =~= before.nodes.update(leader as int, next));
                assert(self@ =~= before.with_node(leader, next));
                proof {
                    before.lemma_with_node_well_formed(leader, next);
                }
                match started {
                    Err(reply) => Some(Err(reply)),
                    Ok((read, messages)) => {
                        if self.enqueue_from(leader, messages) {
                            Some(Ok(PendingRequest::Read(read, key)))
                        } else {
                            None
                        }
                    },
                }
            },
            _ => {
                if self.nodes[leader].last_log_index() >= usize::MAX - 1 {
                    return None;
                }
                let ghost asked = request@;
                let started = self.nodes[leader].start_client_write(request);
                let ghost next = node.start_write(asked).0;
                assert(self@.nodes =~= before.nodes.update(leader as int, next));
                assert(self@ =~= before.with_node(leader, next));
                proof {
                    before.lemma_with_node_well_formed(leader, next);
                }
                match started {
                    Err(reply) => Some(Err(reply)),
                    Ok((write, messages)) => {
                        if self.enqueue_from(leader, messages) {
                            Some(Ok(PendingRequest::Write(write)))
                        } else {
                            None
                        }
                    },
                }
            },
        }
    }

    /// Runs until the client is answered or `deadline` has passed.
    fn settle(
        &mut self,
        leader: NodeId,
        pending: &PendingRequest,
        deadline: u64,
        Ghost(fuel): Ghost<nat>,
    ) -> (reply: ClientReply)
        requires
            old(self)@.well_formed(),
            old(self)@.has_node(leader),
            old(self)@.settle(leader, pending@, deadline, fuel) is Some,
        ensures
            old(self)@.settle(leader, pending@, deadline, fuel) == Some((final(self)@, reply@)),
            final(self)@.well_formed(),
            final(self)@.has_node(leader),
    {
        let ghost expected = self@.settle(leader, pending@, deadline, fuel);
        let ghost mut left = fuel;
        while self.now_ms <= deadline
            invariant
                expected == old(self)@.settle(leader, pending@, deadline, fuel),
                expected is Some,
                self@.well_formed(),
                self@.has_node(leader),
                self@.settle(leader, pending@, deadline, left) == expected,
            decreases left,
        {
            if let Some(reply) = self.current_outcome(leader, pending) {
                return reply;
            }
            self.step();
            proof {
                left = (left - 1) as nat;
            }
        }
        ClientReply::refused(self.nodes[leader].leader_id())
    }

    /// Lets the leader forget a read once it is answered.
    fn release(&mut self, leader: NodeId, pending: PendingRequest)
        requires
            old(self)@.well_formed(),
            old(self)@.has_node(leader),
        ensures
            final(self)@ == old(self)@.released(leader, pending@),
            final(self)@.well_formed(),
    {
        if let PendingRequest::Read(read, _) = pending {
            let ghost before = self@;
            let ghost node = before.nodes[leader as int];
            assert(before.is_at_home(leader as int));
            self.nodes[leader].finish_read(read);
            proof {
                let next = NodeModel {
                    pending_reads: node.pending_reads.remove(read.id),
                    ..node
                };
                assert(self@.nodes =~= before.nodes.update(leader as int, next));
                assert(self@ =~= before.with_node(leader, next));
                before.lemma_with_node_well_formed(leader, next);
            }
        }
    }

    /// Sees to a request, without a record of it.
    fn serve(&mut self, leader: NodeId, request: ClientRequest, Ghost(fuel): Ghost<nat>) -> (reply:
        ClientReply)
        requires
            old(self)@.well_formed(),
            old(self)@.serve(leader, request@, fuel) is Some,
        ensures
            old(self)@.serve(leader, request@, fuel) == Some((final(self)@, reply@)),
            final(self)@.well_formed(),
    {
        if leader >= self.nodes.len() || self.stopped.contains(&leader) {
            return ClientReply::refused(None);
        }
        if let ClientRequest::LocalGet { .. } = &request {
            let ghost before = self@;
            let (reply, _) = self.nodes[leader].handle_client_request(request);
            assert(self@.nodes =~= before.nodes);
            assert(self@ =~= before);
            return reply;
        }
        match self.begin(leader, request) {
            Some(Ok(pending)) => {
                let deadline: u64 = self.now_ms + CLIENT_TIMEOUT_MS;
                let reply = self.settle(leader, &pending, deadline, Ghost(fuel));
                self.release(leader, pending);
                reply
            },
            Some(Err(reply)) => reply,
            None => ClientReply::refused(None),
        }
    }

    /// Sends a request to a node and waits for the answer, and records both under
    /// client zero.
    pub fn propose(&mut self, leader: NodeId, request: ClientRequest) -> (reply: ClientReply)
        requires
            old(self)@.well_formed(),
            old(self)@.answers(0, leader, request@),
        ensures
            (final(self)@, reply@) == old(self)@.answered(0, leader, request@),
            final(self)@.well_formed(),
    {
        self.propose_as(0, leader, request)
    }

    /// Sends a client's request to a node and waits for the answer, and records
    /// both. A write is answered once the leader has committed and applied it; a
    /// read once a majority has confirmed the leader since the read began. Either
    /// is given up when the node no longer leads or after two seconds.
    pub fn propose_as(&mut self, client_id: u64, leader: NodeId, request: ClientRequest) -> (reply:
        ClientReply)
        requires
            old(self)@.well_formed(),
            old(self)@.answers(client_id, leader, request@),
        ensures
            (final(self)@, reply@) == old(self)@.answered(client_id, leader, request@),
            final(self)@.well_formed(),
    {
        let ghost before = self@;
        let ghost fuel = choose|fuel: nat|
            (#[trigger] before.propose_as(client_id, leader, request@, fuel)) is Some;
        let operation_id: u64 = self.next_operation_id;
        self.next_operation_id = operation_id + 1;
        let invoked_at: u64 = self.now_ms;
        let ghost numbered = self@;
        proof {
            before.lemma_same_nodes_well_formed(numbered);
        }
        let reply = self.serve(leader, request.clone(), Ghost(fuel));
        let ghost after = self@;
        self.history.record(
            operation_id,
            client_id,
            invoked_at,
            self.now_ms,
            request,
            reply.clone(),
        );
        proof {
            after.lemma_same_nodes_well_formed(self@);
            let (expected, _) = before.propose_as(client_id, leader, request@, fuel)->0;
            assert(self@ =~= expected);
        }
        reply
    }

    /// Whether a request can be taken, and `max_steps` steps are enough for the
    /// time that the client waits.
    pub fn has_time_for(&self, leader: NodeId, request: &ClientRequest, max_steps: usize) -> (enough:
        bool)
        requires
            self@.well_formed(),
        ensures
            enough == self@.has_time_for(leader, request@, max_steps as nat),
    {
        if self.next_operation_id == u64::MAX {
            return false;
        }
        if leader >= self.nodes.len() || self.stopped.contains(&leader) {
            return true;
        }
        if let ClientRequest::LocalGet { .. } = request {
            return true;
        }
        let mut probe = self.duplicate();
        probe.next_operation_id = probe.next_operation_id + 1;
        proof {
            self@.lemma_same_nodes_well_formed(probe@);
        }
        match probe.begin(leader, request.clone()) {
            None => false,
            Some(Err(_)) => true,
            Some(Ok(_)) => probe.now_ms <= u64::MAX - CLIENT_TIMEOUT_MS && probe.can_run_past(
                probe.now_ms + CLIENT_TIMEOUT_MS,
                max_steps,
            ),
        }
    }

    /// Sends a client's request if [`Cluster::has_time_for`] allows it; otherwise
    /// returns `None` and leaves the cluster as it was.
    pub fn checked_propose_as(
        &mut self,
        client_id: u64,
        leader: NodeId,
        request: ClientRequest,
        max_steps: usize,
    ) -> (reply: Option<ClientReply>)
        requires
            old(self)@.well_formed(),
        ensures
            (reply is Some) == old(self)@.has_time_for(leader, request@, max_steps as nat),
            reply matches Some(answer) ==> (final(self)@, answer@) == old(self)@.answered(
                client_id,
                leader,
                request@,
            ),
            reply is None ==> final(self)@ == old(self)@,
            final(self)@.well_formed(),
    {
        if !self.has_time_for(leader, &request, max_steps) {
            return None;
        }
        proof {
            self@.lemma_time_is_enough(client_id, leader, request@, max_steps as nat);
        }
        Some(self.propose_as(client_id, leader, request))
    }

    /// Sends a request under client zero if [`Cluster::has_time_for`] allows it;
    /// otherwise returns `None` and leaves the cluster as it was.
    pub fn checked_propose(&mut self, leader: NodeId, request: ClientRequest, max_steps: usize) -> (
    reply: Option<ClientReply>)
        requires
            old(self)@.well_formed(),
        ensures
            (reply is Some) == old(self)@.has_time_for(leader, request@, max_steps as nat),
            reply matches Some(answer) ==> (final(self)@, answer@) == old(self)@.answered(
                0,
                leader,
                request@,
            ),
            reply is None ==> final(self)@ == old(self)@,
            final(self)@.well_formed(),
    {
        if !self.has_time_for(leader, &request, max_steps) {
            return None;
        }
        proof {
            self@.lemma_time_is_enough(0, leader, request@, max_steps as nat);
        }
        Some(self.propose(leader, request))
    }
}

} // verus!
