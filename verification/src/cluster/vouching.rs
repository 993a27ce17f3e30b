//! Whether followers commit only what they may.
use crate::cluster::calls::CallView;
use crate::cluster::model::ClusterModel;
use crate::cluster::model::PendingRequestView;
use crate::cluster::CLIENT_TIMEOUT_MS;
use crate::node::model::larger;
use crate::node::model::NodeModel;
use crate::node::replication::lemma_agreement_bounds;
use crate::state_machine::MemoryStateMachine;
use crate::state_machine::StateMachine;
use crate::types::AppendEntriesView;
use crate::types::ClientRequestView;
use crate::types::NodeId;
use crate::types::RpcView;
use crate::types::Term;
use vstd::prelude::*;

verus! {

impl<S: StateMachine> NodeModel<S> {
    /// An accepted request lifts the commit index past what it vouches for.
    pub open spec fn commits_unvouched(self, request: AppendEntriesView) -> bool {
        self.accepts_append(request) && self.appended(request).commit_index > larger(
            self.commit_index as int,
            request.prev_log_index + request.entries.len(),
        )
    }
}

/// Some node has committed an entry of `term` at `index`.
pub open spec fn is_committed_somewhere(
    nodes: Seq<NodeModel<MemoryStateMachine>>,
    index: int,
    term: Term,
) -> bool {
    exists|i: int|
        0 <= i < nodes.len() && (#[trigger] nodes[i]).commit_index >= index && nodes[i].term_at(
            index,
        ) == Some(term)
}

/// The request makes the node commit, past what it vouches for, an entry that no node has
/// committed.
pub open spec fn strays(
    nodes: Seq<NodeModel<MemoryStateMachine>>,
    id: NodeId,
    request: AppendEntriesView,
) -> bool {
    let node = nodes[id as int];
    let after = node.appended(request);
    let index = after.commit_index as int;
    &&& node.commits_unvouched(request)
    &&& !is_committed_somewhere(nodes, index, after.term_or_zero(index))
}

/// A node strays only by what it holds already: the request changes nothing in its log,
/// which reaches further than the request, and where it commits up to, no node that has
/// committed as far has the entry that it has.
pub proof fn law_node_strays_by_its_own_entries(
    nodes: Seq<NodeModel<MemoryStateMachine>>,
    id: NodeId,
    request: AppendEntriesView,
)
    requires
        0 <= id < nodes.len(),
        nodes[id as int].well_formed(),
        strays(nodes, id, request),
    ensures
        ({
            let node = nodes[id as int];
            let after = node.appended(request);
            let index = after.commit_index as int;
            let upto = request.prev_log_index + request.entries.len();
            &&& after.log == node.log
            &&& upto < index <= node.last_index()
            &&& index <= request.leader_commit
            &&& forall|i: int|
                0 <= i < nodes.len() && (#[trigger] nodes[i]).commit_index >= index
                    ==> nodes[i].term_at(index) != after.term_at(index)
        }),
{
    let node = nodes[id as int];
    let after = node.appended(request);
    let first = request.prev_log_index + 1;
    lemma_agreement_bounds(node, first, request.entries);
    let kept = node.agreement(first, request.entries);
    if kept < request.entries.len() {
        assert(after.log == node.log.take(first + kept - node.first_index())
            + request.entries.skip(kept as int));
    }
    assert(after.term_at(after.commit_index as int) is Some);
}

impl ClusterModel {
    /// The message at the position makes no node stray as it arrives.
    pub open spec fn arrives_vouched(self, position: int) -> bool {
        let message = self.messages[position].message;
        self.is_connected(message.from, message.to) ==> match message.rpc {
            RpcView::AppendEntries(request) => !strays(self.nodes, message.to, request),
            _ => true,
        }
    }

    /// No node strays in the next step.
    #[verifier::opaque]
    pub open spec fn step_is_vouched(self) -> bool {
        let (present, position) = self.faults_applied().next_ready();
        match position {
            Some(at) => present.arrives_vouched(at),
            None => true,
        }
    }

    /// No node strays in that many steps.
    pub open spec fn steps_are_vouched(self, count: nat) -> bool
        decreases count,
    {
        count > 0 ==> self.step_is_vouched() && match self.step() {
            Some(next) => next.steps_are_vouched((count - 1) as nat),
            None => true,
        }
    }

    /// No node strays before the clock passes `deadline`, within `fuel` steps.
    pub open spec fn run_is_vouched(self, deadline: u64, fuel: nat) -> bool
        decreases fuel,
    {
        self.now_ms <= deadline && fuel > 0 ==> self.step_is_vouched() && match self.step() {
            Some(next) => next.run_is_vouched(deadline, (fuel - 1) as nat),
            None => true,
        }
    }

    /// No node strays before the request is answered, within `fuel` steps.
    pub open spec fn settles_vouched(
        self,
        leader: NodeId,
        pending: PendingRequestView,
        deadline: u64,
        fuel: nat,
    ) -> bool
        decreases fuel,
    {
        self.now_ms <= deadline && self.outcome(leader, pending) is None && fuel > 0
            ==> self.step_is_vouched() && match self.step() {
            Some(next) => next.settles_vouched(leader, pending, deadline, (fuel - 1) as nat),
            None => true,
        }
    }

    /// No node strays while a client is served, within `fuel` steps.
    pub open spec fn proposes_vouched(
        self,
        leader: NodeId,
        request: ClientRequestView,
        fuel: nat,
    ) -> bool {
        self.has_node(leader) && !self.stopped.contains(leader) && request !is LocalGet
            ==> match self.numbered().begin(leader, request) {
            Some((begun, Ok(pending))) => begun.settles_vouched(
                leader,
                pending,
                (begun.now_ms + CLIENT_TIMEOUT_MS) as u64,
                fuel,
            ),
            _ => true,
        }
    }

    /// No node strays during the call.
    #[verifier::opaque]
    pub open spec fn call_is_vouched(self, call: CallView) -> bool {
        match call {
            CallView::RunFor { duration_ms } => forall|fuel: nat| #[trigger]
                self.run_is_vouched((self.now_ms + duration_ms) as u64, fuel),
            CallView::RunSteps { count } => self.steps_are_vouched(count),
            CallView::Propose { client_id, node, request } => forall|fuel: nat| #[trigger]
                self.proposes_vouched(node, request, fuel),
            _ => true,
        }
    }

    pub proof fn lemma_call_proposes_vouched(
        self,
        client_id: u64,
        node: NodeId,
        request: ClientRequestView,
        fuel: nat,
    )
        requires
            self.call_is_vouched((CallView::Propose { client_id, node, request })),
        ensures
            self.proposes_vouched(node, request, fuel),
    {
        reveal(ClusterModel::call_is_vouched);
        let call = CallView::Propose { client_id, node, request };
        assert(self.call_is_vouched(call));
        assert(call matches CallView::Propose { node: at, request: asked, .. }
            && self.proposes_vouched(at, asked, fuel));
    }

    /// No node strays during the calls.
    pub open spec fn stays_vouched(self, calls: Seq<CallView>) -> bool
        decreases calls.len(),
    {
        calls.len() > 0 ==> self.call_is_vouched(calls[0]) && match self.called(calls[0]) {
            Some((next, _)) => next.stays_vouched(calls.skip(1)),
            None => true,
        }
    }
}

} // verus!
