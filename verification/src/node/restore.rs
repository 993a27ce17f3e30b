//! Building nodes: new ones, from saved parts, and copies.
use crate::error::Error;
use crate::node::model::larger;
use crate::node::model::smaller;
use crate::node::model::NodeModel;
use crate::node::quorum::keys_of;
use crate::node::Node;
use crate::node::PartialSnapshot;
use crate::node::PendingReadState;
use crate::state_machine::MemoryStateMachine;
use crate::state_machine::StateMachine;
use crate::types::copy_bytes;
use crate::types::copy_entries;
use crate::types::entries_view;
use crate::types::LogEntry;
use crate::types::LogEntryView;
use crate::types::LogIndex;
use crate::types::NodeId;
use crate::types::Snapshot;
use crate::types::SnapshotView;
use crate::types::Term;
use std::collections::HashMap;
use std::collections::HashSet;
use vstd::prelude::*;

verus! {

broadcast use vstd::std_specs::hash::group_hash_axioms;

impl<S: StateMachine> NodeModel<S> {
    /// A node with a saved term, vote and log, and what was committed of it
    /// applied.
    pub open spec fn from_parts(
        id: NodeId,
        peers: Seq<NodeId>,
        current_term: Term,
        voted_for: Option<NodeId>,
        log: Seq<LogEntryView>,
        commit_index: LogIndex,
        state: S::V,
    ) -> Self {
        NodeModel {
            current_term,
            voted_for,
            log,
            commit_index: smaller(commit_index as int, log.len() as int) as LogIndex,
            ..NodeModel::<S>::initial(id, peers, state)
        }.apply_committed().0
    }

    /// The state once it has caught up with the snapshot that the log starts at,
    /// or why it cannot.
    pub open spec fn caught_up_state(
        log: Seq<LogEntryView>,
        snapshot: SnapshotView,
        state: S::V,
    ) -> Result<S::V, Error> {
        match snapshot.validity() {
            Err(error) => Err(error),
            Ok(()) => {
                if log.len() == 0 || log[0].term != snapshot.last_included_term {
                    Err(Error::LogBoundaryMismatch)
                } else if S::applied_index(state) >= snapshot.last_included_index {
                    Ok(state)
                } else {
                    let (restored, result) = S::restored(state, snapshot.state);
                    match result {
                        Err(error) => Err(error),
                        Ok(()) => {
                            if S::applied_index(restored) < snapshot.last_included_index {
                                Err(Error::RestoredStateBehindSnapshot)
                            } else {
                                Ok(restored)
                            }
                        },
                    }
                }
            },
        }
    }

    /// The node that saved parts describe, before its committed entries are
    /// applied, or why they describe none.
    pub open spec fn persisted_parts(
        id: NodeId,
        peers: Seq<NodeId>,
        current_term: Term,
        voted_for: Option<NodeId>,
        log: Seq<LogEntryView>,
        commit_index: LogIndex,
        snapshot: Option<SnapshotView>,
        state: S::V,
    ) -> Result<Self, Error> {
        let caught_up = match snapshot {
            None => Ok(state),
            Some(boundary) => Self::caught_up_state(log, boundary, state),
        };
        match caught_up {
            Err(error) => Err(error),
            Ok(state) => {
                let base = match snapshot {
                    None => 0,
                    Some(boundary) => boundary.last_included_index,
                };
                let node = NodeModel {
                    current_term,
                    voted_for,
                    log,
                    log_base_index: base,
                    snapshot,
                    ..NodeModel::<S>::initial(id, peers, state)
                };
                Ok(
                    NodeModel {
                        commit_index: larger(
                            smaller(commit_index as int, node.last_index()),
                            base as int,
                        ) as LogIndex,
                        ..node
                    },
                )
            },
        }
    }

    /// The node that saved parts describe, with its committed entries applied.
    pub open spec fn from_persisted_parts(
        id: NodeId,
        peers: Seq<NodeId>,
        current_term: Term,
        voted_for: Option<NodeId>,
        log: Seq<LogEntryView>,
        commit_index: LogIndex,
        snapshot: Option<SnapshotView>,
        state: S::V,
    ) -> Result<Self, Error> {
        match Self::persisted_parts(
            id,
            peers,
            current_term,
            voted_for,
            log,
            commit_index,
            snapshot,
            state,
        ) {
            Err(error) => Err(error),
            Ok(node) => match node.apply_committed().1 {
                Err(error) => Err(error),
                Ok(()) => Ok(node.apply_committed().0),
            },
        }
    }
}

/// The log, if it starts at the snapshot's boundary, ends within what the machine
/// can count.
pub open spec fn fits_machine(log: Seq<LogEntryView>, snapshot: Option<SnapshotView>) -> bool {
    snapshot matches Some(boundary) ==> {
        boundary.valid() && log.len() > 0 && log[0].term == boundary.last_included_term
            ==> boundary.last_included_index + log.len() <= usize::MAX
    }
}

/// The node inside as a mathematical value.
pub open spec fn node_result<S: StateMachine>(result: Result<Node<S>, Error>) -> Result<
    NodeModel<S>,
    Error,
> {
    match result {
        Ok(node) => Ok(node@),
        Err(error) => Err(error),
    }
}

impl Node<MemoryStateMachine> {
    /// A node that has seen nothing yet, with its state in memory.
    pub fn new(id: NodeId, peers: Vec<NodeId>) -> (node: Self)
        requires
            id < u64::MAX,
            peers.len() < usize::MAX,
        ensures
            node@ == NodeModel::<MemoryStateMachine>::initial(
                id,
                peers@,
                MemoryStateMachine::initial(),
            ),
            node@.well_formed(),
    {
        Node::new_with_state_machine(id, peers, MemoryStateMachine::new())
    }

    /// A node with a saved term, vote and log, with its state in memory.
    pub fn from_parts(
        id: NodeId,
        peers: Vec<NodeId>,
        current_term: Term,
        voted_for: Option<NodeId>,
        log: Vec<LogEntry>,
        commit_index: LogIndex,
    ) -> (node: Self)
        requires
            id < u64::MAX,
            peers.len() < usize::MAX,
            log.len() < usize::MAX,
        ensures
            node@ == NodeModel::<MemoryStateMachine>::from_parts(
                id,
                peers@,
                current_term,
                voted_for,
                log.deep_view(),
                commit_index,
                MemoryStateMachine::initial(),
            ),
            node@.well_formed(),
    {
        Node::from_parts_with_state_machine(
            id,
            peers,
            current_term,
            voted_for,
            log,
            commit_index,
            MemoryStateMachine::new(),
        )
    }
}

impl<S: StateMachine> Node<S> {
    /// A node with a saved term, vote and log around the given state machine.
    pub fn from_parts_with_state_machine(
        id: NodeId,
        peers: Vec<NodeId>,
        current_term: Term,
        voted_for: Option<NodeId>,
        log: Vec<LogEntry>,
        commit_index: LogIndex,
        state_machine: S,
    ) -> (node: Self)
        requires
            id < u64::MAX,
            peers.len() < usize::MAX,
            log.len() < usize::MAX,
        ensures
            node@ == NodeModel::<S>::from_parts(
                id,
                peers@,
                current_term,
                voted_for,
                log.deep_view(),
                commit_index,
                state_machine@,
            ),
            node@.well_formed(),
    {
        let mut node = Node::new_with_state_machine(id, peers, state_machine);
        node.current_term = current_term;
        node.voted_for = voted_for;
        node.commit_index = if commit_index < log.len() {
            commit_index
        } else {
            log.len()
        };
        node.log = log;
        let _ = node.apply_committed();
        node
    }

    /// Brings a state machine forward to the snapshot that its log starts at.
    fn catch_up(log: &Vec<LogEntry>, snapshot: &Snapshot, state_machine: &mut S) -> (result: Result<
        (),
        Error,
    >)
        ensures
            NodeModel::<S>::caught_up_state(log.deep_view(), snapshot@, old(state_machine)@) == (
            match result {
                Ok(()) => Ok(final(state_machine)@),
                Err(error) => Err(error),
            }),
    {
        match snapshot.validate() {
            Ok(()) => {},
            Err(error) => {
                return Err(error);
            },
        }
        if log.len() == 0 {
            return Err(Error::LogBoundaryMismatch);
        }
        assert(log.deep_view()[0] == log[0]@);
        if log[0].term != snapshot.last_included_term {
            return Err(Error::LogBoundaryMismatch);
        }
        if state_machine.last_applied() < snapshot.last_included_index {
            match state_machine.restore_snapshot(&snapshot.state) {
                Ok(()) => {},
                Err(error) => {
                    return Err(error);
                },
            }
            if state_machine.last_applied() < snapshot.last_included_index {
                return Err(Error::RestoredStateBehindSnapshot);
            }
        }
        Ok(())
    }

    /// The node that saved parts describe, with its committed entries applied.
    /// The state machine may have kept its own state or may be restored from the
    /// snapshot.
    pub fn from_persisted_parts(
        id: NodeId,
        peers: Vec<NodeId>,
        current_term: Term,
        voted_for: Option<NodeId>,
        log: Vec<LogEntry>,
        commit_index: LogIndex,
        snapshot: Option<Snapshot>,
        state_machine: S,
    ) -> (result: Result<Self, Error>)
        requires
            id < u64::MAX,
            peers.len() < usize::MAX,
            log.len() < usize::MAX,
            fits_machine(log.deep_view(), snapshot.deep_view()),
        ensures
            node_result(result) == NodeModel::<S>::from_persisted_parts(
                id,
                peers@,
                current_term,
                voted_for,
                log.deep_view(),
                commit_index,
                snapshot.deep_view(),
                state_machine@,
            ),
            result matches Ok(node) ==> node@.well_formed(),
    {
        let mut state_machine = state_machine;
        let mut base: LogIndex = 0;
        if let Some(boundary) = &snapshot {
            match Self::catch_up(&log, boundary, &mut state_machine) {
                Ok(()) => {},
                Err(error) => {
                    return Err(error);
                },
            }
            base = boundary.last_included_index;
        }
        let mut node = Node::new_with_state_machine(id, peers, state_machine);
        node.current_term = current_term;
        node.voted_for = voted_for;
        node.log = log;
        node.snapshot = snapshot;
        node.log_base_index = base;
        let last: LogIndex = node.last_log_index();
        let reached: LogIndex = if commit_index < last {
            commit_index
        } else {
            last
        };
        node.commit_index = if reached > base {
            reached
        } else {
            base
        };
        match node.apply_committed() {
            Ok(()) => Ok(node),
            Err(error) => Err(error),
        }
    }

    /// The state machine itself.
    pub closed spec fn machine(&self) -> S {
        self.state_machine
    }
}

/// A copy of a set.
pub(crate) fn copy_set(set: &HashSet<NodeId>) -> (copy: HashSet<NodeId>)
    ensures
        copy@ == set@,
{
    let mut copy: HashSet<NodeId> = HashSet::new();
    for member in members: set.iter()
        invariant
            members.seq().unref().to_set() == set@,
            copy@ == members.seq().unref().take(members.index()).to_set(),
            members.index() == members.seq().len() ==> copy@ == set@,
    {
        let ghost upto = members.index();
        let ghost all = members.seq().unref();
        copy.insert(*member);
        assert(all.take(upto + 1) =~= all.take(upto).push(*member));
        proof {
            all.take(upto).lemma_push_to_set_commute(*member);
        }
        assert(upto + 1 == all.len() ==> all.take(upto + 1) =~= all);
    }
    copy
}

impl Clone for PendingReadState {
    fn clone(&self) -> (copy: Self)
        ensures
            copy@ == self@,
    {
        PendingReadState {
            term: self.term,
            barrier_index: self.barrier_index,
            acknowledgements: copy_set(&self.acknowledgements),
        }
    }
}

/// A copy of the pending reads.
fn copy_reads(reads: &HashMap<u64, PendingReadState>) -> (copy: HashMap<u64, PendingReadState>)
    ensures
        super::reads_view(copy@) == super::reads_view(reads@),
{
    let keys = keys_of(reads);
    let mut copy: HashMap<u64, PendingReadState> = HashMap::new();
    let mut i: usize = 0;
    while i < keys.len()
        invariant
            keys@.to_set() == reads@.dom(),
            i <= keys.len(),
            forall|key: u64| #[trigger]
                copy@.contains_key(key) <==> exists|j: int| 0 <= j < i && keys[j] == key,
            forall|key: u64| #[trigger]
                copy@.contains_key(key) ==> reads@.contains_key(key) && copy@[key]@
                    == reads@[key]@,
        decreases keys.len() - i,
    {
        let key: u64 = keys[i];
        assert(keys@.to_set().contains(keys@[i as int]));
        let ghost before = copy@;
        if let Some(read) = reads.get(&key) {
            copy.insert(key, read.clone());
        }
        assert forall|k: u64| #[trigger]
            copy@.contains_key(k) <==> exists|j: int| 0 <= j < i + 1 && keys[j] == k by {
            if before.contains_key(k) {
                let j = choose|j: int| 0 <= j < i && keys[j] == k;
                assert(0 <= j < i + 1 && keys[j] == k);
            }
            if k == key {
                assert(0 <= i < i + 1 && keys[i as int] == k);
            }
        }
        i += 1;
    }
    assert forall|key: u64| copy@.contains_key(key) <==> reads@.contains_key(key) by {
        if reads@.contains_key(key) {
            assert(keys@.to_set().contains(key));
            let j = choose|j: int| 0 <= j < keys.len() && keys[j] == key;
            assert(0 <= j < i && keys[j] == key);
        }
    }
    assert(super::reads_view(copy@) =~= super::reads_view(reads@));
    copy
}

impl Clone for PartialSnapshot {
    fn clone(&self) -> (copy: Self)
        ensures
            copy@ == self@,
    {
        let bytes = copy_bytes(self.bytes.as_slice(), 0, self.bytes.len());
        assert(bytes@ =~= self.bytes@);
        PartialSnapshot {
            term: self.term,
            leader_id: self.leader_id,
            total_size: self.total_size,
            bytes,
        }
    }
}

impl<S: StateMachine + Clone> Clone for Node<S> {
    fn clone(&self) -> (copy: Self)
        ensures
            copy@ == (NodeModel { state: copy.machine()@, ..self@ }),
            self@.state == self.machine()@,
            cloned::<S>(self.machine(), copy.machine()),
    {
        let log = copy_entries(self.log.as_slice(), 0, self.log.len());
        assert(entries_view(self.log@) =~= self.log.deep_view());
        assert(log.deep_view() =~= self.log.deep_view());
        let peers = self.peers.clone();
        assert(peers@ =~= self.peers@);
        let copy = Node {
            id: self.id,
            peers,
            role: self.role,
            current_term: self.current_term,
            voted_for: self.voted_for,
            log,
            log_base_index: self.log_base_index,
            snapshot: match &self.snapshot {
                Some(snapshot) => Some(snapshot.clone()),
                None => None,
            },
            commit_index: self.commit_index,
            last_applied: self.last_applied,
            state_machine: self.state_machine.clone(),
            leader_id: self.leader_id,
            election_deadline: self.election_deadline,
            last_heartbeat_at: self.last_heartbeat_at,
            last_leader_contact: self.last_leader_contact,
            rng_state: self.rng_state,
            votes_granted: self.votes_granted,
            granted_voters: copy_set(&self.granted_voters),
            next_index: self.next_index.clone(),
            match_index: self.match_index.clone(),
            term_start_index: self.term_start_index,
            pre_vote_term: self.pre_vote_term,
            pre_vote_granted: copy_set(&self.pre_vote_granted),
            last_quorum_contact: self.last_quorum_contact.clone(),
            pending_reads: copy_reads(&self.pending_reads),
            next_read_id: self.next_read_id,
            leader_transfer_target: self.leader_transfer_target,
            incoming_snapshot: match &self.incoming_snapshot {
                Some((id, transfer)) => Some((*id, transfer.clone())),
                None => None,
            },
        };
        copy
    }
}

} // verus!
