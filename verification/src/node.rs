//! One member of a cluster: elections, replication, snapshots and reads.
use crate::error::Error;
use crate::node::model::clock_has_room;
use crate::node::model::smaller;
use crate::node::model::NodeModel;
use crate::node::model::PartialSnapshotModel;
use crate::node::model::PendingReadModel;
use crate::state_machine::lookup_view;
use crate::state_machine::MemoryStateMachine;
use crate::state_machine::StateMachine;
use crate::types::copy_entries;
use crate::types::entries_view;
use crate::types::LogEntry;
use crate::types::LogIndex;
use crate::types::Message;
use crate::types::NodeId;
use crate::types::Role;
use crate::types::Rpc;
use crate::types::Snapshot;
use crate::types::Term;
use std::collections::HashMap;
use std::collections::HashSet;
use vstd::prelude::*;

pub mod model;
pub mod clients;
mod election;
pub mod events;
pub mod laws;
mod quorum;
pub mod replication;
pub mod restore;
pub mod snapshots;

verus! {

broadcast use vstd::std_specs::hash::group_hash_axioms;

/// How often a leader sends heartbeats.
pub const HEARTBEAT_MS: u64 = 50;

/// The shortest election timeout.
pub const ELECTION_MIN_MS: u64 = 150;

/// How many election timeouts there are to draw from.
pub const ELECTION_SPAN_MS: u64 = 151;

/// How long a contact counts: for the leader's quorum, and for a follower that
/// refuses to help replace its leader.
pub const QUORUM_LEASE_MS: u64 = 300;

/// The most entries that one message carries.
pub const MAX_APPEND_ENTRIES: usize = 64;

/// The most bytes of a snapshot that one chunk carries.
pub const SNAPSHOT_CHUNK_BYTES: usize = 65536;

/// The most bytes that a chunked snapshot may have.
pub const MAX_TRANSFER_BYTES: usize = 16777216;

/// The multiplier of the generator that election timeouts are drawn from.
pub const RANDOM_MULTIPLIER: u64 = 6364136223846793005;

/// What a node's id is multiplied by to seed its generator.
pub const SEED_MULTIPLIER: u64 = 0x9e37_79b9_7f4a_7c15;

/// A write on its way: done once the entry is committed and applied.
#[derive(Clone, Copy, Debug, PartialEq, Eq, Structural)]
pub struct PendingWrite {
    pub index: LogIndex,
    pub term: Term,
}

/// A read on its way: it may be served once a quorum has confirmed the leader
/// and the state has reached `barrier_index`.
#[derive(Clone, Copy, Debug, PartialEq, Eq, Structural)]
pub struct PendingRead {
    pub id: u64,
    pub term: Term,
    pub barrier_index: LogIndex,
}

/// What became of a valid snapshot.
#[derive(Clone, Copy, Debug, PartialEq, Eq, Structural)]
pub enum SnapshotInstallResult {
    Installed,
    Stale,
}

#[derive(Debug)]
struct PendingReadState {
    term: Term,
    barrier_index: LogIndex,
    acknowledgements: HashSet<NodeId>,
}

impl View for PendingReadState {
    type V = PendingReadModel;

    closed spec fn view(&self) -> PendingReadModel {
        PendingReadModel {
            term: self.term,
            barrier_index: self.barrier_index,
            acknowledgements: self.acknowledgements@,
        }
    }
}

#[derive(Debug)]
struct PartialSnapshot {
    term: Term,
    leader_id: NodeId,
    total_size: usize,
    bytes: Vec<u8>,
}

impl View for PartialSnapshot {
    type V = PartialSnapshotModel;

    closed spec fn view(&self) -> PartialSnapshotModel {
        PartialSnapshotModel {
            term: self.term,
            leader_id: self.leader_id,
            total_size: self.total_size,
            bytes: self.bytes@,
        }
    }
}

/// One member of the cluster.
#[derive(Debug)]
pub struct Node<S: StateMachine = MemoryStateMachine> {
    id: NodeId,
    peers: Vec<NodeId>,
    role: Role,
    current_term: Term,
    voted_for: Option<NodeId>,
    log: Vec<LogEntry>,
    /// When non-zero, `log[0]` is the snapshot boundary and later entries start
    /// at `log_base_index + 1`. Before compaction it is zero and `log[0]` is the
    /// entry at index one.
    log_base_index: LogIndex,
    snapshot: Option<Snapshot>,
    commit_index: LogIndex,
    last_applied: LogIndex,
    state_machine: S,
    leader_id: Option<NodeId>,
    election_deadline: u64,
    last_heartbeat_at: u64,
    last_leader_contact: u64,
    rng_state: u64,
    votes_granted: usize,
    /// Voters that granted the current election term, this node included. A set,
    /// so that a duplicated vote reply is not counted twice.
    granted_voters: HashSet<NodeId>,
    next_index: HashMap<NodeId, LogIndex>,
    match_index: HashMap<NodeId, LogIndex>,
    /// Index of the no-op entry that opened the current term. Once it is
    /// committed, the leader has proved that it still leads.
    term_start_index: LogIndex,
    /// A pre-vote never changes `current_term` or `voted_for`.
    pre_vote_term: Option<Term>,
    pre_vote_granted: HashSet<NodeId>,
    /// Last response of each voter while this node is leader.
    last_quorum_contact: HashMap<NodeId, u64>,
    pending_reads: HashMap<u64, PendingReadState>,
    next_read_id: u64,
    leader_transfer_target: Option<NodeId>,
    incoming_snapshot: Option<(u64, PartialSnapshot)>,
}

/// The transfer under way as mathematical values.
closed spec fn incoming_view(incoming: Option<(u64, PartialSnapshot)>) -> Option<
    (u64, PartialSnapshotModel),
> {
    match incoming {
        Some((id, transfer)) => Some((id, transfer@)),
        None => None,
    }
}

/// The pending reads as mathematical values.
closed spec fn reads_view(reads: Map<u64, PendingReadState>) -> Map<u64, PendingReadModel> {
    reads.map_values(|read: PendingReadState| read@)
}

impl<S: StateMachine> View for Node<S> {
    type V = NodeModel<S>;

    closed spec fn view(&self) -> NodeModel<S> {
        NodeModel {
            id: self.id,
            peers: self.peers@,
            role: self.role,
            current_term: self.current_term,
            voted_for: self.voted_for,
            log: self.log.deep_view(),
            log_base_index: self.log_base_index,
            snapshot: self.snapshot.deep_view(),
            commit_index: self.commit_index,
            last_applied: self.last_applied,
            state: self.state_machine@,
            leader_id: self.leader_id,
            election_deadline: self.election_deadline,
            last_heartbeat_at: self.last_heartbeat_at,
            last_leader_contact: self.last_leader_contact,
            rng_state: self.rng_state,
            votes_granted: self.votes_granted,
            granted_voters: self.granted_voters@,
            next_index: self.next_index@,
            match_index: self.match_index@,
            term_start_index: self.term_start_index,
            pre_vote_term: self.pre_vote_term,
            pre_vote_granted: self.pre_vote_granted@,
            last_quorum_contact: self.last_quorum_contact@,
            pending_reads: reads_view(self.pending_reads@),
            next_read_id: self.next_read_id,
            leader_transfer_target: self.leader_transfer_target,
            incoming_snapshot: incoming_view(self.incoming_snapshot),
        }
    }
}

impl<S: StateMachine> NodeModel<S> {
    /// A node that has seen nothing yet, around a state machine that may have.
    pub open spec fn initial(id: NodeId, peers: Seq<NodeId>, state: S::V) -> Self {
        NodeModel {
            id,
            peers,
            role: Role::Follower,
            current_term: 0,
            voted_for: None,
            log: Seq::empty(),
            log_base_index: 0,
            snapshot: None,
            commit_index: 0,
            last_applied: S::applied_index(state),
            state,
            leader_id: None,
            election_deadline: 0,
            last_heartbeat_at: 0,
            last_leader_contact: 0,
            rng_state: ((id as u64 + 1) as u64).wrapping_mul(SEED_MULTIPLIER),
            votes_granted: 0,
            granted_voters: Set::empty(),
            next_index: Map::empty(),
            match_index: Map::empty(),
            term_start_index: 0,
            pre_vote_term: None,
            pre_vote_granted: Set::empty(),
            last_quorum_contact: Map::empty(),
            pending_reads: Map::empty(),
            next_read_id: 0,
            leader_transfer_target: None,
            incoming_snapshot: None::<(u64, PartialSnapshotModel)>,
        }.timer_reset(0)
    }
}

impl<S: StateMachine> Node<S> {
    /// A node that has seen nothing yet, around the given state machine.
    pub fn new_with_state_machine(id: NodeId, peers: Vec<NodeId>, state_machine: S) -> (node: Self)
        requires
            id < u64::MAX,
            peers.len() < usize::MAX,
        ensures
            node@ == NodeModel::<S>::initial(id, peers@, state_machine@),
            node@.well_formed(),
    {
        let last_applied = state_machine.last_applied();
        let mut node = Node {
            id,
            peers,
            role: Role::Follower,
            current_term: 0,
            voted_for: None,
            log: Vec::new(),
            log_base_index: 0,
            snapshot: None,
            commit_index: 0,
            last_applied,
            state_machine,
            leader_id: None,
            election_deadline: 0,
            last_heartbeat_at: 0,
            last_leader_contact: 0,
            rng_state: (id as u64 + 1).wrapping_mul(SEED_MULTIPLIER),
            votes_granted: 0,
            granted_voters: HashSet::new(),
            next_index: HashMap::new(),
            match_index: HashMap::new(),
            term_start_index: 0,
            pre_vote_term: None,
            pre_vote_granted: HashSet::new(),
            last_quorum_contact: HashMap::new(),
            pending_reads: HashMap::new(),
            next_read_id: 0,
            leader_transfer_target: None,
            incoming_snapshot: None,
        };
        assert(reads_view(node.pending_reads@) =~= Map::empty());
        assert(node.log.deep_view() =~= Seq::empty());
        node.reset_election_timer(0);
        node
    }

    // ---- the node's fields ----

    pub fn id(&self) -> (id: NodeId)
        ensures
            id == self@.id,
    {
        self.id
    }

    pub fn leader_id(&self) -> (leader: Option<NodeId>)
        ensures
            leader == self@.leader_id,
    {
        self.leader_id
    }

    pub fn role(&self) -> (role: Role)
        ensures
            role == self@.role,
    {
        self.role
    }

    pub fn role_label(&self) -> (label: &'static str)
        ensures
            label@ == (match self@.role {
                Role::Follower => "follower"@,
                Role::Candidate => "candidate"@,
                Role::Leader => "leader"@,
            }),
    {
        match self.role {
            Role::Follower => "follower",
            Role::Candidate => "candidate",
            Role::Leader => "leader",
        }
    }

    pub fn current_term(&self) -> (term: Term)
        ensures
            term == self@.current_term,
    {
        self.current_term
    }

    pub fn voted_for(&self) -> (vote: Option<NodeId>)
        ensures
            vote == self@.voted_for,
    {
        self.voted_for
    }

    pub fn log(&self) -> (log: &[LogEntry])
        ensures
            entries_view(log@) == self@.log,
    {
        let log = self.log.as_slice();
        assert(entries_view(log@) =~= self.log.deep_view());
        log
    }

    pub fn snapshot(&self) -> (snapshot: Option<&Snapshot>)
        ensures
            snapshot.deep_view() == self@.snapshot,
    {
        self.snapshot.as_ref()
    }

    pub fn snapshot_index(&self) -> (index: LogIndex)
        ensures
            index == self@.log_base_index,
    {
        self.log_base_index
    }

    pub fn commit_index(&self) -> (index: LogIndex)
        ensures
            index == self@.commit_index,
    {
        self.commit_index
    }

    pub fn last_applied(&self) -> (index: LogIndex)
        ensures
            index == self@.last_applied,
    {
        self.last_applied
    }

    pub fn peers(&self) -> (peers: &[NodeId])
        ensures
            peers@ == self@.peers,
    {
        self.peers.as_slice()
    }

    pub fn state_machine(&self) -> (machine: &S)
        ensures
            machine@ == self@.state,
    {
        &self.state_machine
    }

    /// Whether the entry that opened the current term is committed.
    pub fn can_serve_reads(&self) -> (ready: bool)
        ensures
            ready == (self@.commit_index >= self@.term_start_index),
    {
        self.commit_index >= self.term_start_index
    }

    /// The value of `key` in the applied state, or why it cannot be read.
    pub fn read_value(&self, key: &str) -> (result: Result<Option<String>, Error>)
        ensures
            lookup_view(result) == S::lookup(self@.state, key@),
    {
        self.state_machine.get(key)
    }

    /// The value of `key` in the applied state, if it can be read and has one.
    pub fn get(&self, key: &str) -> (value: Option<String>)
        ensures
            value.deep_view() == (match S::lookup(self@.state, key@) {
                Ok(found) => found,
                Err(_) => None,
            }),
    {
        match self.state_machine.get(key) {
            Ok(value) => value,
            Err(_) => None,
        }
    }

    // ---- the log ----

    /// The index of the last slot of the log.
    pub fn last_log_index(&self) -> (index: LogIndex)
        requires
            self@.well_formed(),
        ensures
            index == self@.last_index(),
    {
        if self.log_base_index == 0 {
            self.log.len()
        } else {
            self.log_base_index + (self.log.len() - 1)
        }
    }

    /// The term of the slot at `index`, if the log has it.
    pub fn term_at(&self, index: LogIndex) -> (term: Option<Term>)
        requires
            self@.well_formed(),
        ensures
            term == self@.term_at(index as int),
    {
        if index == 0 {
            return Some(0);
        }
        let first: usize = if self.log_base_index == 0 {
            1
        } else {
            self.log_base_index
        };
        if index >= first && index - first < self.log.len() {
            assert(self.log.deep_view()[index - first] == self.log[index - first]@);
            Some(self.log[index - first].term)
        } else {
            None
        }
    }

    fn term_or_zero(&self, index: LogIndex) -> (term: Term)
        requires
            self@.well_formed(),
        ensures
            term == self@.term_or_zero(index as int),
    {
        match self.term_at(index) {
            Some(term) => term,
            None => 0,
        }
    }

    fn last_log_term(&self) -> (term: Term)
        requires
            self@.well_formed(),
        ensures
            term == self@.last_log_term(),
    {
        self.term_or_zero(self.last_log_index())
    }

    fn entry_at(&self, index: LogIndex) -> (entry: Option<&LogEntry>)
        requires
            self@.well_formed(),
        ensures
            entry.deep_view() == self@.entry_at(index as int),
    {
        let first: usize = if self.log_base_index == 0 {
            1
        } else {
            self.log_base_index
        };
        if index > self.log_base_index && index - first < self.log.len() {
            assert(self.log.deep_view()[index - first] == self.log[index - first]@);
            Some(&self.log[index - first])
        } else {
            None
        }
    }

    /// A copy of at most `limit` entries from `index` on.
    fn entries_from(&self, index: LogIndex, limit: usize) -> (entries: Vec<LogEntry>)
        requires
            self@.well_formed(),
        ensures
            ({
                let all = self@.entries_from(index as int);
                entries.deep_view() == all.take(
                    smaller(all.len() as int, limit as int),
                )
            }),
    {
        let ghost all = self@.entries_from(index as int);
        if self.log_base_index > 0 && index <= self.log_base_index {
            let none: Vec<LogEntry> = Vec::new();
            assert(none.deep_view() =~= all.take(0));
            return none;
        }
        let first: usize = if self.log_base_index == 0 {
            1
        } else {
            self.log_base_index
        };
        let wanted: usize = if index == 0 {
            0
        } else {
            index - first
        };
        let start: usize = if wanted < self.log.len() {
            wanted
        } else {
            self.log.len()
        };
        let end: usize = if self.log.len() - start > limit {
            start + limit
        } else {
            self.log.len()
        };
        let entries = copy_entries(self.log.as_slice(), start, end);
        assert(entries_view(self.log@) =~= self.log.deep_view());
        assert(all =~= self.log.deep_view().skip(start as int));
        assert(entries.deep_view() =~= all.take(
            smaller(all.len() as int, limit as int),
        ));
        entries
    }

    // ---- timers and quorums ----

    fn reset_election_timer(&mut self, now_ms: u64)
        requires
            clock_has_room(now_ms),
        ensures
            final(self)@ == old(self)@.timer_reset(now_ms),
    {
        self.rng_state = self.rng_state.wrapping_mul(RANDOM_MULTIPLIER).wrapping_add(1);
        self.election_deadline = now_ms + ELECTION_MIN_MS + self.rng_state % ELECTION_SPAN_MS;
    }

    fn majority(&self) -> (count: usize)
        requires
            self@.well_formed(),
        ensures
            count == self@.majority(),
    {
        (self.peers.len() + 1) / 2 + 1
    }

    fn is_peer(&self, id: NodeId) -> (found: bool)
        ensures
            found == self@.peers.contains(id),
    {
        let mut i: usize = 0;
        while i < self.peers.len()
            invariant
                i <= self.peers.len(),
                forall|j: int| 0 <= j < i ==> self.peers[j] != id,
            decreases self.peers.len() - i,
        {
            if self.peers[i] == id {
                assert(self.peers@[i as int] == id);
                return true;
            }
            i += 1;
        }
        false
    }

    /// Makes the node a follower of `term`. It no longer knows a leader, so that
    /// a former leader does not point clients to itself.
    fn step_down(&mut self, term: Term, now_ms: u64)
        requires
            old(self)@.well_formed(),
            clock_has_room(now_ms),
        ensures
            final(self)@ == old(self)@.stepped_down(term, now_ms),
            final(self)@.well_formed(),
    {
        self.role = Role::Follower;
        self.current_term = term;
        self.voted_for = None;
        self.votes_granted = 0;
        self.granted_voters.clear();
        self.pre_vote_term = None;
        self.pre_vote_granted.clear();
        self.pending_reads.clear();
        self.leader_transfer_target = None;
        self.last_quorum_contact.clear();
        self.leader_id = None;
        assert(reads_view(self.pending_reads@) =~= Map::empty());
        self.reset_election_timer(now_ms);
    }

    /// Follows a leader of `term`, which is not behind.
    fn follow(&mut self, term: Term, now_ms: u64)
        requires
            old(self)@.well_formed(),
            term > old(self)@.current_term || old(self)@.role != Role::Follower ==> clock_has_room(
                now_ms,
            ),
        ensures
            final(self)@ == old(self)@.following(term, now_ms),
            final(self)@.well_formed(),
    {
        if term > self.current_term || self.role != Role::Follower {
            self.step_down(term, now_ms);
        }
    }

    /// Notes the leader and that it was heard from.
    fn note_leader(&mut self, leader: NodeId, now_ms: u64)
        requires
            old(self)@.well_formed(),
            clock_has_room(now_ms),
        ensures
            final(self)@ == old(self)@.led_by(leader, now_ms),
            final(self)@.well_formed(),
    {
        self.leader_id = Some(leader);
        self.last_leader_contact = now_ms;
        self.reset_election_timer(now_ms);
    }

    // ---- messages ----

    fn message(&self, to: NodeId, rpc: Rpc) -> (message: Message)
        ensures
            message@ == self@.message(to, rpc@),
    {
        Message { from: self.id, to, rpc }
    }

    /// One reply to the sender.
    fn answer(&self, from: NodeId, rpc: Rpc) -> (messages: Vec<Message>)
        ensures
            messages.deep_view() == self@.answer(from, rpc@),
    {
        let mut messages: Vec<Message> = Vec::new();
        messages.push(self.message(from, rpc));
        assert(messages.deep_view() =~= self@.answer(from, rpc@));
        messages
    }

    /// The same message to every peer.
    fn to_peers(&self, rpc: Rpc) -> (messages: Vec<Message>)
        ensures
            messages.deep_view() == self@.to_peers(rpc@),
    {
        let mut messages: Vec<Message> = Vec::new();
        let mut i: usize = 0;
        while i < self.peers.len()
            invariant
                i <= self.peers.len(),
                messages.len() == i,
                forall|j: int|
                    0 <= j < i ==> (#[trigger] messages[j])@ == self@.message(
                        self.peers[j],
                        rpc@,
                    ),
            decreases self.peers.len() - i,
        {
            messages.push(self.message(self.peers[i], rpc.clone()));
            i += 1;
        }
        assert(messages.deep_view() =~= self@.to_peers(rpc@));
        messages
    }
}

} // verus!
