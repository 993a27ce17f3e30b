//! Pre-votes, votes and the start of a term.
use crate::node::model::clock_has_room;
use crate::node::Node;
use crate::node::QUORUM_LEASE_MS;
use crate::state_machine::StateMachine;
use crate::types::Command;
use crate::types::LogEntry;
use crate::types::LogIndex;
use crate::types::Message;
use crate::types::MessageView;
use crate::types::NodeId;
use crate::types::PreVote;
use crate::types::PreVoteReply;
use crate::types::RequestVote;
use crate::types::RequestVoteReply;
use crate::types::Role;
use crate::types::Rpc;
use crate::types::Term;
use crate::types::TimeoutNow;
use std::collections::HashMap;
use vstd::prelude::*;

verus! {

broadcast use vstd::std_specs::hash::group_hash_axioms;

/// The map that gives each of `keys` the same value.
fn constant_map(keys: &Vec<NodeId>, value: LogIndex) -> (map: HashMap<NodeId, LogIndex>)
    ensures
        map@ == Map::new(|key: NodeId| keys@.contains(key), |key: NodeId| value),
{
    let mut map: HashMap<NodeId, LogIndex> = HashMap::new();
    let mut i: usize = 0;
    while i < keys.len()
        invariant
            i <= keys.len(),
            forall|key: NodeId| #[trigger]
                map@.contains_key(key) <==> exists|j: int| 0 <= j < i && keys[j] == key,
            forall|key: NodeId| #[trigger] map@.contains_key(key) ==> map@[key] == value,
        decreases keys.len() - i,
    {
        let ghost before = map@;
        map.insert(keys[i], value);
        assert forall|key: NodeId| #[trigger]
            map@.contains_key(key) <==> exists|j: int| 0 <= j < i + 1 && keys[j] == key by {
            if before.contains_key(key) {
                let j = choose|j: int| 0 <= j < i && keys[j] == key;
                assert(0 <= j < i + 1 && keys[j] == key);
            }
            if key == keys[i as int] {
                assert(0 <= i < i + 1 && keys[i as int] == key);
            }
        }
        i += 1;
    }
    assert(map@ =~= Map::new(|key: NodeId| keys@.contains(key), |key: NodeId| value));
    map
}

impl<S: StateMachine> Node<S> {
    /// Whether a candidate's log is at least as complete as this node's.
    pub(super) fn up_to_date(&self, last_log_index: LogIndex, last_log_term: Term) -> (result: bool)
        requires
            self@.well_formed(),
        ensures
            result == self@.up_to_date(last_log_index, last_log_term),
    {
        let own_term: Term = self.last_log_term();
        last_log_term > own_term || (last_log_term == own_term && last_log_index
            >= self.last_log_index())
    }

    /// Asks the peers whether an election could be won.
    pub(super) fn start_pre_vote(&mut self, now_ms: u64) -> (messages: Vec<Message>)
        requires
            old(self)@.well_formed(),
            clock_has_room(now_ms),
            1 >= old(self)@.majority() ==> old(self)@.current_term < u64::MAX,
        ensures
            (final(self)@, messages.deep_view()) == old(self)@.start_pre_vote(now_ms),
            final(self)@.well_formed(),
    {
        let prospective_term: Term = self.current_term.saturating_add(1);
        self.pre_vote_term = Some(prospective_term);
        self.pre_vote_granted.clear();
        self.pre_vote_granted.insert(self.id);
        self.reset_election_timer(now_ms);
        if 1 >= self.majority() {
            return self.start_election(now_ms);
        }
        let request = PreVote {
            term: prospective_term,
            candidate_id: self.id,
            last_log_index: self.last_log_index(),
            last_log_term: self.last_log_term(),
        };
        self.to_peers(Rpc::PreVote(request))
    }

    /// Says whether this node would help to elect the candidate. A live leader's
    /// heartbeat speaks against it.
    pub(super) fn handle_pre_vote(&self, request: PreVote, now_ms: u64) -> (reply: PreVoteReply)
        requires
            self@.well_formed(),
        ensures
            reply == self@.pre_vote_reply(request, now_ms),
    {
        let election_allowed = self.leader_id.is_none() || now_ms.saturating_sub(
            self.last_leader_contact,
        ) >= QUORUM_LEASE_MS;
        PreVoteReply {
            term: self.current_term,
            vote_granted: request.term >= self.current_term && self.up_to_date(
                request.last_log_index,
                request.last_log_term,
            ) && election_allowed,
        }
    }

    pub(super) fn handle_pre_vote_reply(
        &mut self,
        from: NodeId,
        reply: PreVoteReply,
        now_ms: u64,
    ) -> (messages: Vec<Message>)
        requires
            old(self)@.well_formed(),
            reply.term > old(self)@.current_term || old(self)@.wins_pre_vote(from, reply)
                ==> clock_has_room(now_ms),
            old(self)@.wins_pre_vote(from, reply) ==> old(self)@.current_term < u64::MAX,
        ensures
            (final(self)@, messages.deep_view()) == old(self)@.on_pre_vote_reply(
                from,
                reply,
                now_ms,
            ),
            final(self)@.well_formed(),
    {
        let none: Vec<Message> = Vec::new();
        assert(none.deep_view() =~= Seq::<MessageView>::empty());
        if reply.term > self.current_term {
            self.step_down(reply.term, now_ms);
            return none;
        }
        let asked = match self.pre_vote_term {
            Some(term) => term == self.current_term.saturating_add(1),
            None => false,
        };
        if !asked || !reply.vote_granted {
            return none;
        }
        if !self.pre_vote_granted.insert(from) {
            assert(self@.pre_vote_granted =~= old(self)@.pre_vote_granted);
            return none;
        }
        if self.pre_vote_granted.len() >= self.majority() {
            self.start_election(now_ms)
        } else {
            none
        }
    }

    /// Campaigns in the next term.
    pub(super) fn start_election(&mut self, now_ms: u64) -> (messages: Vec<Message>)
        requires
            old(self)@.well_formed(),
            clock_has_room(now_ms),
            old(self)@.current_term < u64::MAX,
        ensures
            (final(self)@, messages.deep_view()) == old(self)@.start_election(now_ms),
            final(self)@.well_formed(),
    {
        self.role = Role::Candidate;
        self.current_term = self.current_term + 1;
        self.pre_vote_term = None;
        self.pre_vote_granted.clear();
        self.voted_for = Some(self.id);
        self.leader_id = None;
        self.votes_granted = 1;
        self.granted_voters.clear();
        self.granted_voters.insert(self.id);
        self.reset_election_timer(now_ms);
        let request = RequestVote {
            term: self.current_term,
            candidate_id: self.id,
            last_log_index: self.last_log_index(),
            last_log_term: self.last_log_term(),
        };
        self.to_peers(Rpc::RequestVote(request))
    }

    pub(super) fn handle_request_vote(
        &mut self,
        request: RequestVote,
        now_ms: u64,
    ) -> (reply: RequestVoteReply)
        requires
            old(self)@.well_formed(),
            old(self)@.moved_by_vote(request) ==> clock_has_room(now_ms),
        ensures
            (final(self)@, reply) == old(self)@.on_request_vote(request, now_ms),
            final(self)@.well_formed(),
    {
        if request.term < self.current_term || (request.term == self.current_term && self.role
            == Role::Leader && request.candidate_id != self.id) {
            return RequestVoteReply { term: self.current_term, vote_granted: false };
        }
        if request.term > self.current_term {
            self.step_down(request.term, now_ms);
        }
        let can_vote = match self.voted_for {
            Some(candidate) => candidate == request.candidate_id,
            None => true,
        };
        let vote_granted = can_vote && self.up_to_date(
            request.last_log_index,
            request.last_log_term,
        );
        if vote_granted {
            self.voted_for = Some(request.candidate_id);
            self.pre_vote_term = None;
            self.pre_vote_granted.clear();
            self.reset_election_timer(now_ms);
        }
        RequestVoteReply { term: self.current_term, vote_granted }
    }

    pub(super) fn handle_request_vote_reply(
        &mut self,
        from: NodeId,
        reply: RequestVoteReply,
        now_ms: u64,
    ) -> (messages: Vec<Message>)
        requires
            old(self)@.well_formed(),
            reply.term > old(self)@.current_term ==> clock_has_room(now_ms),
            old(self)@.wins_vote(from, reply) ==> old(self)@.last_index() + 1 < usize::MAX,
        ensures
            (final(self)@, messages.deep_view()) == old(self)@.on_request_vote_reply(
                from,
                reply,
                now_ms,
            ),
            final(self)@.well_formed(),
    {
        let none: Vec<Message> = Vec::new();
        assert(none.deep_view() =~= Seq::<MessageView>::empty());
        if reply.term > self.current_term {
            self.step_down(reply.term, now_ms);
            return none;
        }
        if self.role != Role::Candidate || reply.term != self.current_term
            || !reply.vote_granted {
            return none;
        }
        if !self.granted_voters.insert(from) {
            assert(self@.granted_voters =~= old(self)@.granted_voters);
            return none;
        }
        self.votes_granted = self.granted_voters.len();
        if self.votes_granted >= self.majority() {
            self.become_leader(now_ms)
        } else {
            none
        }
    }

    /// Takes the lead and opens the term with a no-op entry.
    fn become_leader(&mut self, now_ms: u64) -> (messages: Vec<Message>)
        requires
            old(self)@.well_formed(),
            old(self)@.last_index() + 1 < usize::MAX,
        ensures
            (final(self)@, messages.deep_view()) == old(self)@.become_leader(now_ms),
            final(self)@.well_formed(),
    {
        let ghost before = self@;
        self.role = Role::Leader;
        self.leader_id = Some(self.id);
        self.pre_vote_term = None;
        self.pre_vote_granted.clear();
        self.pending_reads.clear();
        self.leader_transfer_target = None;
        self.last_quorum_contact.clear();
        self.last_quorum_contact.insert(self.id, now_ms);
        self.last_heartbeat_at = now_ms;
        let entry = LogEntry { term: self.current_term, command: Command::Noop };
        let ghost opened = before.log.push(entry@);
        self.log.push(entry);
        assert(self.log.deep_view() =~= opened);
        let start: LogIndex = self.last_log_index();
        self.term_start_index = start;
        self.next_index = constant_map(&self.peers, start + 1);
        self.match_index = constant_map(&self.peers, 0);
        self.match_index.insert(self.id, start);
        assert(super::reads_view(self.pending_reads@) =~= Map::empty());
        assert(self@ =~= before.elected(now_ms));
        self.append_messages()
    }

    /// Campaigns at once on the leader's word.
    pub(super) fn handle_timeout_now(
        &mut self,
        from: NodeId,
        request: TimeoutNow,
        now_ms: u64,
    ) -> (messages: Vec<Message>)
        requires
            old(self)@.well_formed(),
            old(self)@.heeds_timeout(from, request) ==> clock_has_room(now_ms),
            old(self)@.heeds_timeout(from, request) ==> request.term < u64::MAX,
        ensures
            (final(self)@, messages.deep_view()) == old(self)@.on_timeout_now(
                from,
                request,
                now_ms,
            ),
            final(self)@.well_formed(),
    {
        if request.term < self.current_term || request.leader_id != from {
            let none: Vec<Message> = Vec::new();
            assert(none.deep_view() =~= Seq::<MessageView>::empty());
            return none;
        }
        self.follow(request.term, now_ms);
        self.leader_id = None;
        self.start_election(now_ms)
    }
}

} // verus!
