//! A term has at most one leader.
use crate::cluster::laws::law_next_message_is_in_the_window;
use crate::cluster::model::plus;
use crate::cluster::model::ClusterModel;
use crate::cluster::model::PendingRequestView;
use crate::cluster::plan::FaultPlanView;
use crate::cluster::CLIENT_TIMEOUT_MS;
use crate::node::laws::ballots::asks_for_itself;
use crate::node::laws::ballots::counts_rightly;
use crate::node::laws::ballots::is_vote;
use crate::node::laws::ballots::law_clients_do_not_vote;
use crate::node::laws::ballots::law_clock_gives_no_vote;
use crate::node::laws::ballots::law_vote_is_given_once;
use crate::node::laws::ballots::law_votes_are_counted_rightly;
use crate::node::laws::ballots::same_ballot;
use crate::node::laws::ballots::stands_for_itself;
use crate::node::laws::ballots::vote_in;
use crate::node::laws::ballots::votes_for_nobody;
use crate::node::laws::elections::law_majorities_meet;
use crate::node::laws::law_handling_is_addressed;
use crate::node::laws::law_ticking_is_addressed;
use crate::node::laws::progress::law_handling_moves_forward;
use crate::node::laws::progress::law_ticking_moves_forward;
use crate::node::laws::progress::overwrites_leader;
use crate::node::model::NodeModel;
use crate::state_machine::MemoryStateMachine;
use crate::types::ClientRequestView;
use crate::types::LogIndex;
use crate::types::MessageView;
use crate::types::NodeId;
use crate::types::Role;
use crate::types::RpcView;
use crate::types::Term;
use vstd::prelude::*;

verus! {

impl ClusterModel {
    /// `voter` has voted for `candidate` in `term`: the vote is under way, or the
    /// candidate, or leader, has counted it.
    pub open spec fn has_vote(self, voter: NodeId, term: Term, candidate: NodeId) -> bool {
        ||| self.has_counted(voter, term, candidate)
        ||| exists|k: int|
            0 <= k < self.messages.len() && is_vote(
                (#[trigger] self.messages[k]).message,
                voter,
                term,
                candidate,
            )
    }

    /// `candidate` stands in `term` and has counted the vote of `voter`.
    pub open spec fn has_counted(self, voter: NodeId, term: Term, candidate: NodeId) -> bool {
        &&& self.has_node(candidate)
        &&& self.nodes[candidate as int].role != Role::Follower
        &&& self.nodes[candidate as int].current_term == term
        &&& self.nodes[candidate as int].granted_voters.contains(voter)
    }

    /// The node knows the whole cluster and stands for itself if it stands at all.
    pub open spec fn is_honest(self, position: int) -> bool {
        &&& self.nodes[position].peers.len() + 1 == self.nodes.len()
        &&& stands_for_itself(self.nodes[position])
    }

    /// A vote of `voter` for another is remembered by `voter` as long as its term
    /// lasts.
    pub open spec fn is_remembered(self, voter: NodeId, term: Term, candidate: NodeId) -> bool {
        &&& self.has_node(voter)
        &&& self.nodes[voter as int].current_term >= term
        &&& voter != candidate && self.nodes[voter as int].current_term == term
            ==> self.nodes[voter as int].voted_for == Some(candidate)
    }

    /// No node has voted twice: every vote is remembered, and two votes of one node
    /// in one term for others are for the same one.
    pub open spec fn votes_are_single(self) -> bool {
        &&& forall|i: int| 0 <= i < self.nodes.len() ==> #[trigger] self.is_honest(i)
        &&& forall|k: int|
            0 <= k < self.messages.len() ==> asks_for_itself((#[trigger] self.messages[k]).message)
        &&& forall|voter: NodeId, term: Term, candidate: NodeId| #[trigger]
            self.has_vote(voter, term, candidate) ==> self.is_remembered(voter, term, candidate)
        &&& forall|voter: NodeId, term: Term, first: NodeId, second: NodeId|
            #[trigger] self.has_vote(voter, term, first) && #[trigger] self.has_vote(
                voter,
                term,
                second,
            ) && voter != first && voter != second ==> first == second
    }

    /// Every message under way was so before, or is among `sent`.
    pub open spec fn messages_come_from(self, before: Self, sent: Seq<MessageView>) -> bool {
        forall|k: int|
            0 <= k < self.messages.len() ==> {
                ||| exists|i: int|
                    0 <= i < before.messages.len() && (#[trigger] before.messages[i]).message == (
                    #[trigger] self.messages[k]).message
                ||| sent.contains(self.messages[k].message)
            }
    }
}

/// A new vote of the node: of its term, remembered, and not given to another before.
spec fn is_new_vote(
    node: NodeModel<MemoryStateMachine>,
    after: NodeModel<MemoryStateMachine>,
    term: Term,
    candidate: NodeId,
) -> bool {
    &&& after.current_term == term
    &&& after.voted_for == Some(candidate)
    &&& node.current_term < term || node.voted_for is None || node.voted_for == Some(candidate)
}

/// What one node may do in a cluster in which no node has voted twice.
spec fn is_fair_move(
    before: ClusterModel,
    after: ClusterModel,
    id: NodeId,
    vote: Option<(NodeId, Term)>,
    sent: Seq<MessageView>,
) -> bool {
    let node = before.nodes[id as int];
    let next = after.nodes[id as int];
    &&& before.has_node(id)
    &&& node.id == id
    &&& after.nodes.len() == before.nodes.len()
    &&& forall|i: int|
        0 <= i < before.nodes.len() && i != id ==> #[trigger] after.nodes[i] == before.nodes[i]
    &&& next.id == id
    &&& next.peers == node.peers
    &&& stands_for_itself(next)
    &&& node.current_term <= next.current_term
    &&& {
        &&& node.role == Role::Follower
        &&& node.voted_for is Some
        &&& next.current_term == node.current_term
    } ==> next.voted_for == node.voted_for
    &&& counts_rightly(node, next, vote)
    &&& vote matches Some((voter, term)) ==> before.has_vote(voter, term, id)
    &&& after.messages_come_from(before, sent)
    &&& forall|i: int| 0 <= i < sent.len() ==> asks_for_itself(#[trigger] sent[i])
    &&& forall|i: int, voter: NodeId, term: Term, candidate: NodeId|
        0 <= i < sent.len() && #[trigger] is_vote(sent[i], voter, term, candidate) ==> voter == id
            && is_new_vote(node, next, term, candidate)
}

/// Where a vote comes from: it was there before, or the node stands anew for itself,
/// or it votes anew for another.
proof fn lemma_origin(
    before: ClusterModel,
    after: ClusterModel,
    id: NodeId,
    vote: Option<(NodeId, Term)>,
    sent: Seq<MessageView>,
    voter: NodeId,
    term: Term,
    candidate: NodeId,
)
    requires
        is_fair_move(before, after, id, vote, sent),
        after.has_vote(voter, term, candidate),
    ensures
        ({
            let node = before.nodes[id as int];
            let next = after.nodes[id as int];
            ||| before.has_vote(voter, term, candidate)
            ||| voter == id && candidate == id && term == next.current_term
            ||| voter == id && is_new_vote(node, next, term, candidate)
        }),
{
    let node = before.nodes[id as int];
    let next = after.nodes[id as int];
    if after.has_counted(voter, term, candidate) {
        if candidate == id {
            if next.current_term == node.current_term {
                assert(node.role != Role::Follower);
                if node.granted_voters.contains(voter) {
                    assert(before.has_counted(voter, term, candidate));
                }
            }
        } else {
            assert(after.nodes[candidate as int] == before.nodes[candidate as int]);
            assert(before.has_counted(voter, term, candidate));
        }
    } else {
        let k = choose|k: int|
            0 <= k < after.messages.len() && is_vote(
                (#[trigger] after.messages[k]).message,
                voter,
                term,
                candidate,
            );
        let message = after.messages[k].message;
        if sent.contains(message) {
            let i = choose|i: int| 0 <= i < sent.len() && sent[i] == message;
            assert(is_vote(sent[i], voter, term, candidate));
        } else {
            let i = choose|i: int|
                0 <= i < before.messages.len() && (#[trigger] before.messages[i]).message
                    == after.messages[k].message;
            assert(is_vote(before.messages[i].message, voter, term, candidate));
        }
    }
}

/// A fair move keeps votes single.
proof fn lemma_fair_move(
    before: ClusterModel,
    after: ClusterModel,
    id: NodeId,
    vote: Option<(NodeId, Term)>,
    sent: Seq<MessageView>,
)
    requires
        before.votes_are_single(),
        is_fair_move(before, after, id, vote, sent),
    ensures
        after.votes_are_single(),
{
    let node = before.nodes[id as int];
    let next = after.nodes[id as int];
    assert(before.is_honest(id as int));
    assert forall|i: int| 0 <= i < after.nodes.len() implies #[trigger] after.is_honest(i) by {
        assert(before.is_honest(i));
        if i != id {
            assert(after.nodes[i] == before.nodes[i]);
        }
    }
    assert forall|k: int| 0 <= k < after.messages.len() implies asks_for_itself(
        (#[trigger] after.messages[k]).message,
    ) by {
        let message = after.messages[k].message;
        if sent.contains(message) {
            let i = choose|i: int| 0 <= i < sent.len() && sent[i] == message;
            assert(asks_for_itself(sent[i]));
        } else {
            let i = choose|i: int|
                0 <= i < before.messages.len() && (#[trigger] before.messages[i]).message
                    == after.messages[k].message;
            assert(asks_for_itself(before.messages[i].message));
        }
    }
    assert forall|voter: NodeId, term: Term, candidate: NodeId| #[trigger]
        after.has_vote(voter, term, candidate) implies after.is_remembered(
        voter,
        term,
        candidate,
    ) by {
        lemma_origin(before, after, id, vote, sent, voter, term, candidate);
        if before.has_vote(voter, term, candidate) {
            assert(before.is_remembered(voter, term, candidate));
            if voter != id {
                assert(after.nodes[voter as int] == before.nodes[voter as int]);
            }
        }
    }
    assert forall|voter: NodeId, term: Term, first: NodeId, second: NodeId|
        #[trigger] after.has_vote(voter, term, first) && #[trigger] after.has_vote(
            voter,
            term,
            second,
        ) && voter != first && voter != second implies first == second by {
        lemma_origin(before, after, id, vote, sent, voter, term, first);
        lemma_origin(before, after, id, vote, sent, voter, term, second);
        if before.has_vote(voter, term, first) {
            assert(before.is_remembered(voter, term, first));
        }
        if before.has_vote(voter, term, second) {
            assert(before.is_remembered(voter, term, second));
        }
    }
}

impl ClusterModel {
    proof fn lemma_pushed(self, before: Self, message: MessageView, delay: u64)
        requires
            self.messages_come_from(before, seq![message]),
        ensures
            self.push_message(message, delay) matches Some(after) ==> after.messages_come_from(
                before,
                seq![message],
            ),
    {
        if let Some(after) = self.push_message(message, delay) {
            assert forall|k: int| 0 <= k < after.messages.len() implies {
                ||| exists|i: int|
                    0 <= i < before.messages.len() && (#[trigger] before.messages[i]).message == (
                    #[trigger] after.messages[k]).message
                ||| seq![message].contains(after.messages[k].message)
            } by {
                if k < self.messages.len() {
                    assert(after.messages[k] == self.messages[k]);
                } else {
                    assert(seq![message][0] == after.messages[k].message);
                }
            }
        }
    }

    proof fn lemma_one_enqueued(self, message: MessageView)
        ensures
            self.enqueue_one(message) matches Some(after) ==> after.messages_come_from(
                self,
                seq![message],
            ),
    {
        reveal(ClusterModel::enqueue_one);
        assert(self.messages_come_from(self, seq![message])) by {
            assert forall|k: int| 0 <= k < self.messages.len() implies {
                ||| exists|i: int|
                    0 <= i < self.messages.len() && (#[trigger] self.messages[i]).message == (
                    #[trigger] self.messages[k]).message
                ||| seq![message].contains(self.messages[k].message)
            } by {
                assert(self.messages[k].message == self.messages[k].message);
            }
        }
        let (first, dropped) = self.chance(self.fault_plan.drop_rate_per_mille);
        assert(first.messages == self.messages);
        if let Some((delayed, delay)) = first.random_delay() {
            assert(delayed.messages == self.messages);
            delayed.lemma_pushed(self, message, delay);
            if let Some(sent) = delayed.push_message(message, delay) {
                let (after, again) = sent.chance(first.fault_plan.duplicate_rate_per_mille);
                assert(after.messages == sent.messages);
                if let Some((last, extra)) = after.random_delay() {
                    assert(last.messages == sent.messages);
                    last.lemma_pushed(self, message, plus(delay, extra));
                }
            }
        }
    }

    /// What is under way after sending was so before, or was sent.
    pub proof fn lemma_enqueued(self, messages: Seq<MessageView>)
        ensures
            self.enqueue(messages) matches Some(after) ==> after.messages_come_from(
                self,
                messages,
            ),
        decreases messages.len(),
    {
        if messages.len() == 0 {
            assert forall|k: int| 0 <= k < self.messages.len() implies {
                ||| exists|i: int|
                    0 <= i < self.messages.len() && (#[trigger] self.messages[i]).message == (
                    #[trigger] self.messages[k]).message
                ||| messages.contains(self.messages[k].message)
            } by {
                assert(self.messages[k].message == self.messages[k].message);
            }
        } else {
            self.lemma_one_enqueued(messages[0]);
            if let Some(middle) = self.enqueue_one(messages[0]) {
                let rest = messages.skip(1);
                middle.lemma_enqueued(rest);
                if let Some(after) = middle.enqueue(rest) {
                    assert forall|k: int| 0 <= k < after.messages.len() implies {
                        ||| exists|i: int|
                            0 <= i < self.messages.len() && (#[trigger] self.messages[i]).message
                                == (#[trigger] after.messages[k]).message
                        ||| messages.contains(after.messages[k].message)
                    } by {
                        let message = after.messages[k].message;
                        if rest.contains(message) {
                            let i = choose|i: int| 0 <= i < rest.len() && rest[i] == message;
                            assert(messages[i + 1] == message);
                        } else {
                            let j = choose|j: int|
                                0 <= j < middle.messages.len() && (
                                #[trigger] middle.messages[j]).message == after.messages[k].message;
                            assert(middle.messages[j].message == message);
                            if seq![messages[0]].contains(message) {
                                assert(messages[0] == message);
                            }
                        }
                    }
                }
            }
        }
    }

    /// Where the queue of `placed` is part of this one, so is what comes from it.
    pub proof fn lemma_comes_from_more(self, placed: Self, before: Self, sent: Seq<MessageView>)
        requires
            self.messages_come_from(placed, sent),
            placed.messages_come_from(before, Seq::empty()),
        ensures
            self.messages_come_from(before, sent),
    {
        assert forall|k: int| 0 <= k < self.messages.len() implies {
            ||| exists|i: int|
                0 <= i < before.messages.len() && (#[trigger] before.messages[i]).message == (
                #[trigger] self.messages[k]).message
            ||| sent.contains(self.messages[k].message)
        } by {
            if !sent.contains(self.messages[k].message) {
                let j = choose|j: int|
                    0 <= j < placed.messages.len() && (#[trigger] placed.messages[j]).message
                        == self.messages[k].message;
                assert(placed.messages[j].message == self.messages[k].message);
            }
        }
    }

    pub proof fn lemma_same_queue(self, before: Self)
        requires
            self.messages == before.messages,
        ensures
            self.messages_come_from(before, Seq::empty()),
    {
        assert forall|k: int| 0 <= k < self.messages.len() implies {
            ||| exists|i: int|
                0 <= i < before.messages.len() && (#[trigger] before.messages[i]).message == (
                #[trigger] self.messages[k]).message
            ||| Seq::<MessageView>::empty().contains(self.messages[k].message)
        } by {
            assert(before.messages[k].message == self.messages[k].message);
        }
    }

    pub proof fn lemma_shorter_queue(self, before: Self, position: int)
        requires
            0 <= position < before.messages.len(),
            self.messages == before.messages.remove(position),
        ensures
            self.messages_come_from(before, Seq::empty()),
    {
        assert forall|k: int| 0 <= k < self.messages.len() implies {
            ||| exists|i: int|
                0 <= i < before.messages.len() && (#[trigger] before.messages[i]).message == (
                #[trigger] self.messages[k]).message
            ||| Seq::<MessageView>::empty().contains(self.messages[k].message)
        } by {
            let i = if k < position {
                k
            } else {
                k + 1
            };
            assert(before.messages[i].message == self.messages[k].message);
        }
    }

    /// What elections depend on stays if every node's ballot does and no message is
    /// added.
    proof fn lemma_no_move(self, other: Self)
        requires
            self.votes_are_single(),
            other.nodes.len() == self.nodes.len(),
            forall|i: int|
                0 <= i < self.nodes.len() ==> same_ballot(self.nodes[i], #[trigger] other.nodes[i]),
            other.messages_come_from(self, Seq::empty()),
        ensures
            other.votes_are_single(),
    {
        assert forall|voter: NodeId, term: Term, candidate: NodeId| #[trigger]
            other.has_vote(voter, term, candidate) implies self.has_vote(
            voter,
            term,
            candidate,
        ) by {
            if other.has_counted(voter, term, candidate) {
                assert(same_ballot(self.nodes[candidate as int], other.nodes[candidate as int]));
                assert(self.has_counted(voter, term, candidate));
            } else {
                let k = choose|k: int|
                    0 <= k < other.messages.len() && is_vote(
                        (#[trigger] other.messages[k]).message,
                        voter,
                        term,
                        candidate,
                    );
                assert(!Seq::<MessageView>::empty().contains(other.messages[k].message));
                let i = choose|i: int|
                    0 <= i < self.messages.len() && (#[trigger] self.messages[i]).message
                        == other.messages[k].message;
                assert(is_vote(self.messages[i].message, voter, term, candidate));
            }
        }
        assert forall|i: int| 0 <= i < other.nodes.len() implies #[trigger] other.is_honest(i) by {
            assert(self.is_honest(i));
            assert(same_ballot(self.nodes[i], other.nodes[i]));
        }
        assert forall|k: int| 0 <= k < other.messages.len() implies asks_for_itself(
            (#[trigger] other.messages[k]).message,
        ) by {
            assert(!Seq::<MessageView>::empty().contains(other.messages[k].message));
            let i = choose|i: int|
                0 <= i < self.messages.len() && (#[trigger] self.messages[i]).message
                    == other.messages[k].message;
            assert(asks_for_itself(self.messages[i].message));
        }
        assert forall|voter: NodeId, term: Term, candidate: NodeId| #[trigger]
            other.has_vote(voter, term, candidate) implies other.is_remembered(
            voter,
            term,
            candidate,
        ) by {
            assert(self.is_remembered(voter, term, candidate));
            assert(same_ballot(self.nodes[voter as int], other.nodes[voter as int]));
        }
    }

    pub proof fn lemma_delivered(self, position: int)
        requires
            self.well_formed(),
            self.votes_are_single(),
            0 <= position < self.messages.len(),
        ensures
            self.deliver(position) matches Some(after) ==> after.votes_are_single(),
    {
        let message = self.messages[position].message;
        let from = message.from;
        let to = message.to;
        let rpc = message.rpc;
        let removed = ClusterModel { messages: self.messages.remove(position), ..self };
        let node = self.nodes[to as int];
        assert(self.is_addressed(message));
        assert(self.is_at_home(to as int));
        assert(self.is_honest(to as int));
        removed.lemma_shorter_queue(self, position);
        if !self.is_connected(from, to) {
            assert(self.deliver(position) == Some(removed)) by {
                reveal(ClusterModel::deliver);
            }
            self.lemma_no_move(removed);
        } else if node.can_handle(from, rpc, self.now_ms) {
            let (next, replies) = node.handle(from, rpc, self.now_ms);
            let placed = removed.with_node(to, next);
            assert(self.deliver(position) == placed.enqueue(replies)) by {
                reveal(ClusterModel::deliver);
            }
            placed.lemma_same_queue(removed);
            placed.lemma_comes_from_more(removed, self, Seq::empty());
            if let Some(after) = placed.enqueue(replies) {
                placed.lemma_enqueued(replies);
                after.lemma_comes_from_more(placed, self, replies);
                self.lemma_handled(position, after);
            }
        } else {
            assert(self.deliver(position) is None) by {
                reveal(ClusterModel::deliver);
            }
        }
    }

    proof fn lemma_handled(self, position: int, after: Self)
        requires
            self.well_formed(),
            self.votes_are_single(),
            0 <= position < self.messages.len(),
            ({
                let message = self.messages[position].message;
                let node = self.nodes[message.to as int];
                let (next, replies) = node.handle(message.from, message.rpc, self.now_ms);
                &&& node.can_handle(message.from, message.rpc, self.now_ms)
                &&& after.messages_come_from(self, replies)
                &&& ClusterModel {
                    messages: self.messages.remove(position),
                    ..self
                }.with_node(message.to, next).enqueue(replies) == Some(after)
            }),
        ensures
            after.votes_are_single(),
    {
        let message = self.messages[position].message;
        let from = message.from;
        let to = message.to;
        let rpc = message.rpc;
        let node = self.nodes[to as int];
        let (next, replies) = node.handle(from, rpc, self.now_ms);
        assert(self.is_addressed(message));
        assert(self.is_at_home(to as int));
        assert(self.is_honest(to as int));
        assert(asks_for_itself(message));
        law_handling_is_addressed(node, from, rpc, self.now_ms);
        self.lemma_delivered_nodes(position, after);
        self.lemma_terms_move_forward(to, from, rpc);
        let vote = vote_in(from, rpc);
        if let RpcView::RequestVote(request) = rpc {
            law_vote_is_given_once(node, from, request, self.now_ms);
            assert(request.candidate_id == from);
            assert forall|i: int, voter: NodeId, term: Term, candidate: NodeId|
                0 <= i < replies.len() && #[trigger] is_vote(
                    replies[i],
                    voter,
                    term,
                    candidate,
                ) implies voter == to && is_new_vote(node, next, term, candidate) by {
                assert(i == 0);
            }
        } else {
            law_votes_are_counted_rightly(node, from, rpc, self.now_ms);
            assert(votes_for_nobody(node, replies));
        }
        if let Some((voter, term)) = vote {
            assert(is_vote(self.messages[position].message, voter, term, to));
        }
        assert(is_fair_move(self, after, to, vote, replies));
        lemma_fair_move(self, after, to, vote, replies);
    }

    proof fn lemma_terms_move_forward(self, id: NodeId, from: NodeId, rpc: RpcView)
        requires
            self.well_formed(),
            self.has_node(id),
            self.nodes[id as int].can_handle(from, rpc, self.now_ms),
        ensures
            ({
                let node = self.nodes[id as int];
                let next = node.handle(from, rpc, self.now_ms).0;
                &&& node.current_term <= next.current_term
                &&& {
                    &&& node.role == Role::Follower
                    &&& node.voted_for is Some
                    &&& next.current_term == node.current_term
                } ==> next.voted_for == node.voted_for
            }),
    {
        let node = self.nodes[id as int];
        assert(self.is_at_home(id as int));
        if overwrites_leader(node, rpc) {
            let snapshot = rpc->InstallSnapshot_0;
            assert(node.install_from(from, snapshot, self.now_ms).0.current_term
                == node.current_term);
        } else {
            law_handling_moves_forward(node, from, rpc, self.now_ms);
        }
    }

    proof fn lemma_delivered_nodes(self, position: int, after: Self)
        requires
            self.well_formed(),
            0 <= position < self.messages.len(),
            ({
                let message = self.messages[position].message;
                let node = self.nodes[message.to as int];
                let (next, replies) = node.handle(message.from, message.rpc, self.now_ms);
                &&& node.can_handle(message.from, message.rpc, self.now_ms)
                &&& ClusterModel {
                    messages: self.messages.remove(position),
                    ..self
                }.with_node(message.to, next).enqueue(replies) == Some(after)
            }),
        ensures
            ({
                let message = self.messages[position].message;
                let node = self.nodes[message.to as int];
                after.nodes == self.nodes.update(
                    message.to as int,
                    node.handle(message.from, message.rpc, self.now_ms).0,
                )
            }),
    {
        let message = self.messages[position].message;
        let to = message.to;
        let node = self.nodes[to as int];
        let (next, replies) = node.handle(message.from, message.rpc, self.now_ms);
        let removed = ClusterModel { messages: self.messages.remove(position), ..self };
        removed.with_node(to, next).lemma_enqueue_leaves_nodes(replies);
    }

    /// Sending touches no node.
    pub proof fn lemma_enqueue_leaves_nodes(self, messages: Seq<MessageView>)
        ensures
            self.enqueue(messages) matches Some(after) ==> after.nodes == self.nodes,
        decreases messages.len(),
    {
        if messages.len() > 0 {
            assert(self.enqueue_one(messages[0]) matches Some(after) ==> after.nodes == self.nodes)
                by {
                reveal(ClusterModel::enqueue_one);
            }
            if let Some(after) = self.enqueue_one(messages[0]) {
                after.lemma_enqueue_leaves_nodes(messages.skip(1));
            }
        }
    }

    pub proof fn lemma_ticked_votes(self, id: NodeId)
        requires
            self.well_formed(),
            self.votes_are_single(),
            self.has_node(id),
        ensures
            self.ticked(id) matches Some(after) ==> after.votes_are_single(),
    {
        let node = self.nodes[id as int];
        assert(self.is_at_home(id as int));
        assert(self.is_honest(id as int));
        if node.can_tick(self.now_ms) {
            let (next, messages) = node.tick(self.now_ms);
            let placed = self.with_node(id, next);
            assert(self.ticked(id) == placed.enqueue(messages)) by {
                reveal(ClusterModel::ticked);
            }
            if let Some(after) = placed.enqueue(messages) {
                placed.lemma_same_queue(self);
                placed.lemma_enqueued(messages);
                after.lemma_comes_from_more(placed, self, messages);
                placed.lemma_enqueue_leaves_nodes(messages);
                law_ticking_is_addressed(node, self.now_ms);
                law_ticking_moves_forward(node, self.now_ms);
                law_clock_gives_no_vote(node, self.now_ms);
                assert(is_fair_move(self, after, id, None, messages));
                lemma_fair_move(self, after, id, None, messages);
            }
        } else {
            assert(self.ticked(id) is None) by {
                reveal(ClusterModel::ticked);
            }
        }
    }

    pub proof fn lemma_all_ticked_votes(self, count: nat)
        requires
            self.well_formed(),
            self.votes_are_single(),
            count <= self.nodes.len(),
        ensures
            self.ticked_first(count) matches Some(after) ==> after.votes_are_single(),
        decreases count,
    {
        if count > 0 {
            self.lemma_all_ticked_votes((count - 1) as nat);
            self.lemma_ticked_first_frame((count - 1) as nat);
            self.lemma_size();
            if let Some(after) = self.ticked_first((count - 1) as nat) {
                after.lemma_ticked_votes((count - 1) as NodeId);
            }
        }
    }

    /// The same nodes and the same queue hold the same votes.
    pub proof fn lemma_same_votes(self, other: Self)
        requires
            self.votes_are_single(),
            other.nodes == self.nodes,
            other.messages == self.messages,
        ensures
            other.votes_are_single(),
    {
        other.lemma_same_queue(self);
        self.lemma_no_move(other);
    }
}

/// In a new cluster no node has voted.
pub proof fn law_new_cluster_has_single_votes(
    size: nat,
    fault_plan: FaultPlanView,
)
    ensures
        ClusterModel::initial(size, fault_plan).votes_are_single(),
{
    let cluster = ClusterModel::initial(size, fault_plan);
    assert forall|i: int| 0 <= i < cluster.nodes.len() implies #[trigger] cluster.is_honest(i) by {
        assert(ClusterModel::peers_of(size, i).len() == size - 1);
    }
    assert forall|voter: NodeId, term: Term, candidate: NodeId|
        !#[trigger] cluster.has_vote(voter, term, candidate) by {}
}

/// No step lets a node vote twice.
pub proof fn law_step_keeps_votes_single(cluster: ClusterModel)
    requires
        cluster.well_formed(),
        cluster.votes_are_single(),
    ensures
        cluster.step() matches Some(next) ==> next.votes_are_single(),
{
    reveal(ClusterModel::step);
    cluster.lemma_faults_applied();
    let quiet = cluster.faults_applied();
    cluster.lemma_same_votes(quiet);
    quiet.lemma_drawn_well_formed();
    law_next_message_is_in_the_window(quiet);
    let (present, position) = quiet.next_ready();
    quiet.lemma_same_votes(present);
    match position {
        Some(at) => {
            present.lemma_delivered(at);
        },
        None => {
            if present.now_ms < u64::MAX {
                let later = ClusterModel { now_ms: (present.now_ms + 1) as u64, ..present };
                present.lemma_same_nodes_well_formed(later);
                present.lemma_same_votes(later);
                later.lemma_faults_applied();
                later.lemma_same_votes(later.faults_applied());
                later.faults_applied().lemma_all_ticked_votes(cluster.nodes.len());
            }
        },
    }
}

impl ClusterModel {
    proof fn lemma_same_ballots(self, id: NodeId, node: NodeModel<MemoryStateMachine>)
        requires
            self.votes_are_single(),
            self.has_node(id),
            same_ballot(self.nodes[id as int], node),
        ensures
            self.with_node(id, node).votes_are_single(),
    {
        let other = self.with_node(id, node);
        other.lemma_same_queue(self);
        self.lemma_no_move(other);
    }

    /// A node that sends something other than votes, and keeps its ballot, leaves
    /// votes single.
    proof fn lemma_sent_no_votes(
        self,
        id: NodeId,
        node: NodeModel<MemoryStateMachine>,
        messages: Seq<MessageView>,
    )
        requires
            self.well_formed(),
            self.votes_are_single(),
            self.has_node(id),
            same_ballot(self.nodes[id as int], node),
            votes_for_nobody(self.nodes[id as int], messages),
        ensures
            self.with_node(id, node).enqueue(messages) matches Some(after)
                ==> after.votes_are_single(),
    {
        let placed = self.with_node(id, node);
        assert(self.is_at_home(id as int));
        assert(self.is_honest(id as int));
        if let Some(after) = placed.enqueue(messages) {
            placed.lemma_same_queue(self);
            placed.lemma_enqueued(messages);
            after.lemma_comes_from_more(placed, self, messages);
            placed.lemma_enqueue_leaves_nodes(messages);
            assert(is_fair_move(self, after, id, None, messages));
            lemma_fair_move(self, after, id, None, messages);
        }
    }

    pub proof fn lemma_begun_votes(self, leader: NodeId, request: ClientRequestView)
        requires
            self.well_formed(),
            self.votes_are_single(),
            self.has_node(leader),
        ensures
            self.begin(leader, request) matches Some((after, _)) ==> after.votes_are_single(),
    {
        let node = self.nodes[leader as int];
        law_clients_do_not_vote(node, request);
        let (reading, started) = node.start_read();
        let (writing, begun) = node.start_write(request);
        self.lemma_same_ballots(leader, reading);
        self.lemma_same_ballots(leader, writing);
        if let Ok((_, messages)) = started {
            self.lemma_sent_no_votes(leader, reading, messages);
        }
        if let Ok((_, messages)) = begun {
            self.lemma_sent_no_votes(leader, writing, messages);
        }
    }

    proof fn lemma_settled_votes(
        self,
        leader: NodeId,
        pending: PendingRequestView,
        deadline: u64,
        fuel: nat,
    )
        requires
            self.well_formed(),
            self.votes_are_single(),
            self.has_node(leader),
        ensures
            self.settle(leader, pending, deadline, fuel) matches Some((after, _)) ==> {
                &&& after.votes_are_single()
                &&& after.has_node(leader)
            },
        decreases fuel,
    {
        if self.now_ms <= deadline && self.outcome(leader, pending) is None && fuel > 0 {
            self.lemma_step_frame();
            law_step_keeps_votes_single(self);
            if let Some(next) = self.step() {
                next.lemma_settled_votes(leader, pending, deadline, (fuel - 1) as nat);
            }
        }
    }

    proof fn lemma_served_votes(self, leader: NodeId, request: ClientRequestView, fuel: nat)
        requires
            self.well_formed(),
            self.votes_are_single(),
        ensures
            self.serve(leader, request, fuel) matches Some((after, _)) ==> after.votes_are_single(),
    {
        if self.has_node(leader) {
            self.lemma_begin_frame(leader, request);
            self.lemma_begun_votes(leader, request);
            if let Some((begun, Ok(pending))) = self.begin(leader, request) {
                let deadline = (begun.now_ms + CLIENT_TIMEOUT_MS) as u64;
                begun.lemma_settled_votes(leader, pending, deadline, fuel);
                if let Some((settled, _)) = begun.settle(leader, pending, deadline, fuel) {
                    if let PendingRequestView::Read(read, _) = pending {
                        let node = settled.nodes[leader as int];
                        settled.lemma_same_ballots(
                            leader,
                            NodeModel {
                                pending_reads: node.pending_reads.remove(read.id),
                                ..node
                            },
                        );
                    }
                }
            }
        }
    }
}

/// No request lets a node vote twice.
pub proof fn law_request_keeps_votes_single(
    cluster: ClusterModel,
    client_id: u64,
    leader: NodeId,
    request: ClientRequestView,
    fuel: nat,
)
    requires
        cluster.well_formed(),
        cluster.votes_are_single(),
    ensures
        cluster.propose_as(client_id, leader, request, fuel) matches Some((after, _))
            ==> after.votes_are_single(),
{
    let numbered = ClusterModel {
        next_operation_id: (cluster.next_operation_id + 1) as u64,
        ..cluster
    };
    cluster.lemma_same_nodes_well_formed(numbered);
    cluster.lemma_same_votes(numbered);
    numbered.lemma_served_votes(leader, request, fuel);
    if let Some((after, _)) = cluster.propose_as(client_id, leader, request, fuel) {
        let (served, _) = numbered.serve(leader, request, fuel)->0;
        served.lemma_same_votes(after);
    }
}

/// Stopping, restarting, cutting the network, healing it and compacting a log let no
/// node vote twice.
pub proof fn law_management_keeps_votes_single(
    cluster: ClusterModel,
    id: NodeId,
    groups: Seq<Seq<NodeId>>,
    index: LogIndex,
)
    requires
        cluster.votes_are_single(),
    ensures
        cluster.stop(id).votes_are_single(),
        cluster.restart(id).votes_are_single(),
        cluster.partitioned(groups).votes_are_single(),
        cluster.healed().votes_are_single(),
        cluster.has_node(id) ==> cluster.with_node(
            id,
            cluster.nodes[id as int].compact_to(index).0,
        ).votes_are_single(),
{
    cluster.lemma_same_votes(cluster.stop(id));
    cluster.lemma_same_votes(cluster.restart(id));
    cluster.lemma_same_votes(cluster.partitioned(groups));
    cluster.lemma_same_votes(cluster.healed());
    if cluster.has_node(id) {
        cluster.lemma_same_ballots(id, cluster.nodes[id as int].compact_to(index).0);
    }
}

/// A term has at most one leader at a time.
pub proof fn law_one_leader_per_term(cluster: ClusterModel, first: NodeId, second: NodeId)
    requires
        cluster.well_formed(),
        cluster.votes_are_single(),
        cluster.has_node(first),
        cluster.has_node(second),
        cluster.nodes[first as int].role == Role::Leader,
        cluster.nodes[second as int].role == Role::Leader,
        cluster.nodes[first as int].current_term == cluster.nodes[second as int].current_term,
    ensures
        first == second,
{
    let a = cluster.nodes[first as int];
    let b = cluster.nodes[second as int];
    let term = a.current_term;
    let size = cluster.nodes.len();
    assert(cluster.is_at_home(first as int) && cluster.is_at_home(second as int));
    assert(cluster.is_honest(first as int) && cluster.is_honest(second as int));
    cluster.lemma_size();
    let members = Set::new(|id: NodeId| id < size);
    let ids = Seq::new(size, |i: int| i as NodeId);
    assert(ids.no_duplicates());
    ids.unique_seq_to_set();
    assert(members =~= ids.to_set()) by {
        assert forall|id: NodeId| members.contains(id) implies ids.to_set().contains(id) by {
            assert(ids[id as int] == id);
        }
    }
    assert(a.granted_voters.subset_of(members)) by {
        assert forall|voter: NodeId| a.granted_voters.contains(voter) implies members.contains(
            voter,
        ) by {
            assert(cluster.has_counted(voter, term, first));
            assert(cluster.has_vote(voter, term, first));
            assert(cluster.is_remembered(voter, term, first));
        }
    }
    assert(b.granted_voters.subset_of(members)) by {
        assert forall|voter: NodeId| b.granted_voters.contains(voter) implies members.contains(
            voter,
        ) by {
            assert(cluster.has_counted(voter, term, second));
            assert(cluster.has_vote(voter, term, second));
            assert(cluster.is_remembered(voter, term, second));
        }
    }
    law_majorities_meet(a, members, a.granted_voters, b.granted_voters);
    let voter = choose|voter: NodeId|
        a.granted_voters.contains(voter) && b.granted_voters.contains(voter);
    assert(cluster.has_counted(voter, term, first) && cluster.has_counted(voter, term, second));
    assert(cluster.has_vote(voter, term, first) && cluster.has_vote(voter, term, second));
    assert(cluster.is_remembered(voter, term, first));
    assert(cluster.is_remembered(voter, term, second));
}

} // verus!
