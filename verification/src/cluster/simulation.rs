//! Messages on their way, the clock, and runs of the cluster.
use crate::cluster::model::due_before;
use crate::cluster::model::plus;
use crate::cluster::model::ready_among;
use crate::cluster::model::turn_of;
use crate::cluster::model::ClusterModel;
use crate::cluster::model::QueuedMessageView;
use crate::cluster::plan::LifecycleAction;
use crate::cluster::Cluster;
use crate::cluster::QueuedMessage;
use crate::node::laws::is_from_node;
use crate::node::laws::law_handling_is_addressed;
use crate::node::laws::law_ticking_is_addressed;
use crate::node::RANDOM_MULTIPLIER;
use crate::types::Message;
use crate::types::MessageView;
use crate::types::NodeId;
use vstd::prelude::*;

verus! {

broadcast use vstd::std_specs::hash::group_hash_axioms;

impl ClusterModel {
    /// Nothing changes but the queue, the random numbers and the counter.
    pub open spec fn same_but_queue(self, other: Self) -> bool {
        other == (ClusterModel {
            messages: other.messages,
            rng_state: other.rng_state,
            next_message_sequence: other.next_message_sequence,
            ..self
        })
    }

    /// All of the messages go from one node of the cluster to another.
    pub open spec fn are_addressed(self, messages: Seq<MessageView>) -> bool {
        forall|i: int| 0 <= i < messages.len() ==> self.is_addressed(#[trigger] messages[i])
    }

    pub proof fn lemma_push_message(self, message: MessageView, delay: u64)
        requires
            self.well_formed(),
            self.is_addressed(message),
        ensures
            self.push_message(message, delay) matches Some(after) ==> after.well_formed()
                && self.same_but_queue(after),
    {
        if let Some(after) = self.push_message(message, delay) {
            assert forall|i: int| 0 <= i < after.nodes.len() implies #[trigger] after.is_at_home(
                i,
            ) by {
                assert(self.is_at_home(i));
            }
            assert forall|i: int| 0 <= i < after.messages.len() implies after.is_addressed(
                (#[trigger] after.messages[i]).message,
            ) by {
                if i < self.messages.len() {
                    assert(after.messages[i] == self.messages[i]);
                    assert(self.is_addressed(self.messages[i].message));
                }
            }
        }
    }

    pub proof fn lemma_drawn_well_formed(self)
        requires
            self.well_formed(),
        ensures
            self.drawn().well_formed(),
            self.same_but_queue(self.drawn()),
    {
        self.lemma_same_nodes_well_formed(self.drawn());
    }

    pub proof fn lemma_enqueue_one(self, message: MessageView)
        requires
            self.well_formed(),
            self.is_addressed(message),
        ensures
            self.enqueue_one(message) matches Some(after) ==> after.well_formed()
                && self.same_but_queue(after),
    {
        reveal(ClusterModel::enqueue_one);
        let (first, dropped) = self.chance(self.fault_plan.drop_rate_per_mille);
        self.lemma_drawn_well_formed();
        assert(first.well_formed());
        if let Some((delayed, delay)) = first.random_delay() {
            first.lemma_drawn_well_formed();
            delayed.lemma_push_message(message, delay);
            if let Some(sent) = delayed.push_message(message, delay) {
                let (after, again) = sent.chance(first.fault_plan.duplicate_rate_per_mille);
                sent.lemma_drawn_well_formed();
                if let Some((last, extra)) = after.random_delay() {
                    after.lemma_drawn_well_formed();
                    last.lemma_push_message(message, plus(delay, extra));
                }
            }
        }
    }

    /// Sending touches nothing but the queue, the random numbers and the counter.
    pub proof fn lemma_enqueue(self, messages: Seq<MessageView>)
        requires
            self.well_formed(),
            self.are_addressed(messages),
        ensures
            self.enqueue(messages) matches Some(after) ==> after.well_formed()
                && self.same_but_queue(after),
        decreases messages.len(),
    {
        if messages.len() > 0 {
            self.lemma_enqueue_one(messages[0]);
            if let Some(after) = self.enqueue_one(messages[0]) {
                let rest = messages.skip(1);
                assert forall|i: int| 0 <= i < rest.len() implies after.is_addressed(
                    #[trigger] rest[i],
                ) by {
                    assert(self.is_addressed(messages[i + 1]));
                }
                after.lemma_enqueue(rest);
            }
        }
    }

    pub proof fn lemma_faults_applied(self)
        requires
            self.well_formed(),
        ensures
            self.faults_applied().well_formed(),
            self.faults_applied() == (ClusterModel {
                stopped: self.faults_applied().stopped,
                next_fault: self.faults_applied().next_fault,
                ..self
            }),
        decreases self.fault_plan.lifecycle.len() - self.next_fault,
    {
        if self.next_fault < self.fault_plan.lifecycle.len()
            && self.fault_plan.lifecycle[self.next_fault as int].at_ms <= self.now_ms {
            let after = self.one_fault_applied();
            assert forall|i: int| 0 <= i < after.nodes.len() implies #[trigger] after.is_at_home(
                i,
            ) by {
                assert(self.is_at_home(i));
            }
            assert forall|i: int| 0 <= i < after.messages.len() implies after.is_addressed(
                (#[trigger] after.messages[i]).message,
            ) by {
                assert(self.is_addressed(self.messages[i].message));
            }
            after.lemma_faults_applied();
        }
    }

    /// What is left of the queue when one message is taken out is addressed.
    pub proof fn lemma_removed_well_formed(self, position: int)
        requires
            self.well_formed(),
            0 <= position < self.messages.len(),
        ensures
            (ClusterModel { messages: self.messages.remove(position), ..self }).well_formed(),
    {
        let after = ClusterModel { messages: self.messages.remove(position), ..self };
        assert forall|i: int| 0 <= i < after.nodes.len() implies #[trigger] after.is_at_home(
            i,
        ) by {
            assert(self.is_at_home(i));
        }
        assert forall|i: int| 0 <= i < after.messages.len() implies after.is_addressed(
            (#[trigger] after.messages[i]).message,
        ) by {
            let j = if i < position {
                i
            } else {
                i + 1
            };
            assert(after.messages[i] == self.messages[j]);
            assert(self.is_addressed(self.messages[j].message));
        }
    }

    /// What a node of the cluster sends goes from one node of it to another.
    pub proof fn lemma_node_messages(
        self,
        id: NodeId,
        messages: Seq<MessageView>,
        answered: Option<NodeId>,
    )
        requires
            self.well_formed(),
            self.has_node(id),
            answered matches Some(sender) ==> self.has_node(sender),
            is_from_node(self.nodes[id as int], messages, answered),
        ensures
            self.are_addressed(messages),
    {
        let node = self.nodes[id as int];
        assert(self.is_at_home(id as int));
        assert forall|i: int| 0 <= i < messages.len() implies self.is_addressed(
            #[trigger] messages[i],
        ) by {
            if node.peers.contains(messages[i].to) {
                let k = choose|k: int| 0 <= k < node.peers.len() && node.peers[k] == messages[i].to;
                assert(self.has_node(node.peers[k]));
            }
        }
    }
}

/// The positions as mathematical values.
spec fn positions_view(positions: Seq<usize>) -> Seq<int> {
    Seq::new(positions.len(), |i: int| positions[i] as int)
}

/// The positions of the messages that are due are positions in the queue.
proof fn lemma_ready_in_range(messages: Seq<QueuedMessageView>, now_ms: u64, count: nat)
    requires
        count <= messages.len(),
    ensures
        forall|i: int|
            0 <= i < ready_among(messages, now_ms, count).len() ==> 0 <= #[trigger] ready_among(
                messages,
                now_ms,
                count,
            )[i] < count,
    decreases count,
{
    if count > 0 {
        let earlier = ready_among(messages, now_ms, (count - 1) as nat);
        lemma_ready_in_range(messages, now_ms, (count - 1) as nat);
        lemma_turn_in_range(messages, earlier, messages[count - 1]);
    }
}

proof fn lemma_turn_in_range(
    messages: Seq<QueuedMessageView>,
    order: Seq<int>,
    queued: QueuedMessageView,
)
    ensures
        turn_of(messages, order, queued) <= order.len(),
    decreases order.len(),
{
    if order.len() > 0 && !due_before(queued, messages[order[0]]) {
        lemma_turn_in_range(messages, order.skip(1), queued);
    }
}

fn is_due_before(left: &QueuedMessage, right: &QueuedMessage) -> (before: bool)
    ensures
        before == due_before(left@, right@),
{
    left.deliver_at < right.deliver_at || (left.deliver_at == right.deliver_at && left.sequence
        < right.sequence)
}

/// The place of the message at `index` among the `ready` ones.
fn find_turn(messages: &Vec<QueuedMessage>, ready: &Vec<usize>, index: usize) -> (turn: usize)
    requires
        index < messages.len(),
        forall|i: int| 0 <= i < ready.len() ==> #[trigger] ready[i] < messages.len(),
    ensures
        turn == turn_of(
            messages.deep_view(),
            positions_view(ready@),
            messages.deep_view()[index as int],
        ),
        turn <= ready.len(),
{
    let ghost all = messages.deep_view();
    let ghost order = positions_view(ready@);
    let ghost queued = all[index as int];
    let mut turn: usize = 0;
    assert(order.skip(0) =~= order);
    while turn < ready.len() && !is_due_before(&messages[index], &messages[ready[turn]])
        invariant
            index < messages.len(),
            forall|i: int| 0 <= i < ready.len() ==> #[trigger] ready[i] < messages.len(),
            all == messages.deep_view(),
            order == positions_view(ready@),
            queued == all[index as int],
            turn <= ready.len(),
            turn_of(all, order, queued) == turn + turn_of(all, order.skip(turn as int), queued),
        decreases ready.len() - turn,
    {
        assert(order.skip(turn as int).skip(1) =~= order.skip(turn + 1));
        turn += 1;
    }
    turn
}

/// The positions of the messages that are due, in the order in which they are.
fn collect_ready(messages: &Vec<QueuedMessage>, now_ms: u64) -> (ready: Vec<usize>)
    ensures
        positions_view(ready@) == ready_among(messages.deep_view(), now_ms, messages.len() as nat),
        forall|i: int| 0 <= i < ready.len() ==> #[trigger] ready[i] < messages.len(),
{
    let ghost all = messages.deep_view();
    let mut ready: Vec<usize> = Vec::new();
    let mut index: usize = 0;
    assert(positions_view(ready@) =~= ready_among(all, now_ms, 0));
    while index < messages.len()
        invariant
            index <= messages.len(),
            all == messages.deep_view(),
            positions_view(ready@) == ready_among(all, now_ms, index as nat),
            forall|i: int| 0 <= i < ready.len() ==> #[trigger] ready[i] < messages.len(),
        decreases messages.len() - index,
    {
        if messages[index].deliver_at <= now_ms {
            let turn: usize = find_turn(messages, &ready, index);
            let ghost before = ready@;
            ready.insert(turn, index);
            assert(positions_view(ready@) =~= positions_view(before).insert(
                turn as int,
                index as int,
            ));
        }
        index += 1;
    }
    ready
}

impl Cluster {
    /// Draws the next random number.
    fn next_random(&mut self) -> (number: u64)
        ensures
            final(self)@ == old(self)@.drawn(),
            number == final(self)@.rng_state,
    {
        self.rng_state = self.rng_state.wrapping_mul(RANDOM_MULTIPLIER).wrapping_add(1);
        self.rng_state
    }

    /// Whether something that happens at the given rate happens now.
    fn chance(&mut self, rate_per_mille: u16) -> (happens: bool)
        ensures
            (final(self)@, happens) == old(self)@.chance(rate_per_mille),
    {
        rate_per_mille != 0 && (self.next_random() % 1000) < rate_per_mille as u64
    }

    /// How long a message is under way.
    fn random_delay(&mut self) -> (delay: Option<u64>)
        ensures
            match (delay, old(self)@.random_delay()) {
                (Some(drawn), Some((after, expected))) => drawn == expected && final(self)@
                    == after,
                (None, None) => true,
                _ => false,
            },
    {
        let limit: u64 = self.fault_plan.max_delay_ms;
        if limit == 0 {
            Some(0)
        } else if limit == u64::MAX {
            None
        } else {
            Some(self.next_random() % (limit + 1))
        }
    }

    /// Whether a message from `from` can reach `to`.
    fn is_connected(&self, from: NodeId, to: NodeId) -> (connected: bool)
        ensures
            connected == self@.is_connected(from, to),
    {
        !self.stopped.contains(&from) && !self.stopped.contains(&to) && !self.is_blocked(from, to)
    }

    fn is_blocked(&self, from: NodeId, to: NodeId) -> (blocked: bool)
        ensures
            blocked == self@.blocked.contains((from, to)),
    {
        let mut i: usize = 0;
        while i < self.blocked.len()
            invariant
                i <= self.blocked.len(),
                forall|j: int| 0 <= j < i ==> self.blocked[j] != (from, to),
            decreases self.blocked.len() - i,
        {
            let pair = self.blocked[i];
            if pair.0 == from && pair.1 == to {
                assert(self.blocked@[i as int] == (from, to));
                return true;
            }
            i += 1;
        }
        false
    }

    fn push_message(&mut self, message: Message, delay: u64) -> (pushed: bool)
        ensures
            pushed == (old(self)@.push_message(message@, delay) is Some),
            pushed ==> final(self)@ == old(self)@.push_message(message@, delay)->0,
    {
        if self.next_message_sequence == u64::MAX {
            return false;
        }
        let ghost before = self@;
        let queued = QueuedMessage {
            deliver_at: self.now_ms.saturating_add(delay),
            sequence: self.next_message_sequence,
            message,
        };
        self.next_message_sequence = self.next_message_sequence + 1;
        self.messages.push(queued);
        assert(self@.messages =~= before.messages.push(queued@));
        assert(self@ =~= before.push_message(message@, delay)->0);
        true
    }

    /// Puts a message, and sometimes a second copy, on its way.
    fn send(&mut self, message: &Message) -> (sent: bool)
        ensures
            sent == (old(self)@.send(message@) is Some),
            sent ==> final(self)@ == old(self)@.send(message@)->0,
    {
        let duplicate_rate: u16 = self.fault_plan.duplicate_rate_per_mille;
        let delay: u64 = match self.random_delay() {
            Some(delay) => delay,
            None => {
                return false;
            },
        };
        if !self.push_message(message.clone(), delay) {
            return false;
        }
        if !self.chance(duplicate_rate) {
            return true;
        }
        match self.random_delay() {
            Some(extra) => self.push_message(message.clone(), delay.saturating_add(extra)),
            None => false,
        }
    }

    /// Puts a message on its way, unless it is lost.
    fn enqueue_one(&mut self, message: &Message) -> (sent: bool)
        ensures
            sent == (old(self)@.enqueue_one(message@) is Some),
            sent ==> final(self)@ == old(self)@.enqueue_one(message@)->0,
    {
        proof {
            reveal(ClusterModel::enqueue_one);
        }
        if !self.is_connected(message.from, message.to) {
            return true;
        }
        let drop_rate: u16 = self.fault_plan.drop_rate_per_mille;
        self.chance(drop_rate) || self.send(message)
    }

    /// Puts messages on their way. `false` if a limit of the machine is in the
    /// way; the cluster is then of no further use.
    pub(super) fn enqueue(&mut self, messages: Vec<Message>) -> (sent: bool)
        ensures
            sent == (old(self)@.enqueue(messages.deep_view()) is Some),
            sent ==> final(self)@ == old(self)@.enqueue(messages.deep_view())->0,
    {
        let ghost before = self@;
        let ghost all = messages.deep_view();
        let mut i: usize = 0;
        assert(all.skip(0) =~= all);
        while i < messages.len()
            invariant
                i <= messages.len(),
                all == messages.deep_view(),
                before == old(self)@,
                self@.enqueue(all.skip(i as int)) == before.enqueue(all),
            decreases messages.len() - i,
        {
            assert(all.skip(i as int).skip(1) =~= all.skip(i + 1));
            if !self.enqueue_one(&messages[i]) {
                return false;
            }
            i += 1;
        }
        true
    }

    /// Lets every fault that is due happen.
    fn apply_scheduled_faults(&mut self)
        requires
            old(self)@.well_formed(),
        ensures
            final(self)@ == old(self)@.faults_applied(),
            final(self)@.well_formed(),
    {
        let ghost before = self@;
        while self.next_fault < self.fault_plan.lifecycle.len()
            && self.fault_plan.lifecycle[self.next_fault].at_ms <= self.now_ms
            invariant
                self@.well_formed(),
                self@.faults_applied() == before.faults_applied(),
            decreases self.fault_plan.lifecycle.len() - self.next_fault,
        {
            let ghost present = self@;
            let fault = self.fault_plan.lifecycle[self.next_fault];
            match fault.action {
                LifecycleAction::Stop => {
                    self.stop(fault.node);
                },
                LifecycleAction::Restart => {
                    self.restart(fault.node);
                },
            }
            self.next_fault = self.next_fault + 1;
            assert(self@ =~= present.one_fault_applied());
            proof {
                present.lemma_faults_applied();
                assert forall|i: int| 0 <= i < self@.nodes.len() implies #[trigger] self@.is_at_home(
                    i,
                ) by {
                    assert(present.is_at_home(i));
                }
                assert forall|i: int| 0 <= i < self@.messages.len() implies self@.is_addressed(
                    (#[trigger] self@.messages[i]).message,
                ) by {
                    assert(present.is_addressed(present.messages[i].message));
                }
            }
        }
    }

    /// The position of the message that comes next.
    fn next_ready_message_index(&mut self) -> (index: Option<usize>)
        ensures
            match index {
                Some(at) => old(self)@.next_ready() == (final(self)@, Some(at as int)) && at
                    < final(self)@.messages.len(),
                None => old(self)@.next_ready() == (final(self)@, None::<int>),
            },
    {
        let ghost before = self@;
        let ready = collect_ready(&self.messages, self.now_ms);
        assert(before.ready() == positions_view(ready@));
        if ready.len() == 0 {
            return None;
        }
        let widest: usize = if self.fault_plan.reorder_window > 1 {
            self.fault_plan.reorder_window
        } else {
            1
        };
        let window: usize = if widest < ready.len() {
            widest
        } else {
            ready.len()
        };
        let offset: usize = if window == 1 {
            0
        } else {
            (self.next_random() as usize) % window
        };
        Some(ready[offset])
    }

    /// Lets the message at `index` arrive, or be lost.
    fn deliver(&mut self, index: usize) -> (done: bool)
        requires
            old(self)@.well_formed(),
            index < old(self)@.messages.len(),
        ensures
            done == (old(self)@.deliver(index as int) is Some),
            done ==> final(self)@ == old(self)@.deliver(index as int)->0
                && final(self)@.well_formed() && final(self)@.nodes.len() == old(
                self,
            )@.nodes.len(),
    {
        proof {
            reveal(ClusterModel::deliver);
        }
        let ghost before = self@;
        let message = self.messages.remove(index).message;
        let ghost after = ClusterModel {
            messages: before.messages.remove(index as int),
            ..before
        };
        assert(self@.messages =~= after.messages);
        assert(self@ =~= after);
        proof {
            before.lemma_removed_well_formed(index as int);
            assert(before.is_addressed(before.messages[index as int].message));
            assert(before.is_at_home(message.to as int));
        }
        if !self.is_connected(message.from, message.to) {
            return true;
        }
        let from: NodeId = message.from;
        let to: NodeId = message.to;
        let ghost rpc = message.rpc@;
        let ghost node = before.nodes[to as int];
        let now_ms: u64 = self.now_ms;
        match self.nodes[to].checked_handle_message(from, message.rpc, now_ms) {
            None => false,
            Some(replies) => {
                let ghost next = node.handle(from, rpc, now_ms).0;
                assert(self@.nodes =~= after.nodes.update(to as int, next));
                assert(self@ =~= after.with_node(to, next));
                proof {
                    law_handling_is_addressed(node, from, rpc, now_ms);
                    after.lemma_with_node_well_formed(to, next);
                    after.lemma_node_messages(to, replies.deep_view(), Some(from));
                    assert forall|i: int| 0 <= i < replies.deep_view().len() implies after.with_node(
                        to,
                        next,
                    ).is_addressed(#[trigger] replies.deep_view()[i]) by {
                        assert(after.is_addressed(replies.deep_view()[i]));
                    }
                    after.with_node(to, next).lemma_enqueue(replies.deep_view());
                }
                self.enqueue(replies)
            },
        }
    }

    /// Lets one node see the clock tick.
    fn tick_node(&mut self, id: NodeId) -> (done: bool)
        requires
            old(self)@.well_formed(),
            old(self)@.has_node(id),
        ensures
            done == (old(self)@.ticked(id) is Some),
            done ==> final(self)@ == old(self)@.ticked(id)->0 && final(self)@.well_formed()
                && final(self)@.nodes.len() == old(self)@.nodes.len(),
    {
        proof {
            reveal(ClusterModel::ticked);
        }
        let ghost before = self@;
        let ghost node = before.nodes[id as int];
        let now_ms: u64 = self.now_ms;
        assert(before.is_at_home(id as int));
        if !self.nodes[id].can_tick(now_ms) {
            return false;
        }
        let messages = self.nodes[id].tick(now_ms);
        let ghost next = node.tick(now_ms).0;
        assert(self@.nodes =~= before.nodes.update(id as int, next));
        assert(self@ =~= before.with_node(id, next));
        proof {
            law_ticking_is_addressed(node, now_ms);
            before.lemma_with_node_well_formed(id, next);
            before.lemma_node_messages(id, messages.deep_view(), None);
            assert forall|i: int| 0 <= i < messages.deep_view().len() implies before.with_node(
                id,
                next,
            ).is_addressed(#[trigger] messages.deep_view()[i]) by {
                assert(before.is_addressed(messages.deep_view()[i]));
            }
            before.with_node(id, next).lemma_enqueue(messages.deep_view());
        }
        self.enqueue(messages)
    }

    /// Lets the nodes that are up see the clock tick.
    fn tick_nodes(&mut self) -> (done: bool)
        requires
            old(self)@.well_formed(),
        ensures
            done == (old(self)@.ticked_first(old(self)@.nodes.len()) is Some),
            done ==> final(self)@ == old(self)@.ticked_first(old(self)@.nodes.len())->0
                && final(self)@.well_formed() && final(self)@.nodes.len() == old(
                self,
            )@.nodes.len(),
    {
        let ghost before = self@;
        let count: usize = self.nodes.len();
        let mut id: usize = 0;
        while id < count
            invariant
                id <= count,
                before == old(self)@,
                count == before.nodes.len(),
                self@.well_formed(),
                self@.nodes.len() == count,
                before.ticked_first(id as nat) == Some(self@),
            decreases count - id,
        {
            if !self.stopped.contains(&id) {
                if !self.tick_node(id) {
                    proof {
                        before.lemma_ticked_first_stops((id + 1) as nat, count as nat);
                    }
                    return false;
                }
            }
            id += 1;
        }
        true
    }

    /// One step: the next message that is due arrives, or the clock ticks if none
    /// is. `false` if a limit of the machine is in the way; the cluster is then of
    /// no further use.
    pub(super) fn try_step(&mut self) -> (done: bool)
        requires
            old(self)@.well_formed(),
        ensures
            done == (old(self)@.step() is Some),
            done ==> final(self)@ == old(self)@.step()->0 && final(self)@.well_formed()
                && final(self)@.nodes.len() == old(self)@.nodes.len(),
    {
        proof {
            reveal(ClusterModel::step);
            self@.lemma_faults_applied();
        }
        self.apply_scheduled_faults();
        let ghost present = self@;
        let next = self.next_ready_message_index();
        proof {
            present.lemma_drawn_well_formed();
        }
        match next {
            Some(index) => self.deliver(index),
            None => {
                if self.now_ms == u64::MAX {
                    return false;
                }
                self.now_ms = self.now_ms + 1;
                proof {
                    present.lemma_same_nodes_well_formed(self@);
                    self@.lemma_faults_applied();
                }
                self.apply_scheduled_faults();
                self.tick_nodes()
            },
        }
    }
}

impl ClusterModel {
    /// A node that cannot tick keeps all the nodes from ticking.
    proof fn lemma_ticked_first_stops(self, count: nat, more: nat)
        requires
            count <= more,
            self.ticked_first(count) is None,
        ensures
            self.ticked_first(more) is None,
        decreases more,
    {
        if count < more {
            self.lemma_ticked_first_stops(count, (more - 1) as nat);
        }
    }
}

} // verus!
