//! Runs of the cluster.
use crate::cluster::model::ClusterModel;
use crate::cluster::nodes_view;
use crate::cluster::Cluster;
use crate::cluster::QueuedMessage;
use crate::node::restore::copy_set;
use crate::node::Node;
use crate::types::NodeId;
use vstd::prelude::*;

verus! {

broadcast use vstd::std_specs::hash::group_hash_axioms;

impl ClusterModel {
    /// More steps than needed change nothing.
    pub proof fn lemma_run_past_more(self, deadline: u64, fuel: nat, more: nat)
        requires
            fuel <= more,
            self.run_past(deadline, fuel) is Some,
        ensures
            self.run_past(deadline, more) == self.run_past(deadline, fuel),
        decreases fuel,
    {
        if self.now_ms <= deadline {
            self.step()->0.lemma_run_past_more(deadline, (fuel - 1) as nat, (more - 1) as nat);
        }
    }

    /// However many steps are allowed, the cluster ends up the same.
    pub proof fn lemma_past(self, deadline: u64, fuel: nat)
        requires
            self.run_past(deadline, fuel) is Some,
        ensures
            self.passes(deadline),
            self.past(deadline) == self.run_past(deadline, fuel)->0,
    {
        let chosen = choose|fuel: nat| (#[trigger] self.run_past(deadline, fuel)) is Some;
        if chosen <= fuel {
            self.lemma_run_past_more(deadline, chosen, fuel);
        } else {
            self.lemma_run_past_more(deadline, fuel, chosen);
        }
    }

    /// One more step.
    pub proof fn lemma_one_more_step(self, count: nat)
        requires
            self.steps(count) is Some,
        ensures
            self.steps(count + 1) == self.steps(count)->0.step(),
        decreases count,
    {
        if count > 0 {
            self.step()->0.lemma_one_more_step((count - 1) as nat);
        } else {
            let next = self.step();
            if next is Some {
                assert(next->0.steps(0) == next);
            }
        }
    }

    /// A cluster whose clock passes the deadline comes to a stop there at the
    /// latest.
    pub proof fn lemma_passing_comes_to_a_stop(
        self,
        deadline: u64,
        stop: spec_fn(ClusterModel) -> bool,
        fuel: nat,
    )
        requires
            self.run_past(deadline, fuel) is Some,
        ensures
            self.comes_to(deadline, stop, fuel),
        decreases fuel,
    {
        if self.now_ms <= deadline {
            self.step()->0.lemma_passing_comes_to_a_stop(deadline, stop, (fuel - 1) as nat);
        }
    }
}

/// The predicate cannot deny the cluster.
pub open spec fn cannot_deny<F: Fn(&Cluster) -> bool>(predicate: F) -> spec_fn(
    ClusterModel,
) -> bool {
    |model: ClusterModel|
        forall|cluster: Cluster|
            cluster@ == model ==> !#[trigger] call_ensures(predicate, (&cluster,), false)
}

/// The predicate denied a cluster in this state.
pub open spec fn denied<F: Fn(&Cluster) -> bool>(predicate: F, model: ClusterModel) -> bool {
    exists|cluster: Cluster|
        cluster@ == model && #[trigger] call_ensures(predicate, (&cluster,), false)
}

/// `count` steps lead from `before` to `after`; before each of them the deadline
/// has not passed and the predicate has denied.
pub open spec fn ran_until<F: Fn(&Cluster) -> bool>(
    before: ClusterModel,
    deadline_ms: u64,
    predicate: F,
    count: nat,
    after: ClusterModel,
) -> bool {
    &&& before.steps(count) == Some(after)
    &&& forall|earlier: nat|
        earlier < count ==> {
            &&& (#[trigger] before.steps(earlier)) matches Some(model)
            &&& model.now_ms <= deadline_ms
            &&& denied(predicate, model)
        }
}

fn copy_nodes(nodes: &Vec<Node>) -> (copy: Vec<Node>)
    ensures
        nodes_view(copy@) == nodes_view(nodes@),
{
    let mut copy: Vec<Node> = Vec::new();
    let mut i: usize = 0;
    while i < nodes.len()
        invariant
            i <= nodes.len(),
            copy.len() == i,
            forall|j: int| 0 <= j < i ==> (#[trigger] copy[j])@ == nodes[j]@,
        decreases nodes.len() - i,
    {
        copy.push(nodes[i].clone());
        i += 1;
    }
    assert(nodes_view(copy@) =~= nodes_view(nodes@));
    copy
}

fn copy_queue(messages: &Vec<QueuedMessage>) -> (copy: Vec<QueuedMessage>)
    ensures
        copy.deep_view() == messages.deep_view(),
{
    let mut copy: Vec<QueuedMessage> = Vec::new();
    let mut i: usize = 0;
    while i < messages.len()
        invariant
            i <= messages.len(),
            copy.len() == i,
            forall|j: int| 0 <= j < i ==> (#[trigger] copy[j])@ == messages[j]@,
        decreases messages.len() - i,
    {
        copy.push(messages[i].clone());
        i += 1;
    }
    assert(copy.deep_view() =~= messages.deep_view());
    copy
}

fn copy_pairs(pairs: &Vec<(NodeId, NodeId)>) -> (copy: Vec<(NodeId, NodeId)>)
    ensures
        copy@ == pairs@,
{
    let mut copy: Vec<(NodeId, NodeId)> = Vec::new();
    let mut i: usize = 0;
    while i < pairs.len()
        invariant
            i <= pairs.len(),
            copy@ == pairs@.take(i as int),
        decreases pairs.len() - i,
    {
        copy.push(pairs[i]);
        i += 1;
    }
    assert(copy@ =~= pairs@);
    copy
}

impl Cluster {
    /// A second cluster in the same state.
    pub(super) fn duplicate(&self) -> (copy: Cluster)
        ensures
            copy@ == self@,
    {
        let copy = Cluster {
            nodes: copy_nodes(&self.nodes),
            messages: copy_queue(&self.messages),
            now_ms: self.now_ms,
            stopped: copy_set(&self.stopped),
            blocked: copy_pairs(&self.blocked),
            fault_plan: self.fault_plan.clone(),
            rng_state: self.rng_state,
            next_fault: self.next_fault,
            next_message_sequence: self.next_message_sequence,
            history: self.history.clone(),
            next_operation_id: self.next_operation_id,
        };
        assert(copy@ =~= self@);
        copy
    }

    /// One step: the next message that is due arrives, or the clock ticks if none
    /// is.
    pub(super) fn step(&mut self)
        requires
            old(self)@.well_formed(),
            old(self)@.step() is Some,
        ensures
            final(self)@ == old(self)@.step()->0,
            final(self)@.well_formed(),
            final(self)@.nodes.len() == old(self)@.nodes.len(),
    {
        self.try_step();
    }

    /// Whether `max_steps` steps are enough for the clock to pass `deadline_ms`,
    /// and no limit of the machine is in the way.
    pub fn can_run_past(&self, deadline_ms: u64, max_steps: usize) -> (possible: bool)
        requires
            self@.well_formed(),
        ensures
            possible == (self@.run_past(deadline_ms, max_steps as nat) is Some),
    {
        let mut probe = self.duplicate();
        let mut left: usize = max_steps;
        while probe.now_ms <= deadline_ms
            invariant
                probe@.well_formed(),
                probe@.run_past(deadline_ms, left as nat) == self@.run_past(
                    deadline_ms,
                    max_steps as nat,
                ),
            decreases left,
        {
            if left == 0 || !probe.try_step() {
                return false;
            }
            left -= 1;
        }
        true
    }

    /// Runs until the clock has passed the given duration.
    pub fn run_for(&mut self, duration_ms: u64)
        requires
            old(self)@.well_formed(),
            old(self)@.now_ms + duration_ms <= u64::MAX,
            old(self)@.passes((old(self)@.now_ms + duration_ms) as u64),
        ensures
            final(self)@ == old(self)@.past((old(self)@.now_ms + duration_ms) as u64),
            final(self)@.well_formed(),
    {
        let deadline: u64 = self.now_ms + duration_ms;
        let ghost before = self@;
        let ghost mut fuel = choose|fuel: nat| (#[trigger] before.run_past(deadline, fuel)) is Some;
        while self.now_ms <= deadline
            invariant
                self@.well_formed(),
                self@.run_past(deadline, fuel) == Some(before.past(deadline)),
            decreases fuel,
        {
            self.step();
            proof {
                fuel = (fuel - 1) as nat;
            }
        }
    }

    /// Runs for the given duration if `max_steps` steps are enough for it;
    /// otherwise returns `false` and leaves the cluster as it was.
    pub fn checked_run_for(&mut self, duration_ms: u64, max_steps: usize) -> (ran: bool)
        requires
            old(self)@.well_formed(),
        ensures
            ran == {
                &&& old(self)@.now_ms + duration_ms <= u64::MAX
                &&& old(self)@.run_past(
                    (old(self)@.now_ms + duration_ms) as u64,
                    max_steps as nat,
                ) is Some
            },
            ran ==> final(self)@ == old(self)@.past((old(self)@.now_ms + duration_ms) as u64),
            !ran ==> final(self)@ == old(self)@,
            final(self)@.well_formed(),
    {
        if duration_ms > u64::MAX - self.now_ms {
            return false;
        }
        let deadline: u64 = self.now_ms + duration_ms;
        if !self.can_run_past(deadline, max_steps) {
            return false;
        }
        proof {
            self@.lemma_past(deadline, max_steps as nat);
        }
        self.run_for(duration_ms);
        true
    }

    /// Runs until the predicate holds or the clock has passed `deadline_ms`; tells
    /// whether the predicate holds.
    pub fn run_until<F: Fn(&Cluster) -> bool>(&mut self, deadline_ms: u64, predicate: F) -> (found:
        bool)
        requires
            old(self)@.well_formed(),
            forall|cluster: Cluster|
                cluster@.well_formed() ==> #[trigger] call_requires(predicate, (&cluster,)),
            exists|fuel: nat| #[trigger]
                old(self)@.comes_to(deadline_ms, cannot_deny(predicate), fuel),
        ensures
            exists|count: nat| #[trigger]
                ran_until(old(self)@, deadline_ms, predicate, count, final(self)@),
            call_ensures(predicate, (&*final(self),), found),
            found || final(self)@.now_ms > deadline_ms,
            final(self)@.well_formed(),
    {
        let ghost before = self@;
        let ghost stop = cannot_deny(predicate);
        let ghost mut fuel = choose|fuel: nat| #[trigger] before.comes_to(deadline_ms, stop, fuel);
        let ghost mut count: nat = 0;
        while self.now_ms <= deadline_ms
            invariant
                before == old(self)@,
                stop == cannot_deny(predicate),
                self@.well_formed(),
                forall|cluster: Cluster|
                    cluster@.well_formed() ==> #[trigger] call_requires(predicate, (&cluster,)),
                self@.comes_to(deadline_ms, stop, fuel),
                before.steps(count) == Some(self@),
                forall|earlier: nat|
                    earlier < count ==> {
                        &&& (#[trigger] before.steps(earlier)) matches Some(model)
                        &&& model.now_ms <= deadline_ms
                        &&& denied(predicate, model)
                    },
            decreases fuel,
        {
            if predicate(self) {
                assert(ran_until(before, deadline_ms, predicate, count, self@));
                return true;
            }
            assert(call_ensures(predicate, (&*self,), false));
            assert(denied(predicate, self@));
            assert(!stop(self@));
            self.step();
            proof {
                before.lemma_one_more_step(count);
                fuel = (fuel - 1) as nat;
                count = count + 1;
            }
        }
        let found = predicate(self);
        assert(ran_until(before, deadline_ms, predicate, count, self@));
        found
    }

    /// Runs until the predicate holds or the clock has passed `deadline_ms`, if
    /// `max_steps` steps are enough for the clock to get there; otherwise returns
    /// `None` and leaves the cluster as it was.
    pub fn checked_run_until<F: Fn(&Cluster) -> bool>(
        &mut self,
        deadline_ms: u64,
        max_steps: usize,
        predicate: F,
    ) -> (found: Option<bool>)
        requires
            old(self)@.well_formed(),
            forall|cluster: Cluster|
                cluster@.well_formed() ==> #[trigger] call_requires(predicate, (&cluster,)),
        ensures
            (found is Some) == (old(self)@.run_past(deadline_ms, max_steps as nat) is Some),
            found matches Some(holds) ==> {
                &&& exists|count: nat| #[trigger]
                    ran_until(old(self)@, deadline_ms, predicate, count, final(self)@)
                &&& call_ensures(predicate, (&*final(self),), holds)
                &&& holds || final(self)@.now_ms > deadline_ms
            },
            found is None ==> final(self)@ == old(self)@,
            final(self)@.well_formed(),
    {
        if !self.can_run_past(deadline_ms, max_steps) {
            return None;
        }
        proof {
            self@.lemma_passing_comes_to_a_stop(
                deadline_ms,
                cannot_deny(predicate),
                max_steps as nat,
            );
        }
        Some(self.run_until(deadline_ms, predicate))
    }
}

} // verus!
