//! What goes wrong in a simulation, and when.
use crate::types::NodeId;
use vstd::prelude::*;

verus! {

/// A rate that means "always".
pub const FULL_RATE: u16 = 1000;

#[derive(Clone, Copy, Debug, PartialEq, Eq, Structural)]
pub enum LifecycleAction {
    Stop,
    Restart,
}

/// A node that stops or restarts at a given time.
#[derive(Clone, Copy, Debug, PartialEq, Eq, Structural)]
pub struct ScheduledFault {
    pub at_ms: u64,
    pub node: NodeId,
    pub action: LifecycleAction,
}

/// The faults of a simulation. Everything random is drawn from the seed, so that
/// the same plan gives the same run.
#[derive(Debug, PartialEq, Eq)]
pub struct FaultPlan {
    pub seed: u64,
    pub max_delay_ms: u64,
    pub drop_rate_per_mille: u16,
    pub duplicate_rate_per_mille: u16,
    pub reorder_window: usize,
    pub lifecycle: Vec<ScheduledFault>,
}

#[verifier::ext_equal]
pub struct FaultPlanView {
    pub seed: u64,
    pub max_delay_ms: u64,
    pub drop_rate_per_mille: u16,
    pub duplicate_rate_per_mille: u16,
    pub reorder_window: usize,
    pub lifecycle: Seq<ScheduledFault>,
}

impl View for FaultPlan {
    type V = FaultPlanView;

    open spec fn view(&self) -> FaultPlanView {
        FaultPlanView {
            seed: self.seed,
            max_delay_ms: self.max_delay_ms,
            drop_rate_per_mille: self.drop_rate_per_mille,
            duplicate_rate_per_mille: self.duplicate_rate_per_mille,
            reorder_window: self.reorder_window,
            lifecycle: self.lifecycle@,
        }
    }
}

/// How many leading faults are due no later than `at_ms`.
pub open spec fn slot_for(faults: Seq<ScheduledFault>, at_ms: u64) -> nat
    decreases faults.len(),
{
    if faults.len() > 0 && faults[0].at_ms <= at_ms {
        1 + slot_for(faults.skip(1), at_ms)
    } else {
        0
    }
}

/// The faults in the order of their times; those of one time keep their order.
pub open spec fn in_time_order(faults: Seq<ScheduledFault>) -> Seq<ScheduledFault>
    decreases faults.len(),
{
    if faults.len() == 0 {
        Seq::empty()
    } else {
        let earlier = in_time_order(faults.drop_last());
        earlier.insert(slot_for(earlier, faults.last().at_ms) as int, faults.last())
    }
}

impl FaultPlanView {
    /// A plan without faults.
    pub open spec fn quiet(seed: u64) -> FaultPlanView {
        FaultPlanView {
            seed,
            max_delay_ms: 0,
            drop_rate_per_mille: 0,
            duplicate_rate_per_mille: 0,
            reorder_window: 0,
            lifecycle: Seq::empty(),
        }
    }

    /// The plan with one more fault.
    pub open spec fn scheduling(self, fault: ScheduledFault) -> FaultPlanView {
        FaultPlanView { lifecycle: in_time_order(self.lifecycle.push(fault)), ..self }
    }
}

/// The rate, cut off where it means "always".
pub open spec fn capped(rate: u16) -> u16 {
    if rate < FULL_RATE {
        rate
    } else {
        FULL_RATE
    }
}

fn cap(rate: u16) -> (result: u16)
    ensures
        result == capped(rate),
{
    if rate < FULL_RATE {
        rate
    } else {
        FULL_RATE
    }
}

fn find_slot(faults: &Vec<ScheduledFault>, at_ms: u64) -> (slot: usize)
    ensures
        slot == slot_for(faults@, at_ms),
        slot <= faults.len(),
{
    let mut slot: usize = 0;
    assert(faults@.skip(0) =~= faults@);
    while slot < faults.len() && faults[slot].at_ms <= at_ms
        invariant
            slot <= faults.len(),
            slot_for(faults@, at_ms) == slot + slot_for(faults@.skip(slot as int), at_ms),
        decreases faults.len() - slot,
    {
        assert(faults@.skip(slot as int).skip(1) =~= faults@.skip(slot + 1));
        slot += 1;
    }
    slot
}

fn sort_by_time(faults: &Vec<ScheduledFault>) -> (result: Vec<ScheduledFault>)
    ensures
        result@ == in_time_order(faults@),
{
    let mut result: Vec<ScheduledFault> = Vec::new();
    let mut i: usize = 0;
    while i < faults.len()
        invariant
            i <= faults.len(),
            result.len() == i,
            result@ == in_time_order(faults@.take(i as int)),
        decreases faults.len() - i,
    {
        let fault = faults[i];
        let slot: usize = find_slot(&result, fault.at_ms);
        assert(faults@.take(i + 1).drop_last() =~= faults@.take(i as int));
        result.insert(slot, fault);
        i += 1;
    }
    assert(faults@.take(i as int) =~= faults@);
    result
}

impl FaultPlan {
    /// A plan without faults, with the given seed.
    pub fn seeded(seed: u64) -> (plan: Self)
        ensures
            plan@ == FaultPlanView::quiet(seed),
    {
        let plan = FaultPlan {
            seed,
            max_delay_ms: 0,
            drop_rate_per_mille: 0,
            duplicate_rate_per_mille: 0,
            reorder_window: 0,
            lifecycle: Vec::new(),
        };
        assert(plan@ =~= FaultPlanView::quiet(seed));
        plan
    }

    pub fn with_max_delay_ms(self, max_delay_ms: u64) -> (plan: Self)
        ensures
            plan@ == (FaultPlanView { max_delay_ms, ..self@ }),
    {
        let mut plan = self;
        plan.max_delay_ms = max_delay_ms;
        plan
    }

    pub fn with_drop_rate_per_mille(self, rate: u16) -> (plan: Self)
        ensures
            plan@ == (FaultPlanView { drop_rate_per_mille: capped(rate), ..self@ }),
    {
        let mut plan = self;
        plan.drop_rate_per_mille = cap(rate);
        plan
    }

    pub fn with_duplicate_rate_per_mille(self, rate: u16) -> (plan: Self)
        ensures
            plan@ == (FaultPlanView { duplicate_rate_per_mille: capped(rate), ..self@ }),
    {
        let mut plan = self;
        plan.duplicate_rate_per_mille = cap(rate);
        plan
    }

    pub fn with_reorder_window(self, window: usize) -> (plan: Self)
        ensures
            plan@ == (FaultPlanView { reorder_window: window, ..self@ }),
    {
        let mut plan = self;
        plan.reorder_window = window;
        plan
    }

    fn schedule(self, fault: ScheduledFault) -> (plan: Self)
        ensures
            plan@ == self@.scheduling(fault),
    {
        let mut plan = self;
        plan.lifecycle.push(fault);
        plan.lifecycle = sort_by_time(&plan.lifecycle);
        plan
    }

    /// The plan with `node` stopping at `at_ms`.
    pub fn stop_at(self, at_ms: u64, node: NodeId) -> (plan: Self)
        ensures
            plan@ == self@.scheduling(
                (ScheduledFault { at_ms, node, action: LifecycleAction::Stop }),
            ),
    {
        self.schedule(ScheduledFault { at_ms, node, action: LifecycleAction::Stop })
    }

    /// The plan with `node` restarting at `at_ms`.
    pub fn restart_at(self, at_ms: u64, node: NodeId) -> (plan: Self)
        ensures
            plan@ == self@.scheduling(
                (ScheduledFault { at_ms, node, action: LifecycleAction::Restart }),
            ),
    {
        self.schedule(ScheduledFault { at_ms, node, action: LifecycleAction::Restart })
    }
}

impl Default for FaultPlan {
    fn default() -> (plan: Self)
        ensures
            plan@ == FaultPlanView::quiet(0),
    {
        FaultPlan::seeded(0)
    }
}

impl Clone for FaultPlan {
    fn clone(&self) -> (copy: Self)
        ensures
            copy@ == self@,
    {
        let lifecycle = self.lifecycle.clone();
        assert(lifecycle@ =~= self.lifecycle@);
        FaultPlan {
            seed: self.seed,
            max_delay_ms: self.max_delay_ms,
            drop_rate_per_mille: self.drop_rate_per_mille,
            duplicate_rate_per_mille: self.duplicate_rate_per_mille,
            reorder_window: self.reorder_window,
            lifecycle,
        }
    }
}

proof fn lemma_slot(faults: Seq<ScheduledFault>, at_ms: u64)
    ensures
        slot_for(faults, at_ms) <= faults.len(),
        forall|i: int| 0 <= i < slot_for(faults, at_ms) ==> (#[trigger] faults[i]).at_ms <= at_ms,
        slot_for(faults, at_ms) < faults.len() ==> faults[slot_for(faults, at_ms) as int].at_ms
            > at_ms,
    decreases faults.len(),
{
    if faults.len() > 0 && faults[0].at_ms <= at_ms {
        lemma_slot(faults.skip(1), at_ms);
        assert forall|i: int| 0 <= i < slot_for(faults, at_ms) implies (#[trigger] faults[i]).at_ms
            <= at_ms by {
            if i > 0 {
                assert(faults[i] == faults.skip(1)[i - 1]);
            }
        }
    }
}

/// The faults due at `at_ms`, in their order.
pub open spec fn due_at(faults: Seq<ScheduledFault>, at_ms: u64) -> Seq<ScheduledFault> {
    faults.filter(|fault: ScheduledFault| fault.at_ms == at_ms)
}

proof fn lemma_filter_concat(left: Seq<ScheduledFault>, right: Seq<ScheduledFault>, at_ms: u64)
    ensures
        due_at(left + right, at_ms) == due_at(left, at_ms) + due_at(right, at_ms),
    decreases right.len(),
{
    reveal(Seq::filter);
    if right.len() == 0 {
        assert(left + right =~= left);
        assert(due_at(left, at_ms) + due_at(right, at_ms) =~= due_at(left, at_ms));
    } else {
        lemma_filter_concat(left, right.drop_last(), at_ms);
        assert((left + right).drop_last() =~= left + right.drop_last());
        assert(due_at(left + right, at_ms) =~= due_at(left, at_ms) + due_at(right, at_ms));
    }
}

proof fn lemma_none_due(faults: Seq<ScheduledFault>, at_ms: u64)
    requires
        forall|i: int| 0 <= i < faults.len() ==> (#[trigger] faults[i]).at_ms != at_ms,
    ensures
        due_at(faults, at_ms) == Seq::<ScheduledFault>::empty(),
    decreases faults.len(),
{
    reveal(Seq::filter);
    if faults.len() > 0 {
        assert forall|i: int| 0 <= i < faults.drop_last().len() implies (
        #[trigger] faults.drop_last()[i]).at_ms != at_ms by {
            assert(faults.drop_last()[i] == faults[i]);
        }
        lemma_none_due(faults.drop_last(), at_ms);
        assert(faults[faults.len() - 1].at_ms != at_ms);
    }
}

/// A schedule is in the order of times, and the faults of one time come in the
/// order in which they were scheduled.
pub proof fn law_schedule_is_in_time_order(faults: Seq<ScheduledFault>)
    ensures
        in_time_order(faults).len() == faults.len(),
        forall|i: int, j: int|
            0 <= i < j < faults.len() ==> (#[trigger] in_time_order(faults)[i]).at_ms <= (
            #[trigger] in_time_order(faults)[j]).at_ms,
        forall|at_ms: u64| #[trigger]
            due_at(in_time_order(faults), at_ms) == due_at(faults, at_ms),
    decreases faults.len(),
{
    if faults.len() > 0 {
        let earlier = in_time_order(faults.drop_last());
        let fault = faults.last();
        let slot = slot_for(earlier, fault.at_ms) as int;
        let all = earlier.insert(slot, fault);
        law_schedule_is_in_time_order(faults.drop_last());
        lemma_slot(earlier, fault.at_ms);
        assert forall|i: int, j: int| 0 <= i < j < all.len() implies (#[trigger] all[i]).at_ms <= (
        #[trigger] all[j]).at_ms by {
            let a = if i < slot {
                i
            } else {
                i - 1
            };
            let b = if j < slot {
                j
            } else {
                j - 1
            };
            if i != slot && j != slot {
                assert(all[i] == earlier[a] && all[j] == earlier[b]);
            } else if j == slot {
                assert(all[i] == earlier[i]);
            } else {
                assert(all[j] == earlier[b]);
                if b > slot {
                    assert(earlier[slot].at_ms <= earlier[b].at_ms);
                }
            }
        }
        assert forall|at_ms: u64| #[trigger] due_at(all, at_ms) == due_at(faults, at_ms) by {
            let front = earlier.take(slot);
            let back = earlier.skip(slot);
            let single = seq![fault];
            assert(all =~= front + single + back);
            assert(earlier =~= front + back);
            assert(faults =~= faults.drop_last() + single);
            lemma_filter_concat(front + single, back, at_ms);
            lemma_filter_concat(front, single, at_ms);
            lemma_filter_concat(front, back, at_ms);
            lemma_filter_concat(faults.drop_last(), single, at_ms);
            assert(due_at(earlier, at_ms) == due_at(faults.drop_last(), at_ms));
            if at_ms == fault.at_ms {
                assert forall|i: int| 0 <= i < back.len() implies (#[trigger] back[i]).at_ms
                    != at_ms by {
                    assert(back[i] == earlier[slot + i]);
                    if i > 0 {
                        assert(earlier[slot].at_ms <= earlier[slot + i].at_ms);
                    }
                }
                lemma_none_due(back, at_ms);
            } else {
                lemma_none_due(single, at_ms);
            }
            assert(due_at(all, at_ms) =~= due_at(faults, at_ms));
        }
    } else {
        assert(in_time_order(faults) =~= faults);
    }
}

/// A rate is out of a thousand, and one above that means the same as a thousand.
pub proof fn law_rate_is_out_of_a_thousand(rate: u16)
    ensures
        rate <= 1000 ==> capped(rate) == rate,
        rate > 1000 ==> capped(rate) == 1000,
{
}

/// A fault that is scheduled stands in the schedule at its time, behind those of the same
/// time that were scheduled before; the others keep their times and their order, and the
/// schedule stays in the order of times. Nothing else of the plan changes.
pub proof fn law_fault_is_scheduled_at_its_time(plan: FaultPlanView, fault: ScheduledFault)
    ensures
        ({
            let after = plan.scheduling(fault);
            &&& after == (FaultPlanView { lifecycle: after.lifecycle, ..plan })
            &&& after.lifecycle.len() == plan.lifecycle.len() + 1
            &&& forall|i: int, j: int|
                0 <= i < j < after.lifecycle.len() ==> (#[trigger] after.lifecycle[i]).at_ms <= (
                #[trigger] after.lifecycle[j]).at_ms
            &&& due_at(after.lifecycle, fault.at_ms) == due_at(
                plan.lifecycle,
                fault.at_ms,
            ).push(fault)
            &&& forall|at_ms: u64|
                at_ms != fault.at_ms ==> #[trigger] due_at(after.lifecycle, at_ms) == due_at(
                    plan.lifecycle,
                    at_ms,
                )
        }),
{
    reveal(Seq::filter);
    let all = plan.lifecycle.push(fault);
    law_schedule_is_in_time_order(all);
    assert(all.drop_last() =~= plan.lifecycle);
    assert forall|at_ms: u64| at_ms != fault.at_ms implies #[trigger] due_at(
        plan.scheduling(fault).lifecycle,
        at_ms,
    ) == due_at(plan.lifecycle, at_ms) by {
        assert(due_at(in_time_order(all), at_ms) == due_at(all, at_ms));
        assert(all.last() == fault);
    }
    assert(due_at(in_time_order(all), fault.at_ms) == due_at(all, fault.at_ms));
}

/// A plan without faults loses, delays, doubles and overtakes nothing and stops nobody.
pub proof fn law_quiet_plan_has_no_faults(seed: u64)
    ensures
        FaultPlanView::quiet(seed).seed == seed,
        FaultPlanView::quiet(seed).max_delay_ms == 0,
        FaultPlanView::quiet(seed).drop_rate_per_mille == 0,
        FaultPlanView::quiet(seed).duplicate_rate_per_mille == 0,
        FaultPlanView::quiet(seed).reorder_window <= 1,
        FaultPlanView::quiet(seed).lifecycle.len() == 0,
{
}

} // verus!
