//! What becomes of a message, number by number: lost, delayed, doubled or overtaken.
use crate::cluster::laws::law_ready_messages_are_in_order;
use crate::cluster::model::ready_among;
use crate::cluster::model::ClusterModel;
use crate::cluster::model::QueuedMessageView;
use crate::cluster::plan::FaultPlanView;
use crate::types::MessageView;
use crate::types::NodeId;
use vstd::prelude::*;

verus! {

/// The number that is drawn after `state`, which is also the next state.
pub open spec fn number_after(state: u64) -> u64 {
    state.wrapping_mul(6364136223846793005).wrapping_add(1)
}

/// A message gets from one node to the other: both are up and nothing stands between.
pub open spec fn is_open(cluster: ClusterModel, from: NodeId, to: NodeId) -> bool {
    &&& !cluster.stopped.contains(from)
    &&& !cluster.stopped.contains(to)
    &&& !cluster.blocked.contains((from, to))
}

/// The time `ms` after now, or the end of time.
pub open spec fn in_ms(cluster: ClusterModel, ms: int) -> u64 {
    if cluster.now_ms + ms > u64::MAX {
        u64::MAX
    } else {
        (cluster.now_ms + ms) as u64
    }
}

/// A message between nodes that cannot reach each other is lost, and no number is drawn.
/// Any other is lost exactly if messages are to be lost at all and the next number is,
/// out of a thousand, below the rate at which they are; one number is drawn for that.
pub proof fn law_message_is_lost_at_the_rate(cluster: ClusterModel, message: MessageView)
    requires
        cluster.next_message_sequence < u64::MAX - 1,
        cluster.fault_plan.max_delay_ms < u64::MAX,
    ensures
        ({
            let rate = cluster.fault_plan.drop_rate_per_mille;
            let number = number_after(cluster.rng_state);
            let open = is_open(cluster, message.from, message.to);
            let lost = rate > 0 && number % 1000 < rate;
            cluster.enqueue_one(message) matches Some(after) && {
                &&& !open ==> after == cluster
                &&& open && lost ==> after == (ClusterModel { rng_state: number, ..cluster })
                &&& after.messages == cluster.messages <==> !open || lost
                &&& open && !lost ==> after.messages.len() > cluster.messages.len() && after.messages[
                cluster.messages.len() as int].message == message
            }
        }),
{
    reveal(ClusterModel::enqueue_one);
    let after = cluster.enqueue_one(message)->0;
    if after.messages == cluster.messages {
        assert(after.messages.len() == cluster.messages.len());
    }
}

/// Of the thousand ways a number can fall, as many lose a message as the rate says: a
/// message that is lost at one rate is lost at every higher one, at the rates from zero to
/// `number % 1000` it is kept, and at all above it is lost.
pub proof fn law_higher_rates_lose_more(
    cluster: ClusterModel,
    message: MessageView,
    rate: u16,
)
    requires
        cluster.next_message_sequence < u64::MAX - 1,
        cluster.fault_plan.max_delay_ms < u64::MAX,
        is_open(cluster, message.from, message.to),
    ensures
        ({
            let plan = FaultPlanView {
                drop_rate_per_mille: rate,
                ..cluster.fault_plan
            };
            let other = ClusterModel { fault_plan: plan, ..cluster };
            let number = number_after(cluster.rng_state);
            &&& other.enqueue_one(message) matches Some(after) && (after.messages
                == cluster.messages <==> rate > number % 1000)
        }),
{
    let plan = FaultPlanView {
        drop_rate_per_mille: rate,
        ..cluster.fault_plan
    };
    law_message_is_lost_at_the_rate(ClusterModel { fault_plan: plan, ..cluster }, message);
}

/// What becomes of a message that is not lost, from the numbers drawn for it: it arrives
/// after a delay that is the first number, counted round past the greatest delay, and at
/// once where there is none; a second copy follows exactly if messages are doubled at all
/// and the next number is, out of a thousand, below the rate at which they are, and takes
/// another such delay on top. Copies are numbered in the order of sending.
pub proof fn law_message_is_delayed_and_doubled_by_the_numbers(
    cluster: ClusterModel,
    message: MessageView,
)
    requires
        cluster.next_message_sequence < u64::MAX - 1,
        cluster.fault_plan.max_delay_ms < u64::MAX,
        is_open(cluster, message.from, message.to),
        cluster.fault_plan.drop_rate_per_mille == 0 || number_after(cluster.rng_state) % 1000
            >= cluster.fault_plan.drop_rate_per_mille,
    ensures
        ({
            let most = cluster.fault_plan.max_delay_ms;
            let rate = cluster.fault_plan.duplicate_rate_per_mille;
            let kept = if cluster.fault_plan.drop_rate_per_mille == 0 {
                cluster.rng_state
            } else {
                number_after(cluster.rng_state)
            };
            let sent = if most == 0 {
                kept
            } else {
                number_after(kept)
            };
            let delay = if most == 0 {
                0
            } else {
                sent as int % (most + 1)
            };
            let told = if rate == 0 {
                sent
            } else {
                number_after(sent)
            };
            let again = rate > 0 && told % 1000 < rate;
            let last = if again && most > 0 {
                number_after(told)
            } else {
                told
            };
            let extra = if most == 0 {
                0
            } else {
                last as int % (most + 1)
            };
            let first = QueuedMessageView {
                deliver_at: in_ms(cluster, delay),
                sequence: cluster.next_message_sequence,
                message,
            };
            let second = QueuedMessageView {
                deliver_at: in_ms(cluster, delay + extra),
                sequence: (cluster.next_message_sequence + 1) as u64,
                message,
            };
            cluster.enqueue_one(message) == Some(
                (ClusterModel {
                    messages: if again {
                        cluster.messages.push(first).push(second)
                    } else {
                        cluster.messages.push(first)
                    },
                    next_message_sequence: (cluster.next_message_sequence + if again {
                        2int
                    } else {
                        1int
                    }) as u64,
                    rng_state: last,
                    ..cluster
                }),
            )
        }),
{
    reveal(ClusterModel::enqueue_one);
}

/// Messages are sent one after the other: what follows the first is sent by the cluster
/// that sent the first.
pub proof fn law_messages_are_sent_in_turn(
    cluster: ClusterModel,
    first: MessageView,
    rest: Seq<MessageView>,
)
    ensures
        cluster.enqueue(Seq::empty()) == Some(cluster),
        cluster.enqueue(seq![first] + rest) == (match cluster.enqueue_one(first) {
            Some(after) => after.enqueue(rest),
            None => None,
        }),
{
    let all = seq![first] + rest;
    assert(all.skip(1) =~= rest);
}

/// The message at one position is due before that at the other: its time is earlier, or
/// the same and it was sent before.
pub open spec fn comes_before(cluster: ClusterModel, one: int, other: int) -> bool {
    let left = cluster.messages[one];
    let right = cluster.messages[other];
    ||| left.deliver_at < right.deliver_at
    ||| left.deliver_at == right.deliver_at && left.sequence < right.sequence
}

/// The order lists each position whose message is due, once, and none behind one that it
/// comes before.
pub open spec fn lists_the_due(cluster: ClusterModel, order: Seq<int>) -> bool {
    &&& order.no_duplicates()
    &&& forall|position: int| #[trigger]
        order.contains(position) <==> 0 <= position < cluster.messages.len()
            && cluster.messages[position].deliver_at <= cluster.now_ms
    &&& forall|i: int, j: int|
        0 <= i < j < order.len() ==> !comes_before(
            cluster,
            #[trigger] order[j],
            #[trigger] order[i],
        )
}

/// The message that comes next is taken from those that are due, in the order in which
/// they are: without a window the first; with one, that at the place of the next number,
/// counted round among as many as the window allows and are due.
pub proof fn law_next_message_is_taken_by_the_number(cluster: ClusterModel)
    ensures
        exists|order: Seq<int>| #[trigger]
            lists_the_due(cluster, order) && {
                let number = number_after(cluster.rng_state);
                let window = cluster.fault_plan.reorder_window;
                let choice: int = if window < order.len() {
                    window as int
                } else {
                    order.len() as int
                };
                &&& order.len() == 0 ==> cluster.next_ready() == (cluster, None::<int>)
                &&& order.len() > 0 && choice <= 1 ==> cluster.next_ready() == (
                    cluster,
                    Some(order[0]),
                )
                &&& choice > 1 ==> cluster.next_ready() == (
                    (ClusterModel { rng_state: number, ..cluster }),
                    Some(order[(number as usize) as int % choice]),
                )
            },
{
    let order = cluster.ready();
    law_ready_messages_are_in_order(cluster.messages, cluster.now_ms, cluster.messages.len());
    assert(order == ready_among(cluster.messages, cluster.now_ms, cluster.messages.len()));
    assert forall|i: int, j: int| 0 <= i < j < order.len() implies !comes_before(
        cluster,
        #[trigger] order[j],
        #[trigger] order[i],
    ) by {}
    assert(lists_the_due(cluster, order));
}

} // verus!
