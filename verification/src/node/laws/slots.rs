//! The log of a node, counted from its slots alone.
use crate::node::model::NodeModel;
use crate::state_machine::StateMachine;
use crate::types::LogEntryView;
use crate::types::MessageView;
use crate::types::NodeId;
use crate::types::RpcView;
use crate::types::Term;
use vstd::prelude::*;

verus! {

/// The index of the last slot. Without a snapshot the first slot has index one, with one
/// it has the snapshot's.
pub open spec fn end_of<S: StateMachine>(node: NodeModel<S>) -> int {
    if node.log_base_index == 0 {
        node.log.len() as int
    } else {
        node.log_base_index + node.log.len() - 1
    }
}

/// The term of the last slot, zero where there is none.
pub open spec fn end_term<S: StateMachine>(node: NodeModel<S>) -> Term {
    if node.log.len() == 0 {
        0
    } else {
        node.log.last().term
    }
}

/// What stands in the slot of an index.
pub open spec fn slot_of<S: StateMachine>(node: NodeModel<S>, index: int) -> Option<LogEntryView> {
    if node.log_base_index == 0 && 1 <= index <= node.log.len() {
        Some(node.log[index - 1])
    } else if node.log_base_index > 0 && node.log_base_index <= index < node.log_base_index
        + node.log.len() {
        Some(node.log[index - node.log_base_index])
    } else {
        None
    }
}

/// More than half of the cluster, which is the node and its peers.
pub open spec fn is_most_of<S: StateMachine>(node: NodeModel<S>, count: nat) -> bool {
    2 * count > node.peers.len() + 1
}

/// The only message is one to `to`.
pub open spec fn is_sole<S: StateMachine>(
    node: NodeModel<S>,
    sent: Seq<MessageView>,
    to: NodeId,
    rpc: RpcView,
) -> bool {
    &&& sent.len() == 1
    &&& sent[0].from == node.id
    &&& sent[0].to == to
    &&& sent[0].rpc == rpc
}

/// Every peer is sent the same, in the order of the peers.
pub open spec fn reaches_peers<S: StateMachine>(
    node: NodeModel<S>,
    sent: Seq<MessageView>,
    rpc: RpcView,
) -> bool {
    &&& sent.len() == node.peers.len()
    &&& forall|i: int|
        0 <= i < sent.len() ==> (#[trigger] sent[i]).from == node.id && sent[i].to == node.peers[i]
            && sent[i].rpc == rpc
}

/// The log is counted as its slots are: its end, the terms and the entries in it.
pub proof fn law_log_is_counted_by_its_slots<S: StateMachine>(node: NodeModel<S>, index: int)
    requires
        node.well_formed(),
    ensures
        node.last_index() == end_of(node),
        node.last_log_term() == end_term(node),
        node.term_at(index) == (if index == 0 {
            Some(0)
        } else {
            match slot_of(node, index) {
                Some(slot) => Some(slot.term),
                None => None,
            }
        }),
        node.entry_at(index) == (if index > node.log_base_index {
            slot_of(node, index)
        } else {
            None
        }),
{
}

/// A majority is a count that, doubled, is more than the cluster.
pub proof fn law_majority_is_more_than_half<S: StateMachine>(node: NodeModel<S>, count: nat)
    ensures
        count >= node.majority() <==> is_most_of(node, count),
{
}

} // verus!
