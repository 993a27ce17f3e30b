//! How a node starts, anew or from what was kept of it.
use crate::error::Error;
use crate::node::laws::shipping::is_in_order;
use crate::node::laws::shipping::law_valid_snapshot_is_in_order;
use crate::node::laws::slots::end_of;
use crate::node::laws::slots::slot_of;
use crate::node::model::NodeModel;
use crate::node::replication::lemma_apply_committed_frame;
use crate::state_machine::StateMachine;
use crate::types::LogEntryView;
use crate::types::LogIndex;
use crate::types::NodeId;
use crate::types::Role;
use crate::types::SnapshotView;
use crate::types::Term;
use vstd::prelude::*;

verus! {

/// The node follows nobody, stands for nothing and knows nothing of its peers.
pub open spec fn is_out_of_all_office<S: StateMachine>(node: NodeModel<S>) -> bool {
    &&& node.role == Role::Follower
    &&& node.leader_id is None
    &&& node.votes_granted == 0
    &&& node.granted_voters.len() == 0
    &&& node.pre_vote_term is None
    &&& node.pre_vote_granted.len() == 0
    &&& node.leader_transfer_target is None
    &&& node.incoming_snapshot is None
    &&& forall|peer: NodeId| !#[trigger] node.match_index.contains_key(peer)
    &&& forall|peer: NodeId| !#[trigger] node.next_index.contains_key(peer)
    &&& forall|peer: NodeId| !#[trigger] node.last_quorum_contact.contains_key(peer)
    &&& forall|id: u64| !#[trigger] node.pending_reads.contains_key(id)
    &&& node.last_leader_contact == 0
    &&& node.last_heartbeat_at == 0
    &&& node.term_start_index == 0
    &&& 150 <= node.election_deadline <= 300
}

/// A new node is a follower of term zero that has voted for nobody, with an empty log and
/// with the state it was given, which it takes for applied up to the index that the state
/// names.
pub proof fn law_new_node_holds_nothing<S: StateMachine>(
    id: NodeId,
    peers: Seq<NodeId>,
    state: S::V,
)
    ensures
        ({
            let node = NodeModel::<S>::initial(id, peers, state);
            &&& node.id == id
            &&& node.peers == peers
            &&& is_out_of_all_office(node)
            &&& node.current_term == 0
            &&& node.voted_for is None
            &&& node.log.len() == 0
            &&& node.log_base_index == 0
            &&& node.snapshot is None
            &&& node.commit_index == 0
            &&& node.state == state
            &&& node.last_applied == S::applied_index(state)
        }),
{
}

/// A node from its parts has the term, the vote and the log it was given, and has
/// committed what it was told, as far as the log reaches; and has applied that.
pub proof fn law_node_has_its_parts<S: StateMachine>(
    id: NodeId,
    peers: Seq<NodeId>,
    term: Term,
    vote: Option<NodeId>,
    log: Seq<LogEntryView>,
    commit: LogIndex,
    state: S::V,
)
    ensures
        ({
            let node = NodeModel::<S>::from_parts(id, peers, term, vote, log, commit, state);
            &&& node.id == id
            &&& node.peers == peers
            &&& is_out_of_all_office(node)
            &&& node.current_term == term
            &&& node.voted_for == vote
            &&& node.log == log
            &&& node.log_base_index == 0
            &&& node.snapshot is None
            &&& commit <= log.len() ==> node.commit_index == commit
            &&& commit > log.len() ==> node.commit_index == log.len()
            &&& node.last_applied >= S::applied_index(state)
            &&& log.len() <= usize::MAX ==> node == starting_node::<S>(
                id,
                peers,
                term,
                vote,
                log,
                commit,
                None,
                state,
            ).apply_committed().0
        }),
{
    let start = NodeModel {
        current_term: term,
        voted_for: vote,
        log,
        commit_index: (if commit < log.len() {
            commit as int
        } else {
            log.len() as int
        }) as LogIndex,
        ..NodeModel::<S>::initial(id, peers, state)
    };
    lemma_apply_committed_frame(start);
}

/// The state that a node has with its snapshot: its own if that is as far as the snapshot
/// already, and otherwise what it becomes when it takes the snapshot over.
pub open spec fn starting_state<S: StateMachine>(
    snapshot: Option<SnapshotView>,
    state: S::V,
) -> S::V {
    match snapshot {
        Some(boundary) if S::applied_index(state) < boundary.last_included_index =>
            S::restored(state, boundary.state).0,
        _ => state,
    }
}

/// The snapshot is in order, the log starts at it and in its term, and the state machine,
/// if it is behind, takes it over and is then as far.
pub open spec fn can_start<S: StateMachine>(
    log: Seq<LogEntryView>,
    snapshot: Option<SnapshotView>,
    state: S::V,
) -> bool {
    snapshot matches Some(boundary) ==> {
        let (restored, taken) = S::restored(state, boundary.state);
        &&& is_in_order(boundary)
        &&& log.len() > 0
        &&& log[0].term == boundary.last_included_term
        &&& S::applied_index(state) >= boundary.last_included_index || (taken is Ok
            && S::applied_index(restored) >= boundary.last_included_index)
    }
}

/// The node of the parts, before anything that is committed is applied.
pub open spec fn starting_node<S: StateMachine>(
    id: NodeId,
    peers: Seq<NodeId>,
    term: Term,
    vote: Option<NodeId>,
    log: Seq<LogEntryView>,
    commit: LogIndex,
    snapshot: Option<SnapshotView>,
    state: S::V,
) -> NodeModel<S> {
    let base = match snapshot {
        Some(boundary) => boundary.last_included_index,
        None => 0,
    };
    let end = if base == 0 {
        log.len() as int
    } else {
        base + log.len() - 1
    };
    let reached = if commit < end {
        commit as int
    } else {
        end
    };
    NodeModel {
        current_term: term,
        voted_for: vote,
        log,
        log_base_index: base,
        snapshot,
        commit_index: (if reached > base {
            reached
        } else {
            base as int
        }) as LogIndex,
        ..NodeModel::<S>::initial(id, peers, starting_state::<S>(snapshot, state))
    }
}

/// A node comes back from its parts and its snapshot exactly if the snapshot is in order, the
/// log starts at it and in its term, the state machine, if it is behind, takes it over and
/// is then as far, and the committed entries can be applied. It then has the parts it was
/// given, and has committed what it was told, as far as the log reaches and no less than
/// the snapshot.
pub proof fn law_node_comes_back_with_its_snapshot<S: StateMachine>(
    id: NodeId,
    peers: Seq<NodeId>,
    term: Term,
    vote: Option<NodeId>,
    log: Seq<LogEntryView>,
    commit: LogIndex,
    snapshot: Option<SnapshotView>,
    state: S::V,
)
    requires
        snapshot matches Some(boundary) ==> boundary.last_included_index + log.len() <= usize::MAX,
        log.len() <= usize::MAX,
    ensures
        ({
            let result = NodeModel::<S>::from_persisted_parts(
                id,
                peers,
                term,
                vote,
                log,
                commit,
                snapshot,
                state,
            );
            &&& snapshot matches Some(boundary) ==> {
                let behind = S::applied_index(state) < boundary.last_included_index;
                let (restored, taken) = S::restored(state, boundary.state);
                let starts = log.len() > 0 && log[0].term == boundary.last_included_term;
                &&& !is_in_order(boundary) ==> result is Err
                &&& is_in_order(boundary) && !starts ==> result == Err::<NodeModel<S>, Error>(
                    Error::LogBoundaryMismatch,
                )
                &&& is_in_order(boundary) && starts && behind ==> {
                    &&& taken matches Err(error) ==> result == Err::<NodeModel<S>, Error>(error)
                    &&& taken is Ok && S::applied_index(restored) < boundary.last_included_index
                        ==> result == Err::<NodeModel<S>, Error>(
                        Error::RestoredStateBehindSnapshot,
                    )
                }
            }
            &&& can_start::<S>(log, snapshot, state) ==> {
                let (applied, outcome) = starting_node::<S>(
                    id,
                    peers,
                    term,
                    vote,
                    log,
                    commit,
                    snapshot,
                    state,
                ).apply_committed();
                result == (match outcome {
                    Ok(()) => Ok::<NodeModel<S>, Error>(applied),
                    Err(error) => Err(error),
                })
            }
            &&& result matches Ok(node) ==> {
                let base = match snapshot {
                    Some(boundary) => boundary.last_included_index,
                    None => 0,
                };
                let reached = if commit < end_of(node) {
                    commit as int
                } else {
                    end_of(node)
                };
                &&& node.id == id
                &&& node.peers == peers
                &&& is_out_of_all_office(node)
                &&& node.current_term == term
                &&& node.voted_for == vote
                &&& node.log == log
                &&& node.snapshot == snapshot
                &&& node.log_base_index == base
                &&& node.commit_index == (if reached > base {
                    reached
                } else {
                    base as int
                })
                &&& snapshot matches Some(boundary) ==> is_in_order(boundary) && log[0].term
                    == boundary.last_included_term
                &&& node.last_applied >= S::applied_index(starting_state::<S>(snapshot, state))
            }
        }),
{
    if let Some(boundary) = snapshot {
        law_valid_snapshot_is_in_order(boundary);
    }
    let parts = NodeModel::<S>::persisted_parts(
        id,
        peers,
        term,
        vote,
        log,
        commit,
        snapshot,
        state,
    );
    if let Ok(start) = parts {
        lemma_apply_committed_frame(start);
        assert(start.last_index() == end_of(start));
        assert(start == starting_node::<S>(
            id,
            peers,
            term,
            vote,
            log,
            commit,
            snapshot,
            state,
        ));
    }
}

/// What is committed is applied in turn: while something is left, the next entry goes to
/// the state machine, under its index. Applying stops where the log has no such entry or
/// the state machine refuses it, and otherwise goes on until nothing is left.
pub proof fn law_committed_entries_are_applied_in_turn<S: StateMachine>(node: NodeModel<S>)
    requires
        node.well_formed(),
    ensures
        ({
            let (after, result) = node.apply_committed();
            let next = (node.last_applied + 1) as LogIndex;
            &&& node.last_applied >= node.commit_index ==> after == node && result is Ok
            &&& node.last_applied < node.commit_index ==> {
                if next > node.log_base_index && slot_of(node, next as int) is Some {
                    let entry = slot_of(node, next as int)->0;
                    let (state, taken) = S::applied(node.state, next, entry.command);
                    match taken {
                        Err(error) => {
                            &&& after == (NodeModel { state, ..node })
                            &&& result == Err::<(), Error>(error)
                        },
                        Ok(()) => (after, result) == (NodeModel {
                            state,
                            last_applied: next,
                            ..node
                        }).apply_committed(),
                    }
                } else {
                    after == node && result == Err::<(), Error>(Error::CommitOutsideLog)
                }
            }
            &&& result is Ok ==> after.last_applied >= node.commit_index
        }),
    decreases node.commit_index - node.last_applied,
{
    if node.last_applied < node.commit_index {
        let next = (node.last_applied + 1) as LogIndex;
        if let Some(entry) = node.entry_at(next as int) {
            let (state, taken) = S::applied(node.state, next, entry.command);
            if taken is Ok {
                law_committed_entries_are_applied_in_turn(
                    NodeModel { state, last_applied: next, ..node },
                );
            }
        }
    }
}

/// A leader says of each peer, in their order, how many of the committed entries the peer
/// is not known to hold; a node that does not lead says nothing.
pub proof fn law_leader_knows_how_far_its_peers_lag<S: StateMachine>(node: NodeModel<S>)
    ensures
        node.role != Role::Leader ==> node.lags().len() == 0,
        node.role == Role::Leader ==> {
            &&& node.lags().len() == node.peers.len()
            &&& forall|i: int|
                0 <= i < node.peers.len() ==> {
                    let peer = node.peers[i];
                    let known = if node.match_index.contains_key(peer) {
                        node.match_index[peer]
                    } else {
                        0
                    };
                    &&& (#[trigger] node.lags()[i]).0 == peer
                    &&& known <= node.commit_index ==> node.lags()[i].1 == node.commit_index - known
                    &&& known > node.commit_index ==> node.lags()[i].1 == 0
                }
        },
{
}

} // verus!
