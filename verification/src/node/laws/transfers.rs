//! What holds of snapshots that travel in chunks.
use crate::codec::parsed_snapshot;
use crate::codec::snapshot_bytes;
use crate::codec::transfer_id;
use crate::node::laws::law_every_request_is_answered;
use crate::node::model::larger;
use crate::node::model::minus;
use crate::node::model::smaller;
use crate::node::model::NodeModel;
use crate::node::model::PartialSnapshotModel;
use crate::node::MAX_TRANSFER_BYTES;
use crate::node::SNAPSHOT_CHUNK_BYTES;
use crate::state_machine::StateMachine;
use crate::types::AppendEntriesReply;
use crate::types::ClientRequestView;
use crate::types::InstallSnapshotChunkReply;
use crate::types::InstallSnapshotChunkView;
use crate::types::InstallSnapshotReply;
use crate::types::LogIndex;
use crate::types::MessageView;
use crate::types::NodeId;
use crate::types::PreVoteReply;
use crate::types::RequestVoteReply;
use crate::types::Role;
use crate::types::RpcView;
use crate::types::SnapshotView;
use crate::types::TimeoutNow;
use vstd::prelude::*;

verus! {

/// Both nodes have the same log, the same snapshot and the same state.
pub open spec fn same_contents<S: StateMachine>(
    node: NodeModel<S>,
    other: NodeModel<S>,
) -> bool {
    &&& other.log == node.log
    &&& other.log_base_index == node.log_base_index
    &&& other.snapshot == node.snapshot
    &&& other.commit_index == node.commit_index
    &&& other.last_applied == node.last_applied
    &&& other.state == node.state
}

/// The node after the messages, one after the other.
pub open spec fn after_messages<S: StateMachine>(
    node: NodeModel<S>,
    messages: Seq<MessageView>,
    now_ms: u64,
) -> NodeModel<S>
    decreases messages.len(),
{
    if messages.len() == 0 {
        node
    } else {
        let earlier = after_messages(node, messages.drop_last(), now_ms);
        earlier.handle(messages.last().from, messages.last().rpc, now_ms).0
    }
}

/// A chunk that does not end its transfer leaves the log, the snapshot and the state
/// as they were.
pub proof fn law_unfinished_transfer_changes_no_contents<S: StateMachine>(
    node: NodeModel<S>,
    from: NodeId,
    chunk: InstallSnapshotChunkView,
    now_ms: u64,
)
    requires
        !node.completes_transfer(from, chunk, now_ms),
    ensures
        same_contents(node, node.on_chunk(from, chunk, now_ms).0),
{
}

/// The chunk of the transfer that starts at the `k`-th multiple of the chunk size.
spec fn piece<S: StateMachine>(
    source: NodeModel<S>,
    snapshot: SnapshotView,
    bytes: Seq<u8>,
    k: int,
) -> InstallSnapshotChunkView {
    let offset = k * SNAPSHOT_CHUNK_BYTES;
    let end = smaller(offset + SNAPSHOT_CHUNK_BYTES, bytes.len() as int);
    InstallSnapshotChunkView {
        term: source.current_term,
        leader_id: source.id,
        snapshot_id: transfer_id(snapshot),
        offset: offset as usize,
        total_size: bytes.len() as usize,
        data: bytes.subrange(offset, end),
        done: end == bytes.len(),
    }
}

/// The transfer is under way: the first `k` chunks have arrived.
spec fn has_received<S: StateMachine>(
    node: NodeModel<S>,
    source: NodeModel<S>,
    snapshot: SnapshotView,
    bytes: Seq<u8>,
    k: int,
) -> bool {
    &&& node.current_term == source.current_term
    &&& node.role == Role::Follower
    &&& node.incoming_snapshot == Some(
        (
            transfer_id(snapshot),
            PartialSnapshotModel {
                term: source.current_term,
                leader_id: source.id,
                total_size: bytes.len() as usize,
                bytes: bytes.take(k * SNAPSHOT_CHUNK_BYTES),
            },
        ),
    )
}

/// One more chunk that is not the last arrives.
proof fn lemma_next_piece<S: StateMachine>(
    node: NodeModel<S>,
    source: NodeModel<S>,
    snapshot: SnapshotView,
    bytes: Seq<u8>,
    k: int,
    now_ms: u64,
)
    requires
        node.current_term <= source.current_term,
        bytes.len() <= MAX_TRANSFER_BYTES,
        0 <= k,
        (k + 1) * SNAPSHOT_CHUNK_BYTES < bytes.len(),
        k > 0 ==> has_received(node, source, snapshot, bytes, k),
    ensures
        ({
            let after = node.on_chunk(
                source.id,
                piece(source, snapshot, bytes, k),
                now_ms,
            ).0;
            &&& has_received(after, source, snapshot, bytes, k + 1)
            &&& same_contents(node, after)
        }),
{
    let chunk = piece(source, snapshot, bytes, k);
    let ready = node.receiving(chunk, now_ms);
    assert(node.admits_chunk(source.id, chunk));
    assert(ready.incoming_bytes() =~= bytes.take(k * SNAPSHOT_CHUNK_BYTES));
    assert(ready.continues_transfer(chunk));
    assert(ready.arrived(chunk) =~= bytes.take((k + 1) * SNAPSHOT_CHUNK_BYTES));
    assert(!chunk.done);
}

/// The last chunk arrives.
proof fn lemma_last_piece<S: StateMachine>(
    node: NodeModel<S>,
    source: NodeModel<S>,
    snapshot: SnapshotView,
    bytes: Seq<u8>,
    k: int,
    now_ms: u64,
)
    requires
        node.current_term <= source.current_term,
        bytes.len() <= MAX_TRANSFER_BYTES,
        0 <= k,
        k * SNAPSHOT_CHUNK_BYTES <= bytes.len() <= (k + 1) * SNAPSHOT_CHUNK_BYTES,
        parsed_snapshot(bytes) == Some(snapshot),
        k > 0 ==> has_received(node, source, snapshot, bytes, k),
    ensures
        same_contents(
            node.install_snapshot(snapshot).0,
            node.on_chunk(source.id, piece(source, snapshot, bytes, k), now_ms).0,
        ),
{
    let chunk = piece(source, snapshot, bytes, k);
    let ready = node.receiving(chunk, now_ms);
    assert(node.admits_chunk(source.id, chunk));
    assert(ready.incoming_bytes() =~= bytes.take(k * SNAPSHOT_CHUNK_BYTES));
    assert(ready.continues_transfer(chunk));
    assert(ready.arrived(chunk) =~= bytes);
    assert(chunk.done);
    assert(same_contents(node, ready));
    assert(ready.surviving_entries(snapshot) == node.surviving_entries(snapshot));
    assert(same_contents(
        node.install_snapshot(snapshot).0,
        ready.install_snapshot(snapshot).0,
    ));
}

/// The first `k` chunks, if the last is not among them, change nothing that a reader
/// sees.
proof fn lemma_partial_transfer<S: StateMachine>(
    node: NodeModel<S>,
    source: NodeModel<S>,
    snapshot: SnapshotView,
    bytes: Seq<u8>,
    k: int,
    now_ms: u64,
)
    requires
        source.snapshot == Some(snapshot),
        snapshot_bytes(snapshot) == Some(bytes),
        bytes.len() <= MAX_TRANSFER_BYTES,
        node.current_term <= source.current_term,
        0 <= k < source.transfer_chunks(node.id).len(),
    ensures
        ({
            let after = after_messages(
                node,
                source.transfer_chunks(node.id).take(k),
                now_ms,
            );
            &&& k > 0 ==> has_received(after, source, snapshot, bytes, k)
            &&& same_contents(node, after)
            &&& after.current_term <= source.current_term
        }),
    decreases k,
{
    let chunks = source.transfer_chunks(node.id);
    if k > 0 {
        lemma_partial_transfer(node, source, snapshot, bytes, k - 1, now_ms);
        let earlier = after_messages(node, chunks.take(k - 1), now_ms);
        assert(chunks.take(k).drop_last() =~= chunks.take(k - 1));
        assert(chunks.take(k).last() == chunks[k - 1]);
        assert(chunks[k - 1].rpc == RpcView::InstallSnapshotChunk(
            piece(source, snapshot, bytes, k - 1),
        ));
        lemma_next_piece(earlier, source, snapshot, bytes, k - 1, now_ms);
    }
}

/// A snapshot that travels in chunks, of which a node receives only some, changes
/// nothing; once the last has arrived, the node has the log, the snapshot and the
/// state that installing the snapshot gives it.
///
/// The bytes of a snapshot decode to it: `encode_snapshot` promises that of every
/// encoding.
pub proof fn law_chunks_install_the_snapshot<S: StateMachine>(
    node: NodeModel<S>,
    source: NodeModel<S>,
    snapshot: SnapshotView,
    bytes: Seq<u8>,
    now_ms: u64,
)
    requires
        source.snapshot == Some(snapshot),
        snapshot_bytes(snapshot) == Some(bytes),
        parsed_snapshot(bytes) == Some(snapshot),
        bytes.len() <= MAX_TRANSFER_BYTES,
        node.current_term <= source.current_term,
    ensures
        ({
            let chunks = source.transfer_chunks(node.id);
            &&& chunks.len() > 0
            &&& forall|k: int|
                0 <= k < chunks.len() ==> same_contents(
                    node,
                    #[trigger] after_messages(node, chunks.take(k), now_ms),
                )
            &&& same_contents(
                node.install_snapshot(snapshot).0,
                after_messages(node, chunks, now_ms),
            )
        }),
{
    let chunks = source.transfer_chunks(node.id);
    assert forall|k: int| 0 <= k < chunks.len() implies same_contents(
        node,
        #[trigger] after_messages(node, chunks.take(k), now_ms),
    ) by {
        lemma_partial_transfer(node, source, snapshot, bytes, k, now_ms);
    }
    let last = chunks.len() - 1;
    lemma_partial_transfer(node, source, snapshot, bytes, last, now_ms);
    let earlier = after_messages(node, chunks.take(last), now_ms);
    assert(chunks.drop_last() =~= chunks.take(last));
    assert(chunks.last() == chunks[last]);
    assert(chunks[last].rpc == RpcView::InstallSnapshotChunk(
        piece(source, snapshot, bytes, last),
    ));
    lemma_last_piece(earlier, source, snapshot, bytes, last, now_ms);
    assert(earlier.surviving_entries(snapshot) == node.surviving_entries(snapshot));
    assert(same_contents(
        node.install_snapshot(snapshot).0,
        earlier.install_snapshot(snapshot).0,
    ));
}

/// The bytes that a message carries of a snapshot's encoding.
pub open spec fn piece_in(message: MessageView) -> Seq<u8> {
    match message.rpc {
        RpcView::InstallSnapshotChunk(chunk) => chunk.data,
        _ => Seq::empty(),
    }
}

/// The pieces that messages carry, put together.
pub open spec fn put_together(messages: Seq<MessageView>) -> Seq<u8>
    decreases messages.len(),
{
    if messages.len() == 0 {
        Seq::empty()
    } else {
        put_together(messages.drop_last()) + piece_in(messages.last())
    }
}

proof fn lemma_put_together<S: StateMachine>(
    source: NodeModel<S>,
    peer: NodeId,
    snapshot: SnapshotView,
    bytes: Seq<u8>,
    count: int,
)
    requires
        source.snapshot == Some(snapshot),
        snapshot_bytes(snapshot) == Some(bytes),
        0 <= count <= source.transfer_chunks(peer).len(),
    ensures
        put_together(source.transfer_chunks(peer).take(count)) == bytes.take(
            smaller(count * SNAPSHOT_CHUNK_BYTES, bytes.len() as int),
        ),
    decreases count,
{
    let chunks = source.transfer_chunks(peer);
    let size = SNAPSHOT_CHUNK_BYTES as int;
    let upto = smaller(count * size, bytes.len() as int);
    if count == 0 {
        assert(chunks.take(0) =~= Seq::<MessageView>::empty());
        assert(bytes.take(0) =~= Seq::<u8>::empty());
    } else {
        lemma_put_together(source, peer, snapshot, bytes, count - 1);
        assert(chunks.take(count).drop_last() =~= chunks.take(count - 1));
        assert(chunks.take(count).last() == chunks[count - 1]);
        let from = (count - 1) * size;
        assert(from <= bytes.len());
        assert(piece_in(chunks[count - 1]) == bytes.subrange(
            from,
            smaller(from + size, bytes.len() as int),
        ));
        assert(bytes.take(from) + bytes.subrange(from, upto) =~= bytes.take(upto));
    }
}

/// The chunks of a transfer, put together, are the encoding of the snapshot.
pub proof fn law_chunks_put_together_are_the_encoding<S: StateMachine>(
    source: NodeModel<S>,
    peer: NodeId,
    snapshot: SnapshotView,
    bytes: Seq<u8>,
)
    requires
        source.snapshot == Some(snapshot),
        snapshot_bytes(snapshot) == Some(bytes),
    ensures
        put_together(source.transfer_chunks(peer)) == bytes,
{
    let chunks = source.transfer_chunks(peer);
    let count = chunks.len() as int;
    lemma_put_together(source, peer, snapshot, bytes, count);
    assert(chunks.take(count) =~= chunks);
    assert(bytes.take(bytes.len() as int) =~= bytes);
}

/// Each chunk of a transfer stands at its place in the encoding, is no larger than it may
/// be, and says whether it is the last.
pub proof fn law_chunks_hold_the_encoding<S: StateMachine>(
    source: NodeModel<S>,
    peer: NodeId,
    snapshot: SnapshotView,
    bytes: Seq<u8>,
    k: int,
)
    requires
        source.snapshot == Some(snapshot),
        snapshot_bytes(snapshot) == Some(bytes),
        bytes.len() <= usize::MAX,
        0 <= k < source.transfer_chunks(peer).len(),
    ensures
        source.transfer_chunks(peer)[k].rpc matches RpcView::InstallSnapshotChunk(chunk) && {
            &&& chunk.offset == k * SNAPSHOT_CHUNK_BYTES
            &&& chunk.total_size == bytes.len()
            &&& chunk.data.len() <= SNAPSHOT_CHUNK_BYTES
            &&& chunk.offset + chunk.data.len() <= bytes.len()
            &&& chunk.data == bytes.subrange(
                chunk.offset as int,
                chunk.offset + chunk.data.len(),
            )
            &&& chunk.done <==> k == source.transfer_chunks(peer).len() - 1
            &&& chunk.done ==> chunk.offset + chunk.data.len() == bytes.len()
        },
{
}

/// None of the messages is a snapshot without the term of a leader.
pub open spec fn holds_no_bare_snapshot(messages: Seq<MessageView>) -> bool {
    forall|i: int| 0 <= i < messages.len() ==> (#[trigger] messages[i]).rpc !is InstallSnapshot
}

proof fn lemma_append_is_no_bare_snapshot<S: StateMachine>(node: NodeModel<S>, peer: NodeId)
    ensures
        node.append_message(peer).rpc !is InstallSnapshot,
        holds_no_bare_snapshot(node.append_messages()),
{
    assert forall|i: int| 0 <= i < node.append_messages().len() implies (
    #[trigger] node.append_messages()[i]).rpc !is InstallSnapshot by {
        assert(node.append_messages()[i] == node.append_message(node.peers[i]));
    }
}

proof fn lemma_append_reply_sends_none<S: StateMachine>(
    node: NodeModel<S>,
    from: NodeId,
    reply: AppendEntriesReply,
    now_ms: u64,
)
    ensures
        holds_no_bare_snapshot(node.on_append_reply(from, reply, now_ms).1),
{
    let next = larger(minus(node.next_for(from), 1), 1);
    lemma_append_is_no_bare_snapshot(
        NodeModel {
            next_index: node.next_index.insert(from, next as LogIndex),
            ..node.contacted(from, now_ms)
        },
        from,
    );
}

proof fn lemma_install_reply_sends_none<S: StateMachine>(
    node: NodeModel<S>,
    from: NodeId,
    reply: InstallSnapshotReply,
    now_ms: u64,
)
    ensures
        holds_no_bare_snapshot(node.on_install_reply(from, reply, now_ms).1),
{
    lemma_append_is_no_bare_snapshot(
        node.contacted(from, now_ms).acknowledged(from, reply.last_included_index),
        from,
    );
}

proof fn lemma_chunk_reply_sends_none<S: StateMachine>(
    node: NodeModel<S>,
    from: NodeId,
    reply: InstallSnapshotChunkReply,
    now_ms: u64,
)
    ensures
        holds_no_bare_snapshot(node.on_chunk_reply(from, reply, now_ms).1),
{
}

proof fn lemma_pre_vote_reply_sends_none<S: StateMachine>(
    node: NodeModel<S>,
    from: NodeId,
    reply: PreVoteReply,
    now_ms: u64,
)
    ensures
        holds_no_bare_snapshot(node.on_pre_vote_reply(from, reply, now_ms).1),
{
}

proof fn lemma_vote_reply_sends_none<S: StateMachine>(
    node: NodeModel<S>,
    from: NodeId,
    reply: RequestVoteReply,
    now_ms: u64,
)
    ensures
        holds_no_bare_snapshot(node.on_request_vote_reply(from, reply, now_ms).1),
{
    let voters = node.granted_voters.insert(from);
    let counted = NodeModel {
        granted_voters: voters,
        votes_granted: voters.len() as usize,
        ..node
    };
    lemma_append_is_no_bare_snapshot(counted.elected(now_ms), from);
}

proof fn lemma_timeout_sends_none<S: StateMachine>(
    node: NodeModel<S>,
    from: NodeId,
    reply: TimeoutNow,
    now_ms: u64,
)
    ensures
        holds_no_bare_snapshot(node.on_timeout_now(from, reply, now_ms).1),
{
}

/// No node sends a bare snapshot in answer to a message: every snapshot goes out with
/// the term of its sender.
pub proof fn law_handling_sends_no_bare_snapshot<S: StateMachine>(
    node: NodeModel<S>,
    from: NodeId,
    rpc: RpcView,
    now_ms: u64,
)
    ensures
        holds_no_bare_snapshot(node.handle(from, rpc, now_ms).1),
{
    match rpc {
        RpcView::RequestVoteReply(reply) => {
            lemma_vote_reply_sends_none(node, from, reply, now_ms);
        },
        RpcView::AppendEntriesReply(reply) => {
            lemma_append_reply_sends_none(node, from, reply, now_ms);
        },
        RpcView::InstallSnapshotReply(reply) => {
            lemma_install_reply_sends_none(node, from, reply, now_ms);
        },
        RpcView::PreVoteReply(reply) => {
            lemma_pre_vote_reply_sends_none(node, from, reply, now_ms);
        },
        RpcView::ReadIndexReply(_) => {},
        RpcView::TimeoutNow(request) => {
            lemma_timeout_sends_none(node, from, request, now_ms);
        },
        RpcView::InstallSnapshotChunkReply(reply) => {
            lemma_chunk_reply_sends_none(node, from, reply, now_ms);
        },
        _ => {
            law_every_request_is_answered(node, from, rpc, now_ms);
        },
    }
}

/// Nor does it send one by itself or for a client.
pub proof fn law_no_node_sends_a_bare_snapshot<S: StateMachine>(
    node: NodeModel<S>,
    peer: NodeId,
    request: ClientRequestView,
    now_ms: u64,
)
    ensures
        holds_no_bare_snapshot(node.tick(now_ms).1),
        node.start_read().1 matches Ok((_, messages)) ==> holds_no_bare_snapshot(messages),
        node.start_write(request).1 matches Ok((_, messages)) ==> holds_no_bare_snapshot(messages),
        node.transfer_leadership(peer, now_ms).1 matches Ok(messages) ==> holds_no_bare_snapshot(
            messages,
        ),
        holds_no_bare_snapshot(node.transfer_chunks(peer)),
{
    lemma_append_is_no_bare_snapshot(NodeModel { last_heartbeat_at: now_ms, ..node }, peer);
    lemma_append_is_no_bare_snapshot(node.start_write(request).0, peer);
    lemma_append_is_no_bare_snapshot(node.transfer_leadership(peer, now_ms).0, peer);
}

} // verus!
