//! The values that nodes, clients and storage exchange.
use crate::error::Error;
use crate::key_order::key_precedes;
use crate::key_order::lemma_key_transitive;
use crate::key_order::str_precedes;
use crate::kv_map::copy_pairs;
use crate::kv_map::ordered;
use crate::kv_map::Pairs;
use vstd::prelude::*;

verus! {

pub type NodeId = usize;

pub type Term = u64;

pub type LogIndex = usize;

/// The format version of snapshots and of the state in them.
pub const SNAPSHOT_FORMAT_VERSION: u32 = 1;

#[derive(Clone, Copy, Debug, PartialEq, Eq, Structural)]
pub enum Role {
    Follower,
    Candidate,
    Leader,
}

/// A change to the replicated state.
#[derive(Debug, PartialEq, Eq)]
pub enum Command {
    Noop,
    Put { key: String, value: String },
    Delete { key: String },
}

pub enum CommandView {
    Noop,
    Put { key: Seq<char>, value: Seq<char> },
    Delete { key: Seq<char> },
}

impl View for Command {
    type V = CommandView;

    open spec fn view(&self) -> CommandView {
        match *self {
            Command::Noop => CommandView::Noop,
            Command::Put { key, value } => CommandView::Put { key: key@, value: value@ },
            Command::Delete { key } => CommandView::Delete { key: key@ },
        }
    }
}

impl Clone for Command {
    fn clone(&self) -> (copy: Self)
        ensures
            copy@ == self@,
    {
        match self {
            Command::Noop => Command::Noop,
            Command::Put { key, value } => Command::Put { key: key.clone(), value: value.clone() },
            Command::Delete { key } => Command::Delete { key: key.clone() },
        }
    }
}

/// A command together with the term of the leader that accepted it.
#[derive(Debug, PartialEq, Eq)]
pub struct LogEntry {
    pub term: Term,
    pub command: Command,
}

pub struct LogEntryView {
    pub term: Term,
    pub command: CommandView,
}

impl View for LogEntry {
    type V = LogEntryView;

    open spec fn view(&self) -> LogEntryView {
        LogEntryView { term: self.term, command: self.command@ }
    }
}

impl DeepView for LogEntry {
    type V = LogEntryView;

    open spec fn deep_view(&self) -> LogEntryView {
        self@
    }
}

impl Clone for LogEntry {
    fn clone(&self) -> (copy: Self)
        ensures
            copy@ == self@,
    {
        LogEntry { term: self.term, command: self.command.clone() }
    }
}

/// A copy of the entries `from..to`.
pub fn copy_entries(entries: &[LogEntry], from: usize, to: usize) -> (copy: Vec<LogEntry>)
    requires
        from <= to <= entries@.len(),
    ensures
        copy.deep_view() == entries_view(entries@).subrange(from as int, to as int),
{
    let mut copy: Vec<LogEntry> = Vec::new();
    let mut i: usize = from;
    while i < to
        invariant
            from <= i <= to <= entries@.len(),
            copy.len() == i - from,
            forall|j: int| 0 <= j < copy.len() ==> (#[trigger] copy[j])@ == entries@[from + j]@,
        decreases to - i,
    {
        copy.push(entries[i].clone());
        i += 1;
    }
    assert(copy.deep_view() =~= entries_view(entries@).subrange(from as int, to as int));
    copy
}

/// The entries as mathematical values.
pub open spec fn entries_view(entries: Seq<LogEntry>) -> Seq<LogEntryView> {
    Seq::new(entries.len(), |i: int| entries[i]@)
}

/// Asks for a vote in `term`.
#[derive(Clone, Copy, Debug, PartialEq, Eq, Structural)]
pub struct RequestVote {
    pub term: Term,
    pub candidate_id: NodeId,
    pub last_log_index: LogIndex,
    pub last_log_term: Term,
}

#[derive(Clone, Copy, Debug, PartialEq, Eq, Structural)]
pub struct RequestVoteReply {
    pub term: Term,
    pub vote_granted: bool,
}

/// Probes whether a candidate could win an election, without advancing the
/// receiver's persistent term.
#[derive(Clone, Copy, Debug, PartialEq, Eq, Structural)]
pub struct PreVote {
    pub term: Term,
    pub candidate_id: NodeId,
    pub last_log_index: LogIndex,
    pub last_log_term: Term,
}

#[derive(Clone, Copy, Debug, PartialEq, Eq, Structural)]
pub struct PreVoteReply {
    pub term: Term,
    pub vote_granted: bool,
}

/// Replicates `entries` behind the entry at `prev_log_index`; without entries
/// it is a heartbeat.
#[derive(Debug, PartialEq, Eq)]
pub struct AppendEntries {
    pub term: Term,
    pub leader_id: NodeId,
    pub prev_log_index: LogIndex,
    pub prev_log_term: Term,
    pub entries: Vec<LogEntry>,
    pub leader_commit: LogIndex,
}

pub struct AppendEntriesView {
    pub term: Term,
    pub leader_id: NodeId,
    pub prev_log_index: LogIndex,
    pub prev_log_term: Term,
    pub entries: Seq<LogEntryView>,
    pub leader_commit: LogIndex,
}

impl View for AppendEntries {
    type V = AppendEntriesView;

    open spec fn view(&self) -> AppendEntriesView {
        AppendEntriesView {
            term: self.term,
            leader_id: self.leader_id,
            prev_log_index: self.prev_log_index,
            prev_log_term: self.prev_log_term,
            entries: self.entries.deep_view(),
            leader_commit: self.leader_commit,
        }
    }
}

impl Clone for AppendEntries {
    fn clone(&self) -> (copy: Self)
        ensures
            copy@ == self@,
    {
        let entries = copy_entries(self.entries.as_slice(), 0, self.entries.len());
        assert(entries.deep_view() =~= self.entries.deep_view());
        AppendEntries {
            term: self.term,
            leader_id: self.leader_id,
            prev_log_index: self.prev_log_index,
            prev_log_term: self.prev_log_term,
            entries,
            leader_commit: self.leader_commit,
        }
    }
}

#[derive(Clone, Copy, Debug, PartialEq, Eq, Structural)]
pub struct AppendEntriesReply {
    pub term: Term,
    pub success: bool,
    pub match_index: LogIndex,
}

/// The whole state of a state machine at `last_applied`.
#[derive(Debug, PartialEq, Eq)]
pub struct StateSnapshot {
    pub version: u32,
    pub last_applied: LogIndex,
    pub data: Vec<(String, String)>,
}

pub struct StateSnapshotView {
    pub version: u32,
    pub last_applied: LogIndex,
    pub data: Pairs,
}

impl View for StateSnapshot {
    type V = StateSnapshotView;

    open spec fn view(&self) -> StateSnapshotView {
        StateSnapshotView {
            version: self.version,
            last_applied: self.last_applied,
            data: self.data.deep_view(),
        }
    }
}

impl Clone for StateSnapshot {
    fn clone(&self) -> (copy: Self)
        ensures
            copy@ == self@,
    {
        StateSnapshot {
            version: self.version,
            last_applied: self.last_applied,
            data: copy_pairs(&self.data),
        }
    }
}

/// Whether the keys of `pairs` are strictly increasing.
pub fn keys_are_ordered(pairs: &Vec<(String, String)>) -> (result: bool)
    ensures
        result == ordered(pairs.deep_view()),
{
    let ghost all = pairs.deep_view();
    if pairs.len() == 0 {
        return true;
    }
    let mut i: usize = 1;
    while i < pairs.len()
        invariant
            all == pairs.deep_view(),
            1 <= i <= pairs.len(),
            forall|a: int, b: int|
                0 <= a < b < i ==> key_precedes(#[trigger] all[a].0, #[trigger] all[b].0),
        decreases pairs.len() - i,
    {
        assert(all[i - 1].0 == pairs[i - 1].0@);
        assert(all[i as int].0 == pairs[i as int].0@);
        if !str_precedes(pairs[i - 1].0.as_str(), pairs[i].0.as_str()) {
            return false;
        }
        proof {
            assert forall|a: int, b: int| 0 <= a < b < i + 1 implies key_precedes(
                #[trigger] all[a].0,
                #[trigger] all[b].0,
            ) by {
                if b == i && a < i - 1 {
                    lemma_key_transitive(all[a].0, all[i - 1].0, all[i as int].0);
                }
            }
        }
        i += 1;
    }
    true
}

/// The state at a log boundary, which replaces every entry up to it.
#[derive(Debug, PartialEq, Eq)]
pub struct Snapshot {
    pub version: u32,
    pub last_included_index: LogIndex,
    pub last_included_term: Term,
    pub state: StateSnapshot,
}

pub struct SnapshotView {
    pub version: u32,
    pub last_included_index: LogIndex,
    pub last_included_term: Term,
    pub state: StateSnapshotView,
}

impl View for Snapshot {
    type V = SnapshotView;

    open spec fn view(&self) -> SnapshotView {
        SnapshotView {
            version: self.version,
            last_included_index: self.last_included_index,
            last_included_term: self.last_included_term,
            state: self.state@,
        }
    }
}

impl DeepView for Snapshot {
    type V = SnapshotView;

    open spec fn deep_view(&self) -> SnapshotView {
        self@
    }
}

impl Clone for Snapshot {
    fn clone(&self) -> (copy: Self)
        ensures
            copy@ == self@,
    {
        Snapshot {
            version: self.version,
            last_included_index: self.last_included_index,
            last_included_term: self.last_included_term,
            state: self.state.clone(),
        }
    }
}

impl SnapshotView {
    /// What is wrong with the snapshot first, if anything is.
    pub open spec fn validity(self) -> Result<(), Error> {
        if self.version != SNAPSHOT_FORMAT_VERSION || self.state.version
            != SNAPSHOT_FORMAT_VERSION {
            Err(Error::UnsupportedSnapshotVersion)
        } else if self.last_included_index == 0 {
            Err(Error::ZeroSnapshotBoundary)
        } else if self.state.last_applied != self.last_included_index {
            Err(Error::SnapshotIndexMismatch)
        } else if !ordered(self.state.data) {
            Err(Error::UnorderedSnapshotKeys)
        } else {
            Ok(())
        }
    }

    /// Nothing is wrong with the snapshot.
    pub open spec fn valid(self) -> bool {
        self.validity() is Ok
    }
}

impl Snapshot {
    /// Checks the format versions, the boundary and the order of keys.
    pub fn validate(&self) -> (result: Result<(), Error>)
        ensures
            result == self@.validity(),
    {
        if self.version != SNAPSHOT_FORMAT_VERSION || self.state.version
            != SNAPSHOT_FORMAT_VERSION {
            return Err(Error::UnsupportedSnapshotVersion);
        }
        if self.last_included_index == 0 {
            return Err(Error::ZeroSnapshotBoundary);
        }
        if self.state.last_applied != self.last_included_index {
            return Err(Error::SnapshotIndexMismatch);
        }
        if !keys_are_ordered(&self.state.data) {
            return Err(Error::UnorderedSnapshotKeys);
        }
        Ok(())
    }
}

/// What a client asks of the cluster. `Get` is a linearizable read, `LocalGet`
/// a possibly stale look at one node.
#[derive(Debug, PartialEq, Eq)]
pub enum ClientRequest {
    Get { key: String },
    LocalGet { key: String },
    Put { key: String, value: String },
    Delete { key: String },
}

pub enum ClientRequestView {
    Get { key: Seq<char> },
    LocalGet { key: Seq<char> },
    Put { key: Seq<char>, value: Seq<char> },
    Delete { key: Seq<char> },
}

impl View for ClientRequest {
    type V = ClientRequestView;

    open spec fn view(&self) -> ClientRequestView {
        match *self {
            ClientRequest::Get { key } => ClientRequestView::Get { key: key@ },
            ClientRequest::LocalGet { key } => ClientRequestView::LocalGet { key: key@ },
            ClientRequest::Put { key, value } => ClientRequestView::Put {
                key: key@,
                value: value@,
            },
            ClientRequest::Delete { key } => ClientRequestView::Delete { key: key@ },
        }
    }
}

impl Clone for ClientRequest {
    fn clone(&self) -> (copy: Self)
        ensures
            copy@ == self@,
    {
        match self {
            ClientRequest::Get { key } => ClientRequest::Get { key: key.clone() },
            ClientRequest::LocalGet { key } => ClientRequest::LocalGet { key: key.clone() },
            ClientRequest::Put { key, value } => ClientRequest::Put {
                key: key.clone(),
                value: value.clone(),
            },
            ClientRequest::Delete { key } => ClientRequest::Delete { key: key.clone() },
        }
    }
}

#[derive(Debug, PartialEq, Eq)]
pub struct ClientReply {
    pub success: bool,
    pub leader_id: Option<NodeId>,
    pub response: Option<String>,
}

pub struct ClientReplyView {
    pub success: bool,
    pub leader_id: Option<NodeId>,
    pub response: Option<Seq<char>>,
}

impl View for ClientReply {
    type V = ClientReplyView;

    open spec fn view(&self) -> ClientReplyView {
        ClientReplyView {
            success: self.success,
            leader_id: self.leader_id,
            response: self.response.deep_view(),
        }
    }
}

impl Clone for ClientReply {
    fn clone(&self) -> (copy: Self)
        ensures
            copy@ == self@,
    {
        ClientReply {
            success: self.success,
            leader_id: self.leader_id,
            response: match &self.response {
                Some(text) => Some(text.clone()),
                None => None,
            },
        }
    }
}

impl ClientReplyView {
    /// A refusal that points to `leader_id`.
    pub open spec fn refused(leader_id: Option<NodeId>) -> ClientReplyView {
        ClientReplyView { success: false, leader_id, response: None }
    }
}

impl ClientReply {
    /// A refusal that points to `leader_id`.
    pub fn refused(leader_id: Option<NodeId>) -> (reply: ClientReply)
        ensures
            reply@ == ClientReplyView::refused(leader_id),
    {
        ClientReply { success: false, leader_id, response: None }
    }
}

#[derive(Clone, Copy, Debug, PartialEq, Eq, Structural)]
pub struct InstallSnapshotReply {
    pub term: Term,
    pub accepted: bool,
    pub last_included_index: LogIndex,
}

/// A snapshot together with the term and id of the leader that sends it. The
/// bare `InstallSnapshot` message carries neither.
#[derive(Debug, PartialEq, Eq)]
pub struct InstallSnapshotRequest {
    pub term: Term,
    pub leader_id: NodeId,
    pub snapshot: Snapshot,
}

pub struct InstallSnapshotRequestView {
    pub term: Term,
    pub leader_id: NodeId,
    pub snapshot: SnapshotView,
}

impl View for InstallSnapshotRequest {
    type V = InstallSnapshotRequestView;

    open spec fn view(&self) -> InstallSnapshotRequestView {
        InstallSnapshotRequestView {
            term: self.term,
            leader_id: self.leader_id,
            snapshot: self.snapshot@,
        }
    }
}

impl Clone for InstallSnapshotRequest {
    fn clone(&self) -> (copy: Self)
        ensures
            copy@ == self@,
    {
        InstallSnapshotRequest {
            term: self.term,
            leader_id: self.leader_id,
            snapshot: self.snapshot.clone(),
        }
    }
}

/// Asks followers to confirm the leader before it serves a read.
#[derive(Clone, Copy, Debug, PartialEq, Eq, Structural)]
pub struct ReadIndex {
    pub term: Term,
    pub leader_id: NodeId,
    pub request_id: u64,
    pub commit_index: LogIndex,
}

#[derive(Clone, Copy, Debug, PartialEq, Eq, Structural)]
pub struct ReadIndexReply {
    pub term: Term,
    pub request_id: u64,
    pub applied_index: LogIndex,
}

/// Tells a follower to campaign at once.
#[derive(Clone, Copy, Debug, PartialEq, Eq, Structural)]
pub struct TimeoutNow {
    pub term: Term,
    pub leader_id: NodeId,
}

/// One piece of an encoded snapshot.
#[derive(Debug, PartialEq, Eq)]
pub struct InstallSnapshotChunk {
    pub term: Term,
    pub leader_id: NodeId,
    pub snapshot_id: u64,
    pub offset: usize,
    pub total_size: usize,
    pub data: Vec<u8>,
    pub done: bool,
}

pub struct InstallSnapshotChunkView {
    pub term: Term,
    pub leader_id: NodeId,
    pub snapshot_id: u64,
    pub offset: usize,
    pub total_size: usize,
    pub data: Seq<u8>,
    pub done: bool,
}

impl View for InstallSnapshotChunk {
    type V = InstallSnapshotChunkView;

    open spec fn view(&self) -> InstallSnapshotChunkView {
        InstallSnapshotChunkView {
            term: self.term,
            leader_id: self.leader_id,
            snapshot_id: self.snapshot_id,
            offset: self.offset,
            total_size: self.total_size,
            data: self.data@,
            done: self.done,
        }
    }
}

/// A copy of the bytes `from..to`.
pub fn copy_bytes(bytes: &[u8], from: usize, to: usize) -> (copy: Vec<u8>)
    requires
        from <= to <= bytes@.len(),
    ensures
        copy@ == bytes@.subrange(from as int, to as int),
{
    let mut copy: Vec<u8> = Vec::with_capacity(to - from);
    let mut i: usize = from;
    while i < to
        invariant
            from <= i <= to <= bytes@.len(),
            copy@ == bytes@.subrange(from as int, i as int),
        decreases to - i,
    {
        copy.push(bytes[i]);
        i += 1;
        assert(copy@ =~= bytes@.subrange(from as int, i as int));
    }
    copy
}

impl Clone for InstallSnapshotChunk {
    fn clone(&self) -> (copy: Self)
        ensures
            copy@ == self@,
    {
        let data = copy_bytes(self.data.as_slice(), 0, self.data.len());
        assert(data@ =~= self.data@);
        InstallSnapshotChunk {
            term: self.term,
            leader_id: self.leader_id,
            snapshot_id: self.snapshot_id,
            offset: self.offset,
            total_size: self.total_size,
            data,
            done: self.done,
        }
    }
}

#[derive(Clone, Copy, Debug, PartialEq, Eq, Structural)]
pub struct InstallSnapshotChunkReply {
    pub term: Term,
    pub snapshot_id: u64,
    pub accepted: bool,
    pub next_offset: usize,
}

/// Every message that one node sends another.
#[derive(Debug, PartialEq, Eq)]
pub enum Rpc {
    RequestVote(RequestVote),
    RequestVoteReply(RequestVoteReply),
    AppendEntries(AppendEntries),
    AppendEntriesReply(AppendEntriesReply),
    InstallSnapshot(Snapshot),
    InstallSnapshotReply(InstallSnapshotReply),
    PreVote(PreVote),
    PreVoteReply(PreVoteReply),
    InstallSnapshotRequest(InstallSnapshotRequest),
    ReadIndex(ReadIndex),
    ReadIndexReply(ReadIndexReply),
    TimeoutNow(TimeoutNow),
    InstallSnapshotChunk(InstallSnapshotChunk),
    InstallSnapshotChunkReply(InstallSnapshotChunkReply),
}

pub enum RpcView {
    RequestVote(RequestVote),
    RequestVoteReply(RequestVoteReply),
    AppendEntries(AppendEntriesView),
    AppendEntriesReply(AppendEntriesReply),
    InstallSnapshot(SnapshotView),
    InstallSnapshotReply(InstallSnapshotReply),
    PreVote(PreVote),
    PreVoteReply(PreVoteReply),
    InstallSnapshotRequest(InstallSnapshotRequestView),
    ReadIndex(ReadIndex),
    ReadIndexReply(ReadIndexReply),
    TimeoutNow(TimeoutNow),
    InstallSnapshotChunk(InstallSnapshotChunkView),
    InstallSnapshotChunkReply(InstallSnapshotChunkReply),
}

impl View for Rpc {
    type V = RpcView;

    open spec fn view(&self) -> RpcView {
        match *self {
            Rpc::RequestVote(body) => RpcView::RequestVote(body),
            Rpc::RequestVoteReply(body) => RpcView::RequestVoteReply(body),
            Rpc::AppendEntries(body) => RpcView::AppendEntries(body@),
            Rpc::AppendEntriesReply(body) => RpcView::AppendEntriesReply(body),
            Rpc::InstallSnapshot(body) => RpcView::InstallSnapshot(body@),
            Rpc::InstallSnapshotReply(body) => RpcView::InstallSnapshotReply(body),
            Rpc::PreVote(body) => RpcView::PreVote(body),
            Rpc::PreVoteReply(body) => RpcView::PreVoteReply(body),
            Rpc::InstallSnapshotRequest(body) => RpcView::InstallSnapshotRequest(body@),
            Rpc::ReadIndex(body) => RpcView::ReadIndex(body),
            Rpc::ReadIndexReply(body) => RpcView::ReadIndexReply(body),
            Rpc::TimeoutNow(body) => RpcView::TimeoutNow(body),
            Rpc::InstallSnapshotChunk(body) => RpcView::InstallSnapshotChunk(body@),
            Rpc::InstallSnapshotChunkReply(body) => RpcView::InstallSnapshotChunkReply(body),
        }
    }
}

impl Clone for Rpc {
    fn clone(&self) -> (copy: Self)
        ensures
            copy@ == self@,
    {
        match self {
            Rpc::RequestVote(body) => Rpc::RequestVote(*body),
            Rpc::RequestVoteReply(body) => Rpc::RequestVoteReply(*body),
            Rpc::AppendEntries(body) => Rpc::AppendEntries(body.clone()),
            Rpc::AppendEntriesReply(body) => Rpc::AppendEntriesReply(*body),
            Rpc::InstallSnapshot(body) => Rpc::InstallSnapshot(body.clone()),
            Rpc::InstallSnapshotReply(body) => Rpc::InstallSnapshotReply(*body),
            Rpc::PreVote(body) => Rpc::PreVote(*body),
            Rpc::PreVoteReply(body) => Rpc::PreVoteReply(*body),
            Rpc::InstallSnapshotRequest(body) => Rpc::InstallSnapshotRequest(body.clone()),
            Rpc::ReadIndex(body) => Rpc::ReadIndex(*body),
            Rpc::ReadIndexReply(body) => Rpc::ReadIndexReply(*body),
            Rpc::TimeoutNow(body) => Rpc::TimeoutNow(*body),
            Rpc::InstallSnapshotChunk(body) => Rpc::InstallSnapshotChunk(body.clone()),
            Rpc::InstallSnapshotChunkReply(body) => Rpc::InstallSnapshotChunkReply(*body),
        }
    }
}

/// A message on its way from one node to another.
#[derive(Debug, PartialEq, Eq)]
pub struct Message {
    pub from: NodeId,
    pub to: NodeId,
    pub rpc: Rpc,
}

pub struct MessageView {
    pub from: NodeId,
    pub to: NodeId,
    pub rpc: RpcView,
}

impl View for Message {
    type V = MessageView;

    open spec fn view(&self) -> MessageView {
        MessageView { from: self.from, to: self.to, rpc: self.rpc@ }
    }
}

impl DeepView for Message {
    type V = MessageView;

    open spec fn deep_view(&self) -> MessageView {
        self@
    }
}

impl Clone for Message {
    fn clone(&self) -> (copy: Self)
        ensures
            copy@ == self@,
    {
        Message { from: self.from, to: self.to, rpc: self.rpc.clone() }
    }
}

} // verus!
