use vstd::prelude::*;

verus! {

/// The broad class an [`Error`] belongs to.
#[derive(Clone, Copy, Debug, PartialEq, Eq, Structural)]
pub enum ErrorKind {
    InvalidData,
    InvalidInput,
    NotConnected,
    NotFound,
    Unsupported,
    Other,
}

/// Everything that can go wrong in this library, one variant per cause.
#[derive(Clone, Copy, Debug, PartialEq, Eq, Structural)]
pub enum Error {
    /// A snapshot, or the state in it, was written in another format version.
    UnsupportedSnapshotVersion,
    /// A snapshot whose boundary is index zero.
    ZeroSnapshotBoundary,
    /// The state in a snapshot was taken at another index than the snapshot.
    SnapshotIndexMismatch,
    /// The keys of a snapshot are not strictly increasing.
    UnorderedSnapshotKeys,
    /// A persisted log that does not start at its snapshot's boundary entry.
    LogBoundaryMismatch,
    /// A state machine that, once restored, is still behind its snapshot.
    RestoredStateBehindSnapshot,
    /// The commit index points past the entries that are still in the log.
    CommitOutsideLog,
    /// A state machine was handed an index that is not the next one.
    ApplyIndexGap,
    /// A state snapshot that the in-memory state machine cannot take.
    InvalidStateSnapshot,
    /// The state machine's own snapshot is not at the last applied index.
    StaleStateSnapshot,
    /// A compaction point that is not the newest committed and applied index.
    CompactionPoint,
    /// Only a leader can hand over leadership.
    NotLeader,
    /// Leadership can be handed to a peer only.
    TransferTargetNotPeer,
    /// The cluster has no node of that id.
    UnknownNode,
    /// A state machine without support for snapshots.
    SnapshotsUnsupported,
    /// A persisted state that was written in another format version.
    UnsupportedPersistedVersion,
    /// A snapshot file that does not start with the snapshot magic.
    InvalidSnapshotMagic,
    /// Bytes that do not decode to the expected value.
    Undecodable,
    /// A value that could not be encoded.
    Unencodable,
    /// A failure of a state machine outside this library.
    StateMachine(ErrorKind),
}

impl Error {
    pub open spec fn spec_kind(self) -> ErrorKind {
        match self {
            Error::ApplyIndexGap | Error::CompactionPoint | Error::TransferTargetNotPeer => {
                ErrorKind::InvalidInput
            },
            Error::NotLeader => ErrorKind::NotConnected,
            Error::UnknownNode => ErrorKind::NotFound,
            Error::SnapshotsUnsupported => ErrorKind::Unsupported,
            Error::Unencodable => ErrorKind::Other,
            Error::StateMachine(kind) => kind,
            _ => ErrorKind::InvalidData,
        }
    }

    /// The broad class of the error.
    pub fn kind(&self) -> (kind: ErrorKind)
        ensures
            kind == self.spec_kind(),
    {
        match self {
            Error::ApplyIndexGap | Error::CompactionPoint | Error::TransferTargetNotPeer => {
                ErrorKind::InvalidInput
            },
            Error::NotLeader => ErrorKind::NotConnected,
            Error::UnknownNode => ErrorKind::NotFound,
            Error::SnapshotsUnsupported => ErrorKind::Unsupported,
            Error::Unencodable => ErrorKind::Other,
            Error::StateMachine(kind) => *kind,
            _ => ErrorKind::InvalidData,
        }
    }

    pub open spec fn spec_message(self) -> Seq<char> {
        match self {
            Error::UnsupportedSnapshotVersion => "unsupported snapshot format version"@,
            Error::ZeroSnapshotBoundary => "snapshot boundary must be greater than zero"@,
            Error::SnapshotIndexMismatch =>
                "snapshot state index does not match snapshot boundary"@,
            Error::UnorderedSnapshotKeys => "snapshot keys must be unique and sorted"@,
            Error::LogBoundaryMismatch => "persisted log does not match snapshot boundary"@,
            Error::RestoredStateBehindSnapshot =>
                "restored state machine index is behind snapshot"@,
            Error::CommitOutsideLog => "commit index is outside the retained log"@,
            Error::ApplyIndexGap => "state machine apply index gap"@,
            Error::InvalidStateSnapshot => "invalid memory state snapshot"@,
            Error::StaleStateSnapshot => "state machine snapshot index is stale"@,
            Error::CompactionPoint =>
                "log compaction requires a newer committed applied index"@,
            Error::NotLeader => "only the leader can transfer leadership"@,
            Error::TransferTargetNotPeer => "leadership transfer target is not a peer"@,
            Error::UnknownNode => "unknown cluster node"@,
            Error::SnapshotsUnsupported => "state machine does not support snapshots"@,
            Error::UnsupportedPersistedVersion => "unsupported persisted state format version"@,
            Error::InvalidSnapshotMagic => "invalid snapshot magic"@,
            Error::Undecodable => "bytes do not decode"@,
            Error::Unencodable => "value does not encode"@,
            Error::StateMachine(_) => "state machine failure"@,
        }
    }

    /// A one-line description of the error.
    pub fn message(&self) -> (message: &'static str)
        ensures
            message@ == self.spec_message(),
    {
        match self {
            Error::UnsupportedSnapshotVersion => "unsupported snapshot format version",
            Error::ZeroSnapshotBoundary => "snapshot boundary must be greater than zero",
            Error::SnapshotIndexMismatch => "snapshot state index does not match snapshot boundary",
            Error::UnorderedSnapshotKeys => "snapshot keys must be unique and sorted",
            Error::LogBoundaryMismatch => "persisted log does not match snapshot boundary",
            Error::RestoredStateBehindSnapshot => "restored state machine index is behind snapshot",
            Error::CommitOutsideLog => "commit index is outside the retained log",
            Error::ApplyIndexGap => "state machine apply index gap",
            Error::InvalidStateSnapshot => "invalid memory state snapshot",
            Error::StaleStateSnapshot => "state machine snapshot index is stale",
            Error::CompactionPoint => "log compaction requires a newer committed applied index",
            Error::NotLeader => "only the leader can transfer leadership",
            Error::TransferTargetNotPeer => "leadership transfer target is not a peer",
            Error::UnknownNode => "unknown cluster node",
            Error::SnapshotsUnsupported => "state machine does not support snapshots",
            Error::UnsupportedPersistedVersion => "unsupported persisted state format version",
            Error::InvalidSnapshotMagic => "invalid snapshot magic",
            Error::Undecodable => "bytes do not decode",
            Error::Unencodable => "value does not encode",
            Error::StateMachine(_) => "state machine failure",
        }
    }
}

/// What a caller asked for wrongly is invalid input, a refusal of a node that does not lead
/// says that there is no connection, and what was read or kept wrongly is invalid data. A
/// failure of a state machine outside is of its own kind.
pub proof fn law_errors_are_of_their_kinds(error: Error, kind: ErrorKind)
    ensures
        error.spec_kind() == ErrorKind::InvalidInput <==> error == Error::ApplyIndexGap || error
            == Error::CompactionPoint || error == Error::TransferTargetNotPeer || error
            == Error::StateMachine(ErrorKind::InvalidInput),
        error.spec_kind() == ErrorKind::NotConnected <==> error == Error::NotLeader || error
            == Error::StateMachine(ErrorKind::NotConnected),
        error.spec_kind() == ErrorKind::NotFound <==> error == Error::UnknownNode || error
            == Error::StateMachine(ErrorKind::NotFound),
        error.spec_kind() == ErrorKind::Unsupported <==> error == Error::SnapshotsUnsupported
            || error == Error::StateMachine(ErrorKind::Unsupported),
        error.spec_kind() == ErrorKind::Other <==> error == Error::Unencodable || error
            == Error::StateMachine(ErrorKind::Other),
        Error::StateMachine(kind).spec_kind() == kind,
{
}

} // verus!
