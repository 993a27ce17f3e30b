//! A Raft node, a deterministic cluster simulator and a linearizability checker.
pub mod cluster;
pub mod codec;
pub mod decimal;
pub mod error;
pub mod history;
pub mod key_order;
pub mod kv_map;
pub mod node;
pub mod state_machine;
pub mod storage;
pub mod types;

pub use crate::cluster::plan::FaultPlan;
pub use crate::cluster::plan::LifecycleAction;
pub use crate::cluster::plan::ScheduledFault;
pub use crate::cluster::Cluster;
pub use crate::error::Error;
pub use crate::error::ErrorKind;
pub use crate::history::check::check_linearizable;
pub use crate::history::check::LinearizabilityViolation;
pub use crate::history::HistoryOperation;
pub use crate::history::OperationHistory;
pub use crate::node::Node;
pub use crate::node::PendingRead;
pub use crate::node::PendingWrite;
pub use crate::node::SnapshotInstallResult;
pub use crate::node::MAX_APPEND_ENTRIES;
pub use crate::node::SNAPSHOT_CHUNK_BYTES;
pub use crate::state_machine::MemoryStateMachine;
pub use crate::state_machine::StateMachine;
pub use crate::types::AppendEntries;
pub use crate::types::AppendEntriesReply;
pub use crate::types::ClientReply;
pub use crate::types::ClientRequest;
pub use crate::types::Command;
pub use crate::types::InstallSnapshotChunk;
pub use crate::types::InstallSnapshotChunkReply;
pub use crate::types::InstallSnapshotReply;
pub use crate::types::InstallSnapshotRequest;
pub use crate::types::LogEntry;
pub use crate::types::LogIndex;
pub use crate::types::Message;
pub use crate::types::NodeId;
pub use crate::types::PreVote;
pub use crate::types::PreVoteReply;
pub use crate::types::ReadIndex;
pub use crate::types::ReadIndexReply;
pub use crate::types::RequestVote;
pub use crate::types::RequestVoteReply;
pub use crate::types::Role;
pub use crate::types::Rpc;
pub use crate::types::Snapshot;
pub use crate::types::StateSnapshot;
pub use crate::types::Term;
pub use crate::types::TimeoutNow;
pub use crate::types::SNAPSHOT_FORMAT_VERSION;
