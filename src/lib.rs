//! Optimistic-concurrency conflict engine for a versioned, chunked-array store.
//!
//! A [`TransactionLog`] summarises what one commit changed. A conflict solver
//! compares such a log, committed by another writer, against a pending
//! [`ChangeSet`] and either hands back a (possibly patched) change set that is
//! safe to commit, or the list of conflicts that no policy could settle.
pub mod change_set;
pub mod conflict;
pub mod format;
pub mod transaction_log;

pub use change_set::{ChangeSet, ChunkWrite, NodeChunks};
pub use conflict::{
    BasicConflictSolver, ConflictResolution, ConflictSolver, NoFastForward, UnsolvableConflict,
    VersionSelection,
};
pub use format::{ChunkIndices, NodeId, NodeSnapshot, Path};
pub use transaction_log::TransactionLog;
