use vstd::prelude::*;

verus! {

/// Identity of an open write batch across all trees.
#[derive(Clone, Copy, PartialEq, Eq, Structural, Debug)]
pub struct Batch(pub u64);

/// Identity of one commit attempt of a batch.
#[derive(Clone, Copy, PartialEq, Eq, Structural, Debug)]
pub struct BatchCommit(pub u64);

/// Position of a successful commit in the global commit order.
#[derive(Clone, Copy, PartialEq, Eq, Structural, Debug)]
pub struct Commit(pub u64);

/// Location of a record within one log.
#[derive(Clone, Copy, PartialEq, Eq, Structural, Debug)]
pub struct Address(pub usize);

/// Errors surfaced by the store.
#[derive(Clone, Copy, PartialEq, Eq, Structural, Debug)]
pub enum DbError {
    /// An append to a log failed.
    LogIo,
    /// The master commit record could not be appended; nothing was committed.
    CommitMasterWriteFailed,
    /// A tree could not record that it is ready to commit.
    ReadyCommitFailed,
    /// Recovery found logs that contradict each other.
    CorruptLog,
    /// An index address did not lead to a write of the expected key.
    UnexpectedRecord,
    /// A counter would pass the largest identifier.
    Overflow,
    /// A tree that holds records of the batch has not declared the batch commit ready.
    NotReady,
    /// The batch already has a master commit record.
    AlreadyCommitted,
    /// The configured trees and the logs do not match, or a tree has the reserved name.
    Config,
}

} // verus!
