use vstd::prelude::*;
use crate::key::Key;
use crate::types::{Address, Batch, BatchCommit, Commit};

verus! {

/// A record of a tree's log.
pub enum Command {
    Open { batch: Batch },
    Write { batch: Batch, key: Key, value: Vec<u8> },
    Delete { batch: Batch, key: Key },
    DeleteRange { batch: Batch, start_key: Key, end_key: Key },
    PushSavePoint { batch: Batch },
    PopSavePoint { batch: Batch },
    RollbackSavePoint { batch: Batch },
    ReadyCommit { batch: Batch, batch_commit: BatchCommit },
    AbortCommit { batch: Batch, batch_commit: BatchCommit },
    Close { batch: Batch },
}

/// The record of the shared commit log: the master commit of a batch.
#[derive(Clone, Copy, PartialEq, Eq, Structural, Debug)]
pub struct CommitRecord {
    pub batch: Batch,
    pub batch_commit: BatchCommit,
    pub commit: Commit,
}

impl Command {
    pub open spec fn batch_of(&self) -> Batch {
        match self {
            Command::Open { batch } => *batch,
            Command::Write { batch, .. } => *batch,
            Command::Delete { batch, .. } => *batch,
            Command::DeleteRange { batch, .. } => *batch,
            Command::PushSavePoint { batch } => *batch,
            Command::PopSavePoint { batch } => *batch,
            Command::RollbackSavePoint { batch } => *batch,
            Command::ReadyCommit { batch, .. } => *batch,
            Command::AbortCommit { batch, .. } => *batch,
            Command::Close { batch } => *batch,
        }
    }

    pub fn batch(&self) -> (r: Batch)
        ensures
            r == self.batch_of(),
    {
        match self {
            Command::Open { batch } => *batch,
            Command::Write { batch, .. } => *batch,
            Command::Delete { batch, .. } => *batch,
            Command::DeleteRange { batch, .. } => *batch,
            Command::PushSavePoint { batch } => *batch,
            Command::PopSavePoint { batch } => *batch,
            Command::RollbackSavePoint { batch } => *batch,
            Command::ReadyCommit { batch, .. } => *batch,
            Command::AbortCommit { batch, .. } => *batch,
            Command::Close { batch } => *batch,
        }
    }
}

} // verus!

verus! {

/// The record at `a` in `log` is a write of key `k`.
pub open spec fn write_at(log: Seq<Command>, a: Address, k: Seq<u8>) -> bool {
    &&& a.0 < log.len()
    &&& match log[a.0 as int] {
        Command::Write { key, .. } => key@ == k,
        _ => false,
    }
}

} // verus!
