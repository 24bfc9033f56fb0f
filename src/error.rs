use vstd::prelude::*;

verus! {

/// The failures that the library reports.
#[derive(Clone, Copy, Debug, PartialEq, Eq, Structural)]
pub enum Error {
    /// A range was built with an unbounded start.
    InvalidRange,
    /// No endpoint of the cluster could be reached.
    ConnectionError,
    /// No store or region with the given identity is known.
    NotFound,
    /// The key is absent at the snapshot that was read.
    KeyNotFound,
    /// Another transaction holds a lock on a key being written.
    KeyLocked,
    /// A key being written was committed by another transaction after the start timestamp.
    WriteConflict,
    /// The commit phase failed after every key was locked.
    CommitFailure,
    /// The transaction has already committed or rolled back.
    TransactionClosed,
    /// The timestamp space is exhausted.
    TimestampOverflow,
}

} // verus!
