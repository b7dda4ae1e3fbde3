//! The error taxonomy of the record store.

use vstd::prelude::*;

verus! {

/// Every failure a caller of the store can observe.
#[derive(Debug, PartialEq, Eq, Clone, Copy, Structural)]
pub enum DbError {
    /// The transaction was killed by WAIT-DIE or chose to abort; the
    /// caller may retry with a fresh transaction.
    Abort,
    /// The requested lock is held incompatibly by an older transaction's
    /// victim-free side: the caller must retry the same request once the
    /// holders release. This surfaces the blocking point of lock
    /// acquisition to the driving loop.
    Wait,
    /// A disk read or write failed (out-of-range page, short read).
    IoError,
    /// An operation was attempted on a terminated transaction, or a state
    /// rule was broken; a programming error, not a retryable condition.
    InvalidState,
    /// The named page, table, record or slot does not exist.
    NotFound,
}

impl DbError {
    /// A short description, for callers that report errors.
    pub fn describe(&self) -> (r: &'static str)
        ensures
            r@.len() > 0,
    {
        proof {
            reveal_strlit("transaction aborted");
            reveal_strlit("lock is busy; retry once it is released");
            reveal_strlit("disk read or write failed");
            reveal_strlit("operation on a terminated or invalid state");
            reveal_strlit("not found");
        }
        match self {
            DbError::Abort => "transaction aborted",
            DbError::Wait => "lock is busy; retry once it is released",
            DbError::IoError => "disk read or write failed",
            DbError::InvalidState => "operation on a terminated or invalid state",
            DbError::NotFound => "not found",
        }
    }
}

} // verus!
