//! Transaction identifiers and lifecycle states.

use vstd::prelude::*;

verus! {

/// Identifies one transaction. Identifiers are assigned strictly
/// increasingly at BEGIN, so a smaller identifier means an older
/// transaction; the identifier doubles as the WAIT-DIE priority.
#[derive(Debug, PartialEq, Eq, Clone, Copy, Hash, Structural)]
pub struct TransactionId {
    pub id: u64,
}

impl TransactionId {
    pub fn new(id: u64) -> (r: Self)
        ensures
            r.id == id,
    {
        TransactionId { id }
    }

    /// Returns the numeric identifier.
    pub fn get_tid(&self) -> (r: u64)
        ensures
            r == self.id,
    {
        self.id
    }
}

/// The lifecycle of a transaction: `Active` until it terminates in one of
/// the two terminal states; no operation is permitted afterwards.
#[derive(Debug, PartialEq, Eq, Clone, Copy, Structural)]
pub enum TxState {
    Active,
    Committed,
    Aborted,
}

} // verus!
