use vstd::prelude::*;

verus! {

/// Lifecycle state of a transaction.
#[derive(Debug, Clone, Copy, PartialEq, Eq, Hash, Structural)]
pub enum TransactionState {
    Active,
    Committed,
    Aborted,
}

/// A lookup from transaction identifiers to their states.
pub type StateLookup = spec_fn(u64) -> Option<TransactionState>;

} // verus!
