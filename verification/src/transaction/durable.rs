use vstd::prelude::*;

use super::TransactionError;

verus! {

/// Errors of a transaction manager that logs its decisions.
#[derive(Debug, Clone, PartialEq, Eq)]
pub enum DurableTransactionError {
    /// The transaction manager refused the operation.
    Transaction(TransactionError),
    /// Writing or reading the log failed.
    Io(String),
}

} // verus!
