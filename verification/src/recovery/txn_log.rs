use vstd::prelude::*;

use crate::transaction::TransactionId;

verus! {

/// Kind of a transaction lifecycle record.
#[derive(Debug, Clone, Copy, PartialEq, Eq, Structural)]
pub enum TransactionLogKind {
    Begin,
    Commit,
    Abort,
}

/// The stored code of a transaction record kind.
pub open spec fn kind_code_spec(k: TransactionLogKind) -> u8 {
    match k {
        TransactionLogKind::Begin => 1,
        TransactionLogKind::Commit => 2,
        TransactionLogKind::Abort => 3,
    }
}

impl TransactionLogKind {
    pub fn code(&self) -> (c: u8)
        ensures
            c == kind_code_spec(*self),
    {
        match self {
            TransactionLogKind::Begin => 1,
            TransactionLogKind::Commit => 2,
            TransactionLogKind::Abort => 3,
        }
    }

    /// The kind with stored code `value`, if any.
    pub fn from_code(value: u8) -> (k: Option<Self>)
        ensures
            match k {
                Some(k) => kind_code_spec(k) == value,
                None => value < 1 || value > 3,
            },
    {
        if value == 1 {
            Some(TransactionLogKind::Begin)
        } else if value == 2 {
            Some(TransactionLogKind::Commit)
        } else if value == 3 {
            Some(TransactionLogKind::Abort)
        } else {
            None
        }
    }
}

/// A transaction lifecycle event read from the log.
#[derive(Debug, Clone, Copy, PartialEq, Eq, Structural)]
pub struct TransactionLogRecord {
    pub transaction_id: TransactionId,
    pub kind: TransactionLogKind,
}

} // verus!
