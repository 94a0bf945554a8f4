use vstd::prelude::*;

use crate::recovery::{CheckpointError, RecoveryError};
use crate::storage::{BufferedHeapError, HeapFileError};
use crate::transaction::{DurableTransactionError, TransactionError, TransactionId};

use super::write::WriteRejection;

verus! {

/// Errors of a transactional heap kept directly on disk.
#[derive(Debug, Clone, PartialEq, Eq)]
pub enum TransactionalHeapError {
    Heap(HeapFileError),
    Transaction(TransactionError),
    /// The transaction already committed or aborted, or is unknown.
    NotActive,
    /// The record is not visible to the transaction.
    RecordNotVisible,
    /// Another transaction holds a write claim on the record.
    WriteConflict(TransactionId),
}

/// Errors of a transactional heap backed by the write-ahead log.
#[derive(Debug, Clone, PartialEq, Eq)]
pub enum DurableTransactionalHeapError {
    Heap(BufferedHeapError),
    Transaction(DurableTransactionError),
    Recovery(RecoveryError),
    Checkpoint(CheckpointError),
    /// Reading or writing a file failed.
    Io(String),
    /// The transaction already committed or aborted, or is unknown.
    NotActive,
    /// The record is not visible to the transaction.
    RecordNotVisible,
    /// Another transaction holds a write claim on the record.
    WriteConflict(TransactionId),
}

impl TransactionalHeapError {
    /// The error reporting a refused write.
    pub fn from_rejection(r: WriteRejection) -> (e: Self)
        ensures
            e == match r {
                WriteRejection::Conflict(owner) => TransactionalHeapError::WriteConflict(owner),
                WriteRejection::NotVisible => TransactionalHeapError::RecordNotVisible,
            },
    {
        match r {
            WriteRejection::Conflict(owner) => TransactionalHeapError::WriteConflict(owner),
            WriteRejection::NotVisible => TransactionalHeapError::RecordNotVisible,
        }
    }
}

impl DurableTransactionalHeapError {
    /// The error reporting a refused write.
    pub fn from_rejection(r: WriteRejection) -> (e: Self)
        ensures
            e == match r {
                WriteRejection::Conflict(owner) => DurableTransactionalHeapError::WriteConflict(
                    owner,
                ),
                WriteRejection::NotVisible => DurableTransactionalHeapError::RecordNotVisible,
            },
    {
        match r {
            WriteRejection::Conflict(owner) => DurableTransactionalHeapError::WriteConflict(owner),
            WriteRejection::NotVisible => DurableTransactionalHeapError::RecordNotVisible,
        }
    }
}

} // verus!
