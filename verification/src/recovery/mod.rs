pub mod checkpoint;
pub mod log;
pub mod redo;
pub mod txn_log;
pub mod txn_recovery;
pub mod wal;

pub use checkpoint::{
    decode_checkpoint, encode_checkpoint, Checkpoint, CheckpointError, CheckpointManager,
};
pub use log::{encode_log, parse_log, records_after, LogError, LogRecord, LogRecordType, Lsn};
pub use redo::{RecoveryError, RecoveryManager, RecoveryStats};
pub use txn_log::{TransactionLogKind, TransactionLogRecord};
pub use txn_recovery::{
    recover_from_records, recover_transactions, recover_transactions_after_checkpoint,
    RecoveredTransactions,
};
pub use wal::{LogState, WalError};
