use std::collections::HashMap;

use chronosdb::recovery::{
    decode_checkpoint, encode_checkpoint, recover_transactions,
    recover_transactions_after_checkpoint, Checkpoint, CheckpointError, CheckpointManager,
    LogRecord, RecoveryError, RecoveryManager, RecoveryStats, TransactionLogKind,
};
use chronosdb::storage::{Page, PageError};
use chronosdb::transaction::TransactionState;

fn pages(count: u64) -> Vec<Page> {
    (0..count).map(Page::new).collect()
}

#[test]
fn redo_applies_unreflected_page_writes() {
    let records = vec![LogRecord::page_write(0, 0, 64, b"recovered".to_vec())];

    let mut disk = pages(1);

    let stats = RecoveryManager::redo_pages(&records, &mut disk).unwrap();

    assert_eq!(stats, RecoveryStats { records_seen: 1, records_redone: 1 });

    assert_eq!(disk[0].read(64, 9).unwrap(), b"recovered");

    assert_eq!(disk[0].page_lsn(), Some(0));

    assert!(disk[0].is_dirty());
}

#[test]
fn redo_is_idempotent_on_pages() {
    let records = vec![
        LogRecord::page_write(0, 0, 32, b"stable".to_vec()),
        LogRecord::transaction(1, TransactionLogKind::Commit, 3),
        LogRecord::page_write(2, 0, 40, b"more".to_vec()),
    ];

    let mut disk = pages(1);

    let first = RecoveryManager::redo_pages(&records, &mut disk).unwrap();

    assert_eq!(first.records_redone, 2);

    let image = disk[0].data().to_vec();

    let second = RecoveryManager::redo_pages(&records, &mut disk).unwrap();

    assert_eq!(second, RecoveryStats { records_seen: 3, records_redone: 0 });

    assert_eq!(disk[0].data(), &image[..]);
}

#[test]
fn redo_skips_writes_the_page_already_reflects() {
    let records = vec![LogRecord::page_write(3, 0, 64, b"once".to_vec())];

    let mut disk = pages(1);

    disk[0].write(64, b"once").unwrap();

    disk[0].set_page_lsn(3);

    disk[0].mark_clean();

    let stats = RecoveryManager::redo_pages(&records, &mut disk).unwrap();

    assert_eq!(stats.records_redone, 0);

    assert!(!disk[0].is_dirty());
}

#[test]
fn redo_adds_pages_the_log_mentions() {
    let records = vec![LogRecord::page_write(0, 2, 16, b"far".to_vec())];

    let mut disk = pages(0);

    RecoveryManager::redo_pages(&records, &mut disk).unwrap();

    assert_eq!(disk.len(), 3);

    assert_eq!(disk[2].id(), 2);

    assert_eq!(disk[2].read(16, 3).unwrap(), b"far");

    assert_eq!(disk[1].page_lsn(), None);
}

#[test]
fn redo_rejects_writes_outside_the_page_body() {
    let past_end = vec![LogRecord::page_write(0, 0, 4090, b"too long".to_vec())];

    let mut disk = pages(1);

    assert_eq!(
        RecoveryManager::redo_pages(&past_end, &mut disk),
        Err(RecoveryError::PageBoundary)
    );

    let into_header = vec![LogRecord::page_write(0, 0, 4, b"x".to_vec())];

    assert_eq!(
        RecoveryManager::redo_pages(&into_header, &mut disk),
        Err(RecoveryError::Page(PageError::OutOfBounds))
    );
}

#[test]
fn redo_after_checkpoint_replays_only_the_suffix() {
    let records = vec![
        LogRecord::page_write(0, 0, 32, b"first".to_vec()),
        LogRecord::page_write(1, 0, 64, b"second".to_vec()),
    ];

    let mut disk = pages(1);

    let stats = RecoveryManager::redo_pages_after(&records, 0, &mut disk).unwrap();

    assert_eq!(stats, RecoveryStats { records_seen: 1, records_redone: 1 });

    assert_eq!(disk[0].read(64, 6).unwrap(), b"second");

    assert_eq!(disk[0].read(32, 5).unwrap(), &[0_u8; 5]);
}

#[test]
fn crashed_transaction_is_aborted_after_recovery() {
    let records = vec![
        LogRecord::transaction(0, TransactionLogKind::Begin, 1),
        LogRecord::transaction(1, TransactionLogKind::Commit, 1),
        LogRecord::transaction(2, TransactionLogKind::Begin, 2),
        LogRecord::transaction(3, TransactionLogKind::Abort, 2),
        LogRecord::transaction(4, TransactionLogKind::Begin, 3),
        LogRecord::page_write(5, 0, 16, b"x".to_vec()),
    ];

    let recovered = recover_transactions(&records);

    assert_eq!(recovered.state(1), Some(TransactionState::Committed));

    assert_eq!(recovered.state(2), Some(TransactionState::Aborted));

    assert_eq!(recovered.state(3), Some(TransactionState::Aborted));

    assert_eq!(recovered.state(4), None);

    assert_eq!(recovered.next_transaction_id(), 4);

    assert_eq!(recovered.states().len(), 3);
}

#[test]
fn empty_log_recovers_no_transactions() {
    let recovered = recover_transactions(&[]);

    assert!(recovered.states().is_empty());

    assert_eq!(recovered.next_transaction_id(), 1);
}

#[test]
fn recovery_continues_from_checkpoint() {
    let states = HashMap::from([(1, TransactionState::Committed), (2, TransactionState::Active)]);

    let checkpoint = Checkpoint::new(1, 3, states);

    let records = vec![
        LogRecord::transaction(0, TransactionLogKind::Begin, 9),
        LogRecord::transaction(1, TransactionLogKind::Begin, 2),
        LogRecord::transaction(2, TransactionLogKind::Commit, 2),
    ];

    let recovered = recover_transactions_after_checkpoint(&checkpoint, &records);

    assert_eq!(recovered.state(1), Some(TransactionState::Committed));

    assert_eq!(recovered.state(2), Some(TransactionState::Committed));

    assert_eq!(recovered.state(9), None);

    assert_eq!(recovered.next_transaction_id(), 3);
}

#[test]
fn checkpoint_bytes_round_trip() {
    let states = HashMap::from([
        (2, TransactionState::Aborted),
        (1, TransactionState::Committed),
    ]);

    let checkpoint = Checkpoint::new(42, 3, states.clone());

    let bytes = encode_checkpoint(&checkpoint);

    assert_eq!(bytes.len(), 32 + 2 * 16);

    assert_eq!(&bytes[32..40], &1_u64.to_le_bytes());

    assert_eq!(bytes[40], 2);

    assert_eq!(&bytes[48..56], &2_u64.to_le_bytes());

    assert_eq!(bytes[56], 3);

    let restored = decode_checkpoint(&bytes).unwrap();

    assert_eq!(restored.lsn(), 42);

    assert_eq!(restored.next_transaction_id(), 3);

    assert_eq!(restored.states(), &states);

    assert_eq!(restored, checkpoint);
}

#[test]
fn damaged_checkpoints_are_rejected() {
    let checkpoint = Checkpoint::new(7, 2, HashMap::from([(1, TransactionState::Committed)]));

    let bytes = encode_checkpoint(&checkpoint);

    assert!(matches!(decode_checkpoint(&bytes[..40]), Err(CheckpointError::Io(_))));

    assert!(matches!(decode_checkpoint(&bytes[..10]), Err(CheckpointError::Io(_))));

    let mut wrong_version = bytes.clone();
    wrong_version[4] = 1;
    assert_eq!(decode_checkpoint(&wrong_version), Err(CheckpointError::Corrupt));

    let mut wrong_state = bytes.clone();
    wrong_state[40] = 9;
    assert_eq!(decode_checkpoint(&wrong_state), Err(CheckpointError::Corrupt));
}

#[test]
fn checkpoint_manager_remembers_its_path() {
    let manager = CheckpointManager::new("data/chronos.checkpoint");

    assert_eq!(manager.path(), "data/chronos.checkpoint");
}
