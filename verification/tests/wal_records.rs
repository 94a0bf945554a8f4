use chronosdb::recovery::{
    encode_log, parse_log, records_after, LogError, LogRecord, LogRecordType, LogState,
    TransactionLogKind, WalError,
};

fn sample_records() -> Vec<LogRecord> {
    vec![
        LogRecord::page_write(0, 4, 100, b"payload".to_vec()),
        LogRecord::transaction(1, TransactionLogKind::Begin, 7),
        LogRecord::page_write(2, 0, 16, b"x".to_vec()),
        LogRecord::transaction(3, TransactionLogKind::Commit, 7),
    ]
}

#[test]
fn log_record_round_trips() {
    let record = LogRecord::page_write(42, 3, 64, b"chronos".to_vec());

    let bytes = record.encode();

    assert_eq!(bytes.len(), 36 + 7);

    assert_eq!(LogRecord::decode(&bytes).unwrap(), record);
}

#[test]
fn log_record_layout() {
    let bytes = LogRecord::page_write(1, 2, 3, vec![9]).encode();

    assert_eq!(&bytes[0..4], &0x4348_524f_u32.to_le_bytes());

    assert_eq!(&bytes[4..8], &37_u32.to_le_bytes());

    assert_eq!(&bytes[8..16], &1_u64.to_le_bytes());

    assert_eq!(&bytes[16..20], &[1, 0, 0, 0]);

    assert_eq!(&bytes[20..28], &2_u64.to_le_bytes());

    assert_eq!(&bytes[28..32], &3_u32.to_le_bytes());

    assert_eq!(&bytes[32..36], &1_u32.to_le_bytes());

    assert_eq!(bytes[36], 9);
}

#[test]
fn log_record_decode_errors() {
    let mut bytes = LogRecord::page_write(1, 2, 3, vec![9]).encode();

    assert_eq!(LogRecord::decode(&bytes[..20]), Err(LogError::Truncated));

    let mut wrong_kind = bytes.clone();
    wrong_kind[16] = 9;
    assert_eq!(LogRecord::decode(&wrong_kind), Err(LogError::UnknownRecordType));

    let mut wrong_payload = bytes.clone();
    wrong_payload[32] = 2;
    assert_eq!(
        LogRecord::decode(&wrong_payload),
        Err(LogError::PayloadLengthMismatch)
    );

    let mut wrong_length = bytes.clone();
    wrong_length[4] = 40;
    assert_eq!(LogRecord::decode(&wrong_length), Err(LogError::LengthMismatch));

    bytes[0] = 0;
    assert_eq!(LogRecord::decode(&bytes), Err(LogError::InvalidMagic));
}

#[test]
fn transaction_records_name_their_transaction() {
    let record = LogRecord::transaction(5, TransactionLogKind::Abort, 12);

    assert_eq!(record.record_type, LogRecordType::TransactionAbort);

    assert_eq!(record.transaction_id(), Some(12));

    assert_eq!(LogRecord::page_write(5, 12, 16, vec![]).transaction_id(), None);
}

#[test]
fn log_with_truncated_tail_reads_complete_records() {
    let records = sample_records();

    let mut bytes = encode_log(&records);

    bytes.extend_from_slice(&[1, 2, 3, 4]);

    assert_eq!(parse_log(&bytes).unwrap(), records);

    let mut cut = encode_log(&records);

    let extra = LogRecord::page_write(9, 0, 16, b"lost".to_vec()).encode();

    cut.extend_from_slice(&extra[..20]);

    assert_eq!(parse_log(&cut).unwrap(), records);
}

#[test]
fn log_with_foreign_bytes_is_rejected() {
    let mut bytes = encode_log(&sample_records());

    bytes.extend_from_slice(&[0; 12]);

    assert_eq!(parse_log(&bytes), Err(LogError::InvalidMagic));

    let mut short = encode_log(&sample_records());

    short.extend_from_slice(&0x4348_524f_u32.to_le_bytes());
    short.extend_from_slice(&8_u32.to_le_bytes());

    assert_eq!(parse_log(&short), Err(LogError::InvalidLength));
}

#[test]
fn empty_log_has_no_records() {
    assert_eq!(parse_log(&[]).unwrap(), Vec::<LogRecord>::new());
}

#[test]
fn records_after_checkpoint_keep_order() {
    let records = sample_records();

    let after = records_after(&records, 1);

    assert_eq!(after, records[2..].to_vec());

    assert_eq!(parse_log(&encode_log(&after)).unwrap(), after);
}

#[test]
fn log_state_assigns_monotonic_lsns() {
    let mut state = LogState::from_records(&[]);

    assert_eq!(state.next_lsn(), 0);

    assert_eq!(state.durable_lsn(), None);

    assert_eq!(state.assign_lsn(), 0);

    assert_eq!(state.assign_lsn(), 1);

    assert_eq!(state.next_lsn(), 2);

    assert_eq!(state.durable_lsn(), None);

    state.mark_flushed();

    assert_eq!(state.durable_lsn(), Some(1));
}

#[test]
fn log_state_continues_after_stored_records() {
    let state = LogState::from_records(&sample_records());

    assert_eq!(state.next_lsn(), 4);

    assert_eq!(state.durable_lsn(), Some(3));
}

#[test]
fn flush_through_needs_an_assigned_lsn() {
    let mut state = LogState::from_records(&[]);

    assert_eq!(state.needs_flush_through(0), Err(WalError::UnknownLsn));

    let first = state.assign_lsn();

    let second = state.assign_lsn();

    assert_eq!(state.needs_flush_through(first), Ok(true));

    state.mark_flushed();

    assert_eq!(state.needs_flush_through(second), Ok(false));

    state.continue_from(10);

    assert_eq!(state.next_lsn(), 10);

    state.continue_from(5);

    assert_eq!(state.next_lsn(), 10);
}
