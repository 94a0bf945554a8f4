use vstd::bytes::*;
use vstd::prelude::*;
use vstd::slice::*;

use crate::transaction::TransactionId;
use crate::PageId;

use super::txn_log::{TransactionLogKind, TransactionLogRecord};

verus! {

/// Log sequence number of a write-ahead-log record.
pub type Lsn = u64;

/// Bytes of a log-record header.
pub const LOG_HEADER_SIZE: usize = 36;

/// Marker at the start of every log record.
pub const LOG_MAGIC: u32 = 0x4348_524f;

/// Kind of a write-ahead-log record.
#[derive(Debug, Clone, Copy, PartialEq, Eq, Structural)]
pub enum LogRecordType {
    /// Bytes written into a page.
    PageWrite,
    TransactionBegin,
    TransactionCommit,
    TransactionAbort,
}

/// The stored code of a record kind.
pub open spec fn type_code_spec(t: LogRecordType) -> u8 {
    match t {
        LogRecordType::PageWrite => 1,
        LogRecordType::TransactionBegin => 2,
        LogRecordType::TransactionCommit => 3,
        LogRecordType::TransactionAbort => 4,
    }
}

/// The record kind with the stored code `c`, if any.
pub open spec fn type_of_code(c: u8) -> Option<LogRecordType> {
    if c == 1 {
        Some(LogRecordType::PageWrite)
    } else if c == 2 {
        Some(LogRecordType::TransactionBegin)
    } else if c == 3 {
        Some(LogRecordType::TransactionCommit)
    } else if c == 4 {
        Some(LogRecordType::TransactionAbort)
    } else {
        None
    }
}

impl LogRecordType {
    pub fn code(&self) -> (c: u8)
        ensures
            c == type_code_spec(*self),
    {
        match self {
            LogRecordType::PageWrite => 1,
            LogRecordType::TransactionBegin => 2,
            LogRecordType::TransactionCommit => 3,
            LogRecordType::TransactionAbort => 4,
        }
    }

    pub fn from_code(code: u8) -> (t: Option<Self>)
        ensures
            t == type_of_code(code),
    {
        if code == 1 {
            Some(LogRecordType::PageWrite)
        } else if code == 2 {
            Some(LogRecordType::TransactionBegin)
        } else if code == 3 {
            Some(LogRecordType::TransactionCommit)
        } else if code == 4 {
            Some(LogRecordType::TransactionAbort)
        } else {
            None
        }
    }
}

/// Errors of log-record decoding.
#[derive(Debug, Clone, Copy, PartialEq, Eq, Structural)]
pub enum LogError {
    /// Fewer bytes than a record header.
    Truncated,
    /// The record does not start with the log marker.
    InvalidMagic,
    /// The recorded length is shorter than a header.
    InvalidLength,
    /// The recorded length disagrees with the bytes given.
    LengthMismatch,
    /// The record kind is unknown.
    UnknownRecordType,
    /// The payload length disagrees with the record length.
    PayloadLengthMismatch,
}

/// Mathematical model of a log record.
pub struct LogRecordView {
    pub lsn: Lsn,
    pub record_type: LogRecordType,
    pub page_id: PageId,
    pub offset: u32,
    pub payload: Seq<u8>,
}

/// A write-ahead-log record. Transaction records carry the transaction
/// identifier in `page_id`.
#[derive(Debug, Clone, PartialEq, Eq)]
pub struct LogRecord {
    pub lsn: Lsn,
    pub record_type: LogRecordType,
    pub page_id: PageId,
    pub offset: u32,
    pub payload: Vec<u8>,
}

impl View for LogRecord {
    type V = LogRecordView;

    open spec fn view(&self) -> LogRecordView {
        LogRecordView {
            lsn: self.lsn,
            record_type: self.record_type,
            page_id: self.page_id,
            offset: self.offset,
            payload: self.payload@,
        }
    }
}

/// The stored bytes of a log record: marker, total length (modulo 2^32), LSN,
/// kind code, three zero bytes, page, offset, payload length (modulo 2^32),
/// all little endian, then the payload.
pub open spec fn encode_record_spec(r: LogRecordView) -> Seq<u8> {
    spec_u32_to_le_bytes(LOG_MAGIC) + spec_u32_to_le_bytes(
        ((LOG_HEADER_SIZE + r.payload.len()) % 0x1_0000_0000) as u32,
    ) + spec_u64_to_le_bytes(r.lsn) + seq![type_code_spec(r.record_type), 0u8, 0u8, 0u8]
        + spec_u64_to_le_bytes(r.page_id) + spec_u32_to_le_bytes(r.offset) + spec_u32_to_le_bytes(
        (r.payload.len() % 0x1_0000_0000) as u32,
    ) + r.payload
}

/// The log record that `b` stores, or why it stores none.
pub open spec fn decode_record_spec(b: Seq<u8>) -> Result<LogRecordView, LogError> {
    if b.len() < LOG_HEADER_SIZE {
        Err(LogError::Truncated)
    } else if spec_u32_from_le_bytes(b.subrange(0, 4)) != LOG_MAGIC {
        Err(LogError::InvalidMagic)
    } else if spec_u32_from_le_bytes(b.subrange(4, 8)) != b.len() {
        Err(LogError::LengthMismatch)
    } else if type_of_code(b[16]) is None {
        Err(LogError::UnknownRecordType)
    } else if LOG_HEADER_SIZE + spec_u32_from_le_bytes(b.subrange(32, 36)) != b.len() {
        Err(LogError::PayloadLengthMismatch)
    } else {
        Ok(
            LogRecordView {
                lsn: spec_u64_from_le_bytes(b.subrange(8, 16)),
                record_type: type_of_code(b[16])->Some_0,
                page_id: spec_u64_from_le_bytes(b.subrange(20, 28)),
                offset: spec_u32_from_le_bytes(b.subrange(28, 32)),
                payload: b.subrange(LOG_HEADER_SIZE as int, b.len() as int),
            },
        )
    }
}

/// The records stored in `b` from position `pos` on, in order. Reading stops
/// quietly at a record that is cut short by the end of `b`; a record with a
/// wrong marker or length, or that does not decode, is an error.
pub open spec fn parse_log_spec(b: Seq<u8>, pos: int) -> Result<Seq<LogRecordView>, LogError>
    decreases b.len() - pos,
{
    if pos < 0 || b.len() - pos < 8 {
        Ok(Seq::empty())
    } else if spec_u32_from_le_bytes(b.subrange(pos, pos + 4)) != LOG_MAGIC {
        Err(LogError::InvalidMagic)
    } else {
        let total = spec_u32_from_le_bytes(b.subrange(pos + 4, pos + 8)) as int;
        if total < LOG_HEADER_SIZE {
            Err(LogError::InvalidLength)
        } else if b.len() - pos < total {
            Ok(Seq::empty())
        } else {
            match decode_record_spec(b.subrange(pos, pos + total)) {
                Err(e) => Err(e),
                Ok(r) => match parse_log_spec(b, pos + total) {
                    Err(e) => Err(e),
                    Ok(rest) => Ok(seq![r] + rest),
                },
            }
        }
    }
}

/// The transaction identifier and kind of a transaction record.
pub open spec fn transaction_of(r: LogRecordView) -> Option<TransactionLogRecord> {
    match r.record_type {
        LogRecordType::PageWrite => None,
        LogRecordType::TransactionBegin => Some(
            TransactionLogRecord { transaction_id: r.page_id, kind: TransactionLogKind::Begin },
        ),
        LogRecordType::TransactionCommit => Some(
            TransactionLogRecord { transaction_id: r.page_id, kind: TransactionLogKind::Commit },
        ),
        LogRecordType::TransactionAbort => Some(
            TransactionLogRecord { transaction_id: r.page_id, kind: TransactionLogKind::Abort },
        ),
    }
}

fn append_bytes(dst: &mut Vec<u8>, src: &[u8])
    ensures
        final(dst)@ == old(dst)@ + src@,
{
    let ghost before = dst@;
    dst.extend_from_slice(src);
    assert(dst@ =~= before + src@);
}

impl LogRecord {
    /// A record of `payload` written at `offset` in page `page_id`.
    pub fn page_write(lsn: Lsn, page_id: PageId, offset: u32, payload: Vec<u8>) -> (r: Self)
        ensures
            r@ == (LogRecordView {
                lsn,
                record_type: LogRecordType::PageWrite,
                page_id,
                offset,
                payload: payload@,
            }),
    {
        Self { lsn, record_type: LogRecordType::PageWrite, page_id, offset, payload }
    }

    /// A record of a transaction's begin, commit or abort.
    pub fn transaction(lsn: Lsn, kind: TransactionLogKind, transaction_id: TransactionId) -> (r:
        Self)
        ensures
            r@.lsn == lsn,
            r@.offset == 0,
            r@.payload == Seq::<u8>::empty(),
            r@.page_id == transaction_id,
            r@.record_type == match kind {
                TransactionLogKind::Begin => LogRecordType::TransactionBegin,
                TransactionLogKind::Commit => LogRecordType::TransactionCommit,
                TransactionLogKind::Abort => LogRecordType::TransactionAbort,
            },
            transaction_of(r@) == Some(TransactionLogRecord { transaction_id, kind }),
    {
        let record_type = match kind {
            TransactionLogKind::Begin => LogRecordType::TransactionBegin,
            TransactionLogKind::Commit => LogRecordType::TransactionCommit,
            TransactionLogKind::Abort => LogRecordType::TransactionAbort,
        };
        Self { lsn, record_type, page_id: transaction_id, offset: 0, payload: Vec::new() }
    }

    /// The transaction this record concerns, for a transaction record.
    pub fn transaction_id(&self) -> (t: Option<TransactionId>)
        ensures
            t == (match transaction_of(self@) {
                Some(r) => Some(r.transaction_id),
                None => None,
            }),
    {
        match self.record_type {
            LogRecordType::PageWrite => None,
            _ => Some(self.page_id),
        }
    }

    /// The transaction identifier and kind, for a transaction record.
    pub fn as_transaction(&self) -> (t: Option<TransactionLogRecord>)
        ensures
            t == transaction_of(self@),
    {
        match self.record_type {
            LogRecordType::PageWrite => None,
            LogRecordType::TransactionBegin => Some(
                TransactionLogRecord {
                    transaction_id: self.page_id,
                    kind: TransactionLogKind::Begin,
                },
            ),
            LogRecordType::TransactionCommit => Some(
                TransactionLogRecord {
                    transaction_id: self.page_id,
                    kind: TransactionLogKind::Commit,
                },
            ),
            LogRecordType::TransactionAbort => Some(
                TransactionLogRecord {
                    transaction_id: self.page_id,
                    kind: TransactionLogKind::Abort,
                },
            ),
        }
    }

    /// An equal copy of this record.
    pub fn duplicate(&self) -> (r: Self)
        ensures
            r@ == self@,
    {
        let payload = self.payload.clone();
        assert(payload@ =~= self.payload@);
        Self {
            lsn: self.lsn,
            record_type: self.record_type,
            page_id: self.page_id,
            offset: self.offset,
            payload,
        }
    }

    /// Length of the stored record.
    pub fn encoded_len(&self) -> (n: usize)
        requires
            self.payload@.len() + LOG_HEADER_SIZE <= usize::MAX,
        ensures
            n == LOG_HEADER_SIZE + self.payload@.len(),
    {
        LOG_HEADER_SIZE + self.payload.len()
    }

    /// The stored bytes of this record.
    pub fn encode(&self) -> (bytes: Vec<u8>)
        ensures
            bytes@ == encode_record_spec(self@),
    {
        let payload_len: u32 = ((self.payload.len() as u64) % 0x1_0000_0000u64) as u32;
        let total_len: u32 = (((self.payload.len() as u64) % 0x1_0000_0000u64 + LOG_HEADER_SIZE
            as u64) % 0x1_0000_0000u64) as u32;
        proof {
            assert(((self.payload@.len() % 0x1_0000_0000) + LOG_HEADER_SIZE) % 0x1_0000_0000 == (
            LOG_HEADER_SIZE + self.payload@.len()) % 0x1_0000_0000) by (nonlinear_arith);
        }
        let mut bytes = u32_to_le_bytes(LOG_MAGIC);
        append_bytes(&mut bytes, u32_to_le_bytes(total_len).as_slice());
        append_bytes(&mut bytes, u64_to_le_bytes(self.lsn).as_slice());
        let ghost before = bytes@;
        bytes.push(self.record_type.code());
        bytes.push(0);
        bytes.push(0);
        bytes.push(0);
        assert(bytes@ =~= before + seq![type_code_spec(self.record_type), 0u8, 0u8, 0u8]);
        append_bytes(&mut bytes, u64_to_le_bytes(self.page_id).as_slice());
        append_bytes(&mut bytes, u32_to_le_bytes(self.offset).as_slice());
        append_bytes(&mut bytes, u32_to_le_bytes(payload_len).as_slice());
        append_bytes(&mut bytes, self.payload.as_slice());
        bytes
    }

    /// Decodes one stored record that spans exactly `bytes`.
    pub fn decode(bytes: &[u8]) -> (result: Result<Self, LogError>)
        ensures
            match (result, decode_record_spec(bytes@)) {
                (Ok(r), Ok(v)) => r@ == v,
                (Err(e), Err(f)) => e == f,
                _ => false,
            },
    {
        if bytes.len() < LOG_HEADER_SIZE {
            return Err(LogError::Truncated);
        }
        let magic = u32_from_le_bytes(slice_subrange(bytes, 0, 4));
        if magic != LOG_MAGIC {
            return Err(LogError::InvalidMagic);
        }
        let total_len = u32_from_le_bytes(slice_subrange(bytes, 4, 8));
        if total_len as u64 != bytes.len() as u64 {
            return Err(LogError::LengthMismatch);
        }
        let lsn = u64_from_le_bytes(slice_subrange(bytes, 8, 16));
        let record_type = match LogRecordType::from_code(bytes[16]) {
            Some(t) => t,
            None => {
                return Err(LogError::UnknownRecordType);
            },
        };
        let page_id = u64_from_le_bytes(slice_subrange(bytes, 20, 28));
        let offset = u32_from_le_bytes(slice_subrange(bytes, 28, 32));
        let payload_len = u32_from_le_bytes(slice_subrange(bytes, 32, 36));
        if LOG_HEADER_SIZE as u64 + payload_len as u64 != bytes.len() as u64 {
            return Err(LogError::PayloadLengthMismatch);
        }
        let payload = slice_to_vec(slice_subrange(bytes, LOG_HEADER_SIZE, bytes.len()));
        Ok(LogRecord { lsn, record_type, page_id, offset, payload })
    }
}

/// `done` followed by the records of `rest`, or the error of `rest`.
pub open spec fn prepend_records(
    done: Seq<LogRecordView>,
    rest: Result<Seq<LogRecordView>, LogError>,
) -> Result<Seq<LogRecordView>, LogError> {
    match rest {
        Ok(r) => Ok(done + r),
        Err(e) => Err(e),
    }
}

/// Reads every complete record stored in `bytes`, the contents of a log
/// file. A record cut short at the end is ignored.
pub fn parse_log(bytes: &[u8]) -> (result: Result<Vec<LogRecord>, LogError>)
    ensures
        match (result, parse_log_spec(bytes@, 0)) {
            (Ok(rs), Ok(vs)) => rs@.map_values(|r: LogRecord| r@) == vs,
            (Err(e), Err(f)) => e == f,
            _ => false,
        },
{
    let mut records: Vec<LogRecord> = Vec::new();
    let mut pos: usize = 0;
    proof {
        assert(records@.map_values(|r: LogRecord| r@) =~= Seq::<LogRecordView>::empty());
        match parse_log_spec(bytes@, 0) {
            Ok(r) => {
                assert(Seq::<LogRecordView>::empty() + r =~= r);
            },
            Err(_) => {},
        }
    }
    while pos <= bytes.len() && bytes.len() - pos >= 8
        invariant
            pos <= bytes@.len(),
            parse_log_spec(bytes@, 0) == prepend_records(
                records@.map_values(|r: LogRecord| r@),
                parse_log_spec(bytes@, pos as int),
            ),
        ensures
            pos <= bytes@.len(),
            parse_log_spec(bytes@, 0) == prepend_records(
                records@.map_values(|r: LogRecord| r@),
                parse_log_spec(bytes@, pos as int),
            ),
            parse_log_spec(bytes@, pos as int) == Ok::<Seq<LogRecordView>, LogError>(
                Seq::empty(),
            ),
        decreases bytes@.len() - pos,
    {
        let magic = u32_from_le_bytes(slice_subrange(bytes, pos, pos + 4));
        if magic != LOG_MAGIC {
            return Err(LogError::InvalidMagic);
        }
        let total_len = u32_from_le_bytes(slice_subrange(bytes, pos + 4, pos + 8)) as usize;
        if total_len < LOG_HEADER_SIZE {
            return Err(LogError::InvalidLength);
        }
        if bytes.len() - pos < total_len {
            break ;
        }
        let record = match LogRecord::decode(slice_subrange(bytes, pos, pos + total_len)) {
            Ok(r) => r,
            Err(e) => {
                return Err(e);
            },
        };
        let ghost before = records@;
        records.push(record);
        proof {
            let next = pos + total_len;
            assert(records@.map_values(|r: LogRecord| r@) =~= before.map_values(
                |r: LogRecord| r@,
            ).push(record@));
            match parse_log_spec(bytes@, next as int) {
                Ok(rest) => {
                    assert(before.map_values(|r: LogRecord| r@) + (seq![record@] + rest)
                        =~= records@.map_values(|r: LogRecord| r@) + rest);
                },
                Err(_) => {},
            }
        }
        pos = pos + total_len;
    }
    proof {
        assert(records@.map_values(|r: LogRecord| r@) + Seq::<LogRecordView>::empty()
            =~= records@.map_values(|r: LogRecord| r@));
    }
    Ok(records)
}

/// The records of `rs` whose LSN is above `lsn`, in order.
pub open spec fn records_after_spec(rs: Seq<LogRecordView>, lsn: Lsn) -> Seq<LogRecordView>
    decreases rs.len(),
{
    if rs.len() == 0 {
        rs
    } else {
        let before = records_after_spec(rs.drop_last(), lsn);
        if rs.last().lsn > lsn {
            before.push(rs.last())
        } else {
            before
        }
    }
}

/// The records of `records` whose LSN is above `lsn`, in order; what remains
/// to be replayed after a checkpoint at `lsn`.
pub fn records_after(records: &[LogRecord], lsn: Lsn) -> (after: Vec<LogRecord>)
    ensures
        after@.map_values(|r: LogRecord| r@) == records_after_spec(
            records@.map_values(|r: LogRecord| r@),
            lsn,
        ),
{
    let ghost all = records@.map_values(|r: LogRecord| r@);
    let mut after: Vec<LogRecord> = Vec::new();
    let mut i: usize = 0;
    proof {
        assert(all.take(0) =~= Seq::<LogRecordView>::empty());
        assert(after@.map_values(|r: LogRecord| r@) =~= Seq::<LogRecordView>::empty());
    }
    while i < records.len()
        invariant
            i <= records@.len(),
            all == records@.map_values(|r: LogRecord| r@),
            after@.map_values(|r: LogRecord| r@) == records_after_spec(all.take(i as int), lsn),
        decreases records@.len() - i,
    {
        proof {
            assert(all.take(i + 1).drop_last() =~= all.take(i as int));
            assert(all.take(i + 1).last() == records@[i as int]@);
        }
        if records[i].lsn > lsn {
            let ghost before = after@;
            after.push(records[i].duplicate());
            assert(after@.map_values(|r: LogRecord| r@) =~= before.map_values(|r: LogRecord| r@).push(
                records@[i as int]@,
            ));
        }
        i = i + 1;
    }
    proof {
        assert(all.take(records@.len() as int) =~= all);
    }
    after
}

/// The stored bytes of a sequence of log records, one after the other.
pub open spec fn encode_log_spec(rs: Seq<LogRecordView>) -> Seq<u8>
    decreases rs.len(),
{
    if rs.len() == 0 {
        Seq::empty()
    } else {
        encode_record_spec(rs[0]) + encode_log_spec(rs.drop_first())
    }
}

/// Whether the stored form of `r` fits the 32-bit length fields.
pub open spec fn record_fits(r: LogRecordView) -> bool {
    LOG_HEADER_SIZE + r.payload.len() <= u32::MAX
}

/// Every record kind is read back from its stored code.
pub proof fn lemma_type_code_round_trip(t: LogRecordType)
    ensures
        type_of_code(type_code_spec(t)) == Some(t),
{
}

/// Decoding a stored log record gives the record back.
pub proof fn lemma_record_round_trip(r: LogRecordView)
    requires
        record_fits(r),
    ensures
        decode_record_spec(encode_record_spec(r)) == Ok::<LogRecordView, LogError>(r),
        encode_record_spec(r).len() == LOG_HEADER_SIZE + r.payload.len(),
{
    lemma_auto_spec_u64_to_from_le_bytes();
    lemma_auto_spec_u32_to_from_le_bytes();
    let b = encode_record_spec(r);
    let n = LOG_HEADER_SIZE + r.payload.len();
    assert(b.subrange(0, 4) =~= spec_u32_to_le_bytes(LOG_MAGIC));
    assert(b.subrange(4, 8) =~= spec_u32_to_le_bytes((n % 0x1_0000_0000) as u32));
    assert(b.subrange(8, 16) =~= spec_u64_to_le_bytes(r.lsn));
    assert(b[16] == type_code_spec(r.record_type));
    assert(b.subrange(20, 28) =~= spec_u64_to_le_bytes(r.page_id));
    assert(b.subrange(28, 32) =~= spec_u32_to_le_bytes(r.offset));
    assert(b.subrange(32, 36) =~= spec_u32_to_le_bytes(
        (r.payload.len() % 0x1_0000_0000) as u32,
    ));
    assert(b.subrange(LOG_HEADER_SIZE as int, b.len() as int) =~= r.payload);
    assert((n % 0x1_0000_0000) as u32 == n);
    assert((r.payload.len() % 0x1_0000_0000) as u32 == r.payload.len());
}

proof fn lemma_parse_shift(p: Seq<u8>, y: Seq<u8>, q: int)
    requires
        0 <= q,
    ensures
        parse_log_spec(p + y, p.len() + q) == parse_log_spec(y, q),
    decreases y.len() - q,
{
    let b = p + y;
    let pos = p.len() + q;
    if b.len() - pos >= 8 {
        assert(b.subrange(pos, pos + 4) =~= y.subrange(q, q + 4));
        assert(b.subrange(pos + 4, pos + 8) =~= y.subrange(q + 4, q + 8));
        let total = spec_u32_from_le_bytes(y.subrange(q + 4, q + 8)) as int;
        if total >= LOG_HEADER_SIZE && b.len() - pos >= total {
            assert(b.subrange(pos, pos + total) =~= y.subrange(q, q + total));
            lemma_parse_shift(p, y, q + total);
        }
    }
}

/// The beginning of a stored record, cut short, reads as no records.
proof fn lemma_parse_cut_tail(cut: LogRecordView, k: int)
    requires
        record_fits(cut),
        0 <= k < encode_record_spec(cut).len(),
    ensures
        parse_log_spec(encode_record_spec(cut).take(k), 0) == Ok::<
            Seq<LogRecordView>,
            LogError,
        >(Seq::empty()),
{
    lemma_auto_spec_u32_to_from_le_bytes();
    lemma_record_round_trip(cut);
    let e = encode_record_spec(cut);
    let tail = e.take(k);
    if k >= 8 {
        assert(tail.subrange(0, 4) =~= e.subrange(0, 4));
        assert(tail.subrange(4, 8) =~= e.subrange(4, 8));
        assert(e.subrange(0, 4) =~= spec_u32_to_le_bytes(LOG_MAGIC));
        assert(e.subrange(4, 8) =~= spec_u32_to_le_bytes(
            ((LOG_HEADER_SIZE + cut.payload.len()) % 0x1_0000_0000) as u32,
        ));
    }
}

/// A stored record in front of a log adds that record in front of what the
/// log reads as.
proof fn lemma_parse_prepend(r0: LogRecordView, y: Seq<u8>)
    requires
        record_fits(r0),
        parse_log_spec(y, 0) is Ok,
    ensures
        parse_log_spec(encode_record_spec(r0) + y, 0) == Ok::<Seq<LogRecordView>, LogError>(
            seq![r0] + parse_log_spec(y, 0)->Ok_0,
        ),
{
    lemma_auto_spec_u32_to_from_le_bytes();
    lemma_record_round_trip(r0);
    let e0 = encode_record_spec(r0);
    let b = e0 + y;
    lemma_parse_shift(e0, y, 0);
    let total = LOG_HEADER_SIZE + r0.payload.len();
    assert(b.subrange(0, 4) =~= e0.subrange(0, 4));
    assert(b.subrange(4, 8) =~= e0.subrange(4, 8));
    assert(e0.subrange(0, 4) =~= spec_u32_to_le_bytes(LOG_MAGIC));
    assert(e0.subrange(4, 8) =~= spec_u32_to_le_bytes((total % 0x1_0000_0000) as u32));
    assert((total % 0x1_0000_0000) as u32 == total);
    assert(b.subrange(0, total) =~= e0);
}

/// A log holding stored records, possibly followed by the beginning of one
/// more record cut short by a crash, reads back as exactly those records.
pub proof fn lemma_parse_encoded_log(
    rs: Seq<LogRecordView>,
    cut: LogRecordView,
    k: int,
)
    requires
        forall|i: int| 0 <= i < rs.len() ==> record_fits(#[trigger] rs[i]),
        record_fits(cut),
        0 <= k < encode_record_spec(cut).len(),
    ensures
        parse_log_spec(encode_log_spec(rs) + encode_record_spec(cut).take(k), 0) == Ok::<
            Seq<LogRecordView>,
            LogError,
        >(rs),
    decreases rs.len(),
{
    let tail = encode_record_spec(cut).take(k);
    if rs.len() == 0 {
        assert(encode_log_spec(rs) + tail =~= tail);
        lemma_parse_cut_tail(cut, k);
        assert(rs =~= Seq::<LogRecordView>::empty());
    } else {
        let r0 = rs[0];
        let rest = rs.drop_first();
        assert forall|i: int| 0 <= i < rest.len() implies record_fits(#[trigger] rest[i]) by {
            assert(rest[i] == rs[i + 1]);
        }
        assert(record_fits(rs[0]));
        lemma_parse_encoded_log(rest, cut, k);
        let y = encode_log_spec(rest) + tail;
        assert(encode_log_spec(rs) + tail =~= encode_record_spec(r0) + y);
        lemma_parse_prepend(r0, y);
        assert(seq![r0] + rest =~= rs);
    }
}

proof fn lemma_encode_log_push(rs: Seq<LogRecordView>, r: LogRecordView)
    ensures
        encode_log_spec(rs.push(r)) == encode_log_spec(rs) + encode_record_spec(r),
    decreases rs.len(),
{
    if rs.len() == 0 {
        reveal_with_fuel(encode_log_spec, 2);
        assert(rs.push(r).drop_first() =~= Seq::<LogRecordView>::empty());
        assert(rs.push(r)[0] == r);
        assert(encode_log_spec(rs.push(r)) =~= encode_log_spec(rs) + encode_record_spec(r));
    } else {
        lemma_encode_log_push(rs.drop_first(), r);
        assert(rs.push(r).drop_first() =~= rs.drop_first().push(r));
        assert(encode_log_spec(rs.push(r)) =~= encode_log_spec(rs) + encode_record_spec(r));
    }
}

/// The stored bytes of `records`, one after the other, as a log file holds
/// them; used to rewrite the log without the records a checkpoint covers.
pub fn encode_log(records: &[LogRecord]) -> (bytes: Vec<u8>)
    ensures
        bytes@ == encode_log_spec(records@.map_values(|r: LogRecord| r@)),
{
    let ghost all = records@.map_values(|r: LogRecord| r@);
    let mut bytes: Vec<u8> = Vec::new();
    let mut i: usize = 0;
    proof {
        assert(all.take(0) =~= Seq::<LogRecordView>::empty());
        assert(bytes@ =~= encode_log_spec(all.take(0)));
    }
    while i < records.len()
        invariant
            i <= records@.len(),
            all == records@.map_values(|r: LogRecord| r@),
            bytes@ == encode_log_spec(all.take(i as int)),
        decreases records@.len() - i,
    {
        let encoded = records[i].encode();
        append_bytes(&mut bytes, encoded.as_slice());
        proof {
            assert(all.take(i + 1) =~= all.take(i as int).push(records@[i as int]@));
            lemma_encode_log_push(all.take(i as int), records@[i as int]@);
        }
        i = i + 1;
    }
    proof {
        assert(all.take(records@.len() as int) =~= all);
    }
    bytes
}

/// A log rewritten from the records after a checkpoint reads back as
/// exactly those records.
pub proof fn lemma_compacted_log_reads_back(rs: Seq<LogRecordView>, lsn: Lsn)
    requires
        forall|i: int| 0 <= i < rs.len() ==> record_fits(#[trigger] rs[i]),
    ensures
        parse_log_spec(encode_log_spec(records_after_spec(rs, lsn)), 0) == Ok::<
            Seq<LogRecordView>,
            LogError,
        >(records_after_spec(rs, lsn)),
{
    lemma_records_after_fit(rs, lsn);
    let kept = records_after_spec(rs, lsn);
    let cut = LogRecordView {
        lsn: 0,
        record_type: LogRecordType::PageWrite,
        page_id: 0,
        offset: 0,
        payload: Seq::empty(),
    };
    lemma_record_round_trip(cut);
    lemma_parse_encoded_log(kept, cut, 0);
    assert(encode_log_spec(kept) + encode_record_spec(cut).take(0) =~= encode_log_spec(kept));
}

proof fn lemma_records_after_fit(rs: Seq<LogRecordView>, lsn: Lsn)
    requires
        forall|i: int| 0 <= i < rs.len() ==> record_fits(#[trigger] rs[i]),
    ensures
        forall|i: int|
            0 <= i < records_after_spec(rs, lsn).len() ==> record_fits(
                #[trigger] records_after_spec(rs, lsn)[i],
            ),
    decreases rs.len(),
{
    if rs.len() > 0 {
        let front = rs.drop_last();
        assert forall|i: int| 0 <= i < front.len() implies record_fits(#[trigger] front[i]) by {
            assert(front[i] == rs[i]);
        }
        lemma_records_after_fit(front, lsn);
        assert(record_fits(rs[rs.len() - 1]));
        let before = records_after_spec(front, lsn);
        assert forall|i: int|
            0 <= i < records_after_spec(rs, lsn).len() implies record_fits(
            #[trigger] records_after_spec(rs, lsn)[i],
        ) by {
            if i < before.len() {
                assert(records_after_spec(rs, lsn)[i] == before[i]);
            } else {
                assert(records_after_spec(rs, lsn)[i] == rs.last());
            }
        }
    }
}

} // verus!
