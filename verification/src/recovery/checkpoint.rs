use std::collections::HashMap;
use vstd::bytes::*;
use vstd::prelude::*;
use vstd::slice::*;
use vstd::std_specs::iter::IteratorSpec;

use crate::transaction::{TransactionId, TransactionState};

use super::log::Lsn;

verus! {

/// Marker at the start of a checkpoint file.
pub const CHECKPOINT_MAGIC: u32 = 0x4350_544b;

/// Format version of checkpoint files.
pub const CHECKPOINT_VERSION: u32 = 2;

/// Bytes of the checkpoint header.
pub const CHECKPOINT_HEADER_SIZE: usize = 32;

/// Bytes of one stored transaction state.
pub const CHECKPOINT_STATE_SIZE: usize = 16;

/// Mathematical model of a checkpoint.
pub struct CheckpointView {
    pub lsn: Lsn,
    pub next: TransactionId,
    pub states: Map<TransactionId, TransactionState>,
}

/// The log position up to which all effects are on disk, with the
/// transaction metadata of that moment.
#[derive(Debug, Clone, PartialEq, Eq)]
pub struct Checkpoint {
    lsn: Lsn,
    next_transaction_id: TransactionId,
    states: HashMap<TransactionId, TransactionState>,
}

impl View for Checkpoint {
    type V = CheckpointView;

    closed spec fn view(&self) -> CheckpointView {
        CheckpointView { lsn: self.lsn, next: self.next_transaction_id, states: self.states@ }
    }
}

impl Checkpoint {
    pub fn new(
        lsn: Lsn,
        next_transaction_id: TransactionId,
        states: HashMap<TransactionId, TransactionState>,
    ) -> (c: Self)
        ensures
            c@ == (CheckpointView { lsn, next: next_transaction_id, states: states@ }),
    {
        Self { lsn, next_transaction_id, states }
    }

    pub fn lsn(&self) -> (l: Lsn)
        ensures
            l == self@.lsn,
    {
        self.lsn
    }

    pub fn next_transaction_id(&self) -> (n: TransactionId)
        ensures
            n == self@.next,
    {
        self.next_transaction_id
    }

    pub fn states(&self) -> (s: &HashMap<TransactionId, TransactionState>)
        ensures
            s@ == self@.states,
    {
        &self.states
    }
}

/// Errors of checkpoint storage.
#[derive(Debug, Clone, PartialEq, Eq)]
pub enum CheckpointError {
    /// Reading or writing the file failed, or it ended early.
    Io(String),
    /// The file is not a checkpoint of this format.
    Corrupt,
}

/// Where a checkpoint is kept.
pub struct CheckpointManager {
    path: String,
}

impl CheckpointManager {
    pub fn new(path: &str) -> (m: Self)
        ensures
            m.spec_path() == path@,
    {
        CheckpointManager { path: path.to_owned() }
    }

    pub closed spec fn spec_path(&self) -> Seq<char> {
        self.path@
    }

    pub fn path(&self) -> (p: &str)
        ensures
            p@ == self.spec_path(),
    {
        self.path.as_str()
    }
}

/// The stored code of a transaction state.
pub open spec fn state_code(s: TransactionState) -> u8 {
    match s {
        TransactionState::Active => 1,
        TransactionState::Committed => 2,
        TransactionState::Aborted => 3,
    }
}

/// The transaction state with stored code `c`, if any.
pub open spec fn state_of_code(c: u8) -> Option<TransactionState> {
    if c == 1 {
        Some(TransactionState::Active)
    } else if c == 2 {
        Some(TransactionState::Committed)
    } else if c == 3 {
        Some(TransactionState::Aborted)
    } else {
        None
    }
}

fn encode_state(state: TransactionState) -> (c: u8)
    ensures
        c == state_code(state),
{
    match state {
        TransactionState::Active => 1,
        TransactionState::Committed => 2,
        TransactionState::Aborted => 3,
    }
}

fn decode_state(value: u8) -> (r: Result<TransactionState, CheckpointError>)
    ensures
        match state_of_code(value) {
            Some(s) => r == Ok::<TransactionState, CheckpointError>(s),
            None => r == Err::<TransactionState, CheckpointError>(CheckpointError::Corrupt),
        },
{
    if value == 1 {
        Ok(TransactionState::Active)
    } else if value == 2 {
        Ok(TransactionState::Committed)
    } else if value == 3 {
        Ok(TransactionState::Aborted)
    } else {
        Err(CheckpointError::Corrupt)
    }
}

/// Whether `s` is in strictly increasing order.
pub open spec fn strictly_increasing(s: Seq<u64>) -> bool {
    forall|i: int, j: int| 0 <= i < j < s.len() ==> s[i] < s[j]
}

/// The checkpoint header: marker, version, LSN, next transaction identifier
/// and number of stored states, little endian.
pub open spec fn checkpoint_header(lsn: Lsn, next: TransactionId, count: u64) -> Seq<u8> {
    spec_u32_to_le_bytes(CHECKPOINT_MAGIC) + spec_u32_to_le_bytes(CHECKPOINT_VERSION)
        + spec_u64_to_le_bytes(lsn) + spec_u64_to_le_bytes(next) + spec_u64_to_le_bytes(count)
}

/// One stored state: the identifier, the state code and seven zero bytes.
pub open spec fn state_entry(id: TransactionId, s: TransactionState) -> Seq<u8> {
    spec_u64_to_le_bytes(id) + seq![state_code(s), 0u8, 0u8, 0u8, 0u8, 0u8, 0u8, 0u8]
}

/// The stored states of the identifiers `ids`, in that order.
pub open spec fn state_entries(ids: Seq<TransactionId>, m: Map<TransactionId, TransactionState>) -> Seq<
    u8,
>
    decreases ids.len(),
{
    if ids.len() == 0 {
        Seq::empty()
    } else {
        state_entries(ids.drop_last(), m) + state_entry(ids.last(), m[ids.last()])
    }
}

/// The bytes of checkpoint `c` with its states stored in the order `ids`.
pub open spec fn checkpoint_bytes(c: CheckpointView, ids: Seq<TransactionId>) -> Seq<u8> {
    checkpoint_header(c.lsn, c.next, ids.len() as u64) + state_entries(ids, c.states)
}

/// Why stored bytes hold no checkpoint.
pub enum CheckpointFault {
    /// The bytes end before the checkpoint does.
    Truncated,
    /// A marker, version or state code is wrong.
    Corrupt,
}

/// Whether the error `e` reports the fault `f`.
pub open spec fn reports(e: CheckpointError, f: CheckpointFault) -> bool {
    match (e, f) {
        (CheckpointError::Io(_), CheckpointFault::Truncated) => true,
        (CheckpointError::Corrupt, CheckpointFault::Corrupt) => true,
        _ => false,
    }
}

/// Reads `count` stored states from position `pos` on into `acc`.
pub open spec fn decode_entries(
    b: Seq<u8>,
    pos: int,
    count: nat,
    acc: Map<TransactionId, TransactionState>,
) -> Result<Map<TransactionId, TransactionState>, CheckpointFault>
    decreases count,
{
    if count == 0 {
        Ok(acc)
    } else if pos < 0 || b.len() - pos < CHECKPOINT_STATE_SIZE {
        Err(CheckpointFault::Truncated)
    } else {
        match state_of_code(b[pos + 8]) {
            None => Err(CheckpointFault::Corrupt),
            Some(s) => decode_entries(
                b,
                pos + CHECKPOINT_STATE_SIZE,
                (count - 1) as nat,
                acc.insert(spec_u64_from_le_bytes(b.subrange(pos, pos + 8)), s),
            ),
        }
    }
}

/// The checkpoint that `b` stores, or why it stores none. Bytes after the
/// last stored state are ignored.
pub open spec fn decode_checkpoint_spec(b: Seq<u8>) -> Result<CheckpointView, CheckpointFault> {
    if b.len() < CHECKPOINT_HEADER_SIZE {
        Err(CheckpointFault::Truncated)
    } else if spec_u32_from_le_bytes(b.subrange(0, 4)) != CHECKPOINT_MAGIC
        || spec_u32_from_le_bytes(b.subrange(4, 8)) != CHECKPOINT_VERSION {
        Err(CheckpointFault::Corrupt)
    } else {
        match decode_entries(
            b,
            CHECKPOINT_HEADER_SIZE as int,
            spec_u64_from_le_bytes(b.subrange(24, 32)) as nat,
            Map::empty(),
        ) {
            Err(f) => Err(f),
            Ok(m) => Ok(
                CheckpointView {
                    lsn: spec_u64_from_le_bytes(b.subrange(8, 16)),
                    next: spec_u64_from_le_bytes(b.subrange(16, 24)),
                    states: m,
                },
            ),
        }
    }
}

fn append_bytes(dst: &mut Vec<u8>, src: &[u8])
    ensures
        final(dst)@ == old(dst)@ + src@,
{
    let ghost before = dst@;
    dst.extend_from_slice(src);
    assert(dst@ =~= before + src@);
}

fn truncated() -> (e: CheckpointError)
    ensures
        e is Io,
        e->Io_0@ == "checkpoint file is truncated"@,
{
    CheckpointError::Io("checkpoint file is truncated".to_owned())
}

/// Reads the checkpoint stored in `bytes`, the contents of a checkpoint file.
pub fn decode_checkpoint(bytes: &[u8]) -> (result: Result<Checkpoint, CheckpointError>)
    ensures
        match (result, decode_checkpoint_spec(bytes@)) {
            (Ok(c), Ok(v)) => c@ == v,
            (Err(e), Err(f)) => reports(e, f),
            _ => false,
        },
{
    if bytes.len() < CHECKPOINT_HEADER_SIZE {
        return Err(truncated());
    }
    let magic = u32_from_le_bytes(slice_subrange(bytes, 0, 4));
    let version = u32_from_le_bytes(slice_subrange(bytes, 4, 8));
    if magic != CHECKPOINT_MAGIC || version != CHECKPOINT_VERSION {
        return Err(CheckpointError::Corrupt);
    }
    let lsn = u64_from_le_bytes(slice_subrange(bytes, 8, 16));
    let next_transaction_id = u64_from_le_bytes(slice_subrange(bytes, 16, 24));
    let count = u64_from_le_bytes(slice_subrange(bytes, 24, 32));
    let mut states: HashMap<TransactionId, TransactionState> = HashMap::new();
    let mut pos: usize = CHECKPOINT_HEADER_SIZE;
    let mut read: u64 = 0;
    while read < count
        invariant
            read <= count,
            count == spec_u64_from_le_bytes(bytes@.subrange(24, 32)),
            lsn == spec_u64_from_le_bytes(bytes@.subrange(8, 16)),
            next_transaction_id == spec_u64_from_le_bytes(bytes@.subrange(16, 24)),
            spec_u32_from_le_bytes(bytes@.subrange(0, 4)) == CHECKPOINT_MAGIC,
            spec_u32_from_le_bytes(bytes@.subrange(4, 8)) == CHECKPOINT_VERSION,
            CHECKPOINT_HEADER_SIZE <= pos <= bytes@.len(),
            decode_entries(bytes@, CHECKPOINT_HEADER_SIZE as int, count as nat, Map::empty())
                == decode_entries(bytes@, pos as int, (count - read) as nat, states@),
        decreases count - read,
    {
        proof {
            reveal_with_fuel(decode_entries, 2);
        }
        if bytes.len() - pos < CHECKPOINT_STATE_SIZE {
            assert(decode_entries(bytes@, pos as int, (count - read) as nat, states@) == Err::<
                Map<TransactionId, TransactionState>,
                CheckpointFault,
            >(CheckpointFault::Truncated));
            return Err(truncated());
        }
        let id = u64_from_le_bytes(slice_subrange(bytes, pos, pos + 8));
        let state = match decode_state(bytes[pos + 8]) {
            Ok(s) => s,
            Err(e) => {
                assert(decode_entries(bytes@, pos as int, (count - read) as nat, states@) == Err::<
                    Map<TransactionId, TransactionState>,
                    CheckpointFault,
                >(CheckpointFault::Corrupt));
                return Err(e);
            },
        };
        states.insert(id, state);
        pos = pos + CHECKPOINT_STATE_SIZE;
        read = read + 1;
    }
    Ok(Checkpoint { lsn, next_transaction_id, states })
}

/// Puts `k` into the increasing sequence `ids`, which does not hold it.
fn insert_sorted(ids: &mut Vec<TransactionId>, k: TransactionId)
    requires
        strictly_increasing(old(ids)@),
        !old(ids)@.contains(k),
    ensures
        strictly_increasing(final(ids)@),
        final(ids)@.to_set() == old(ids)@.to_set().insert(k),
        final(ids)@.len() == old(ids)@.len() + 1,
{
    let mut p: usize = 0;
    while p < ids.len() && ids[p] < k
        invariant
            p <= ids@.len(),
            forall|j: int| 0 <= j < p ==> ids@[j] < k,
        decreases ids@.len() - p,
    {
        p = p + 1;
    }
    let ghost before = ids@;
    ids.insert(p, k);
    proof {
        assert(forall|j: int| p <= j < before.len() ==> before[j] != k) by {
            assert forall|j: int| p <= j < before.len() implies before[j] != k by {
                assert(before.contains(before[j]));
            }
        }
        assert forall|j: int| p <= j < before.len() implies k < before[j] by {
            if j > p {
                assert(before[p as int] < before[j]);
            }
            assert(before[p as int] >= k);
        }
        assert forall|a: int, b: int| 0 <= a < b < ids@.len() implies ids@[a] < ids@[b] by {
            if b < p {
            } else if b == p {
            } else if a < p {
                assert(ids@[b] == before[b - 1]);
            } else if a == p {
                assert(ids@[b] == before[b - 1]);
            } else {
                assert(ids@[a] == before[a - 1]);
                assert(ids@[b] == before[b - 1]);
            }
        }
        assert forall|x: TransactionId| ids@.to_set().contains(x) <==> before.to_set().insert(
            k,
        ).contains(x) by {
            if ids@.contains(x) {
                let j = choose|j: int| 0 <= j < ids@.len() && ids@[j] == x;
                if j < p {
                    assert(before[j] == x);
                } else if j > p {
                    assert(before[j - 1] == x);
                }
            }
            if before.contains(x) {
                let j = choose|j: int| 0 <= j < before.len() && before[j] == x;
                if j < p {
                    assert(ids@[j] == x);
                } else {
                    assert(ids@[j + 1] == x);
                }
            }
            if x == k {
                assert(ids@[p as int] == k);
            }
        }
        assert(ids@.to_set() =~= before.to_set().insert(k));
    }
}

/// The identifiers of `states` in increasing order.
fn sorted_ids(states: &HashMap<TransactionId, TransactionState>) -> (ids: Vec<TransactionId>)
    ensures
        strictly_increasing(ids@),
        ids@.to_set() == states@.dom(),
{
    broadcast use vstd::std_specs::hash::group_hash_axioms;

    let mut ids: Vec<TransactionId> = Vec::new();
    proof {
        assert(ids@.to_set() =~= Set::<TransactionId>::empty());
    }
    for k in it: states.keys()
        invariant
            it.seq().unref().to_set() == states@.dom(),
            it.seq().no_duplicates(),
            strictly_increasing(ids@),
            ids@.to_set() == it.seq().unref().take(it.index()).to_set(),
            it.index() < it.seq().len() || ids@.to_set() == states@.dom(),
    {
        let ghost i = it.index();
        let ghost done = it.seq().unref().take(i);
        proof {
            assert(it.seq().unref()[i] == *k);
            assert(!ids@.contains(*k)) by {
                if ids@.contains(*k) {
                    assert(ids@.to_set().contains(*k));
                    assert(done.contains(*k));
                    let j = choose|j: int| 0 <= j < done.len() && done[j] == *k;
                    assert(it.seq()[j] == it.seq()[i]);
                }
            }
        }
        insert_sorted(&mut ids, *k);
        proof {
            assert(it.seq().unref().take(i + 1) =~= done.push(*k));
            done.lemma_push_to_set_commute(*k);
            assert(it.seq().unref().take(i + 1) =~= it.seq().unref() ==> ids@.to_set()
                =~= states@.dom());
            assert(i + 1 == it.seq().len() ==> it.seq().unref().take(i + 1) =~= it.seq().unref());
        }
    }
    proof {
        if states@.dom().len() == 0 {
            assert(states@.dom() =~= Set::<TransactionId>::empty());
        }
    }
    ids
}

/// The bytes of checkpoint `checkpoint` as stored in a checkpoint file; its
/// transaction states come in increasing order of identifier, so that equal
/// checkpoints give equal files.
pub fn encode_checkpoint(checkpoint: &Checkpoint) -> (bytes: Vec<u8>)
    ensures
        exists|ids: Seq<TransactionId>|
            strictly_increasing(ids) && ids.to_set() == checkpoint@.states.dom() && bytes@
                == checkpoint_bytes(checkpoint@, ids),
{
    let ids = sorted_ids(&checkpoint.states);
    let count: u64 = ids.len() as u64;
    let mut bytes = u32_to_le_bytes(CHECKPOINT_MAGIC);
    append_bytes(&mut bytes, u32_to_le_bytes(CHECKPOINT_VERSION).as_slice());
    append_bytes(&mut bytes, u64_to_le_bytes(checkpoint.lsn).as_slice());
    append_bytes(&mut bytes, u64_to_le_bytes(checkpoint.next_transaction_id).as_slice());
    append_bytes(&mut bytes, u64_to_le_bytes(count).as_slice());
    let ghost header = bytes@;
    let mut i: usize = 0;
    proof {
        assert(ids@.take(0) =~= Seq::<TransactionId>::empty());
        assert(bytes@ =~= header + state_entries(ids@.take(0), checkpoint@.states));
    }
    while i < ids.len()
        invariant
            i <= ids@.len(),
            bytes@ == header + state_entries(ids@.take(i as int), checkpoint@.states),
            ids@.to_set() == checkpoint@.states.dom(),
        decreases ids@.len() - i,
    {
        let id = ids[i];
        proof {
            assert(ids@.to_set().contains(id));
        }
        let state = match checkpoint.states.get(&id) {
            Some(s) => *s,
            None => TransactionState::Aborted,
        };
        append_bytes(&mut bytes, u64_to_le_bytes(id).as_slice());
        let ghost mid = bytes@;
        bytes.push(encode_state(state));
        bytes.push(0);
        bytes.push(0);
        bytes.push(0);
        bytes.push(0);
        bytes.push(0);
        bytes.push(0);
        bytes.push(0);
        proof {
            let t = ids@.take(i + 1);
            assert(t.drop_last() =~= ids@.take(i as int));
            assert(t.last() == id);
            assert(bytes@ =~= header + state_entries(t, checkpoint@.states));
        }
        i = i + 1;
    }
    proof {
        assert(ids@.take(ids@.len() as int) =~= ids@);
        assert(bytes@ == checkpoint_bytes(checkpoint@, ids@));
    }
    bytes
}

/// `acc` with each identifier of `ids`, in order, set to its state in `m`.
pub open spec fn insert_all(
    acc: Map<TransactionId, TransactionState>,
    ids: Seq<TransactionId>,
    m: Map<TransactionId, TransactionState>,
) -> Map<TransactionId, TransactionState>
    decreases ids.len(),
{
    if ids.len() == 0 {
        acc
    } else {
        insert_all(acc.insert(ids[0], m[ids[0]]), ids.drop_first(), m)
    }
}

proof fn lemma_entries_len(ids: Seq<TransactionId>, m: Map<TransactionId, TransactionState>)
    ensures
        state_entries(ids, m).len() == CHECKPOINT_STATE_SIZE * ids.len(),
    decreases ids.len(),
{
    lemma_auto_spec_u64_to_from_le_bytes();
    if ids.len() > 0 {
        lemma_entries_len(ids.drop_last(), m);
    }
}

proof fn lemma_entries_front(ids: Seq<TransactionId>, m: Map<TransactionId, TransactionState>)
    requires
        ids.len() > 0,
    ensures
        state_entries(ids, m) == state_entry(ids[0], m[ids[0]]) + state_entries(
            ids.drop_first(),
            m,
        ),
    decreases ids.len(),
{
    if ids.len() == 1 {
        assert(ids.drop_last() =~= Seq::<TransactionId>::empty());
        assert(ids.drop_first() =~= Seq::<TransactionId>::empty());
        assert(state_entries(ids, m) =~= state_entry(ids[0], m[ids[0]]) + state_entries(
            ids.drop_first(),
            m,
        ));
    } else {
        let front = ids.drop_last();
        lemma_entries_front(front, m);
        assert(front.drop_first() =~= ids.drop_first().drop_last());
        assert(ids.drop_first().last() == ids.last());
        assert(state_entries(ids, m) =~= state_entry(ids[0], m[ids[0]]) + state_entries(
            ids.drop_first(),
            m,
        ));
    }
}

proof fn lemma_decode_entries(
    b: Seq<u8>,
    pos: int,
    ids: Seq<TransactionId>,
    m: Map<TransactionId, TransactionState>,
    acc: Map<TransactionId, TransactionState>,
)
    requires
        0 <= pos,
        pos + CHECKPOINT_STATE_SIZE * ids.len() <= b.len(),
        b.subrange(pos, pos + CHECKPOINT_STATE_SIZE * ids.len()) == state_entries(ids, m),
    ensures
        decode_entries(b, pos, ids.len(), acc) == Ok::<
            Map<TransactionId, TransactionState>,
            CheckpointFault,
        >(insert_all(acc, ids, m)),
    decreases ids.len(),
{
    if ids.len() > 0 {
        lemma_auto_spec_u64_to_from_le_bytes();
        lemma_entries_front(ids, m);
        lemma_entries_len(ids.drop_first(), m);
        let n = ids.len();
        let e = state_entry(ids[0], m[ids[0]]);
        let rest = state_entries(ids.drop_first(), m);
        let sub = b.subrange(pos, pos + CHECKPOINT_STATE_SIZE * n);
        assert(sub == e + rest);
        assert(spec_u64_to_le_bytes(ids[0]).len() == 8);
        assert(e.len() == 16);
        assert(b[pos + 8] == sub[8]);
        assert(sub[8] == e[8]);
        assert(b.subrange(pos, pos + 8) =~= sub.subrange(0, 8));
        assert(sub.subrange(0, 8) =~= e.subrange(0, 8));
        assert(e.subrange(0, 8) =~= spec_u64_to_le_bytes(ids[0]));
        assert(b.subrange(
            pos + CHECKPOINT_STATE_SIZE,
            pos + CHECKPOINT_STATE_SIZE + CHECKPOINT_STATE_SIZE * (n - 1),
        ) =~= sub.subrange(16, 16 * n as int));
        assert(sub.subrange(16, 16 * n as int) =~= rest);
        lemma_decode_entries(
            b,
            pos + CHECKPOINT_STATE_SIZE,
            ids.drop_first(),
            m,
            acc.insert(ids[0], m[ids[0]]),
        );
    }
}

proof fn lemma_insert_all(
    acc: Map<TransactionId, TransactionState>,
    ids: Seq<TransactionId>,
    m: Map<TransactionId, TransactionState>,
)
    ensures
        forall|t: TransactionId| #[trigger]
            insert_all(acc, ids, m).contains_key(t) <==> acc.contains_key(t) || ids.contains(t),
        forall|t: TransactionId| #[trigger]
            insert_all(acc, ids, m).contains_key(t) ==> insert_all(acc, ids, m)[t] == if ids.contains(
                t,
            ) {
                m[t]
            } else {
                acc[t]
            },
    decreases ids.len(),
{
    if ids.len() > 0 {
        let rest = ids.drop_first();
        lemma_insert_all(acc.insert(ids[0], m[ids[0]]), rest, m);
        assert(insert_all(acc, ids, m) == insert_all(acc.insert(ids[0], m[ids[0]]), rest, m));
        assert forall|t: TransactionId| ids.contains(t) <==> t == ids[0] || rest.contains(t) by {
            if ids.contains(t) && t != ids[0] {
                let j = choose|j: int| 0 <= j < ids.len() && ids[j] == t;
                assert(rest[j - 1] == t);
            }
            if rest.contains(t) {
                let j = choose|j: int| 0 <= j < rest.len() && rest[j] == t;
                assert(ids[j + 1] == t);
            }
            if t == ids[0] {
                assert(ids[0] == t);
            }
        }
    }
}

/// Reading back a stored checkpoint gives the same checkpoint, whatever
/// order its transaction states were stored in.
pub proof fn lemma_checkpoint_round_trip(c: CheckpointView, ids: Seq<TransactionId>)
    requires
        ids.to_set() == c.states.dom(),
        ids.len() <= u64::MAX,
    ensures
        decode_checkpoint_spec(checkpoint_bytes(c, ids)) == Ok::<CheckpointView, CheckpointFault>(
            c,
        ),
{
    lemma_auto_spec_u64_to_from_le_bytes();
    lemma_auto_spec_u32_to_from_le_bytes();
    lemma_entries_len(ids, c.states);
    let b = checkpoint_bytes(c, ids);
    assert(b.subrange(0, 4) =~= spec_u32_to_le_bytes(CHECKPOINT_MAGIC));
    assert(b.subrange(4, 8) =~= spec_u32_to_le_bytes(CHECKPOINT_VERSION));
    assert(b.subrange(8, 16) =~= spec_u64_to_le_bytes(c.lsn));
    assert(b.subrange(16, 24) =~= spec_u64_to_le_bytes(c.next));
    assert(b.subrange(24, 32) =~= spec_u64_to_le_bytes(ids.len() as u64));
    assert(b.subrange(32, 32 + CHECKPOINT_STATE_SIZE * ids.len()) =~= state_entries(
        ids,
        c.states,
    ));
    lemma_decode_entries(b, 32, ids, c.states, Map::empty());
    lemma_insert_all(Map::empty(), ids, c.states);
    assert forall|t: TransactionId| ids.contains(t) <==> c.states.contains_key(t) by {
        assert(ids.to_set().contains(t) <==> ids.contains(t));
    }
    assert(insert_all(Map::empty(), ids, c.states) =~= c.states);
}

} // verus!
