use std::collections::HashMap;
use vstd::prelude::*;
use vstd::std_specs::iter::IteratorSpec;

use crate::transaction::{TransactionId, TransactionState};

use super::checkpoint::Checkpoint;
use super::log::{
    records_after, records_after_spec, transaction_of, LogRecord, LogRecordType, LogRecordView,
};
use super::txn_log::TransactionLogKind;

verus! {

/// The state a transaction record of kind `k` leaves its transaction in.
pub open spec fn state_after(k: TransactionLogKind) -> TransactionState {
    match k {
        TransactionLogKind::Begin => TransactionState::Active,
        TransactionLogKind::Commit => TransactionState::Committed,
        TransactionLogKind::Abort => TransactionState::Aborted,
    }
}

/// Whether every transaction record of `rs` names an identifier below the
/// largest one, so that the identifier after it exists.
pub open spec fn transaction_ids_bounded(rs: Seq<LogRecordView>) -> bool {
    forall|i: int|
        0 <= i < rs.len() ==> match #[trigger] transaction_of(rs[i]) {
            Some(t) => t.transaction_id < u64::MAX,
            None => true,
        }
}

/// Transaction states and next identifier after replaying the transaction
/// records of `rs` in order, starting from `states` and `next`.
pub open spec fn replay_transactions(
    states: Map<TransactionId, TransactionState>,
    next: TransactionId,
    rs: Seq<LogRecordView>,
) -> (Map<TransactionId, TransactionState>, TransactionId)
    decreases rs.len(),
{
    if rs.len() == 0 {
        (states, next)
    } else {
        let (s, n) = replay_transactions(states, next, rs.drop_last());
        match transaction_of(rs.last()) {
            None => (s, n),
            Some(t) => (
                s.insert(t.transaction_id, state_after(t.kind)),
                if n > t.transaction_id + 1 {
                    n
                } else {
                    (t.transaction_id + 1) as u64
                },
            ),
        }
    }
}

/// `states` with every active transaction turned aborted.
pub open spec fn abort_active(states: Map<TransactionId, TransactionState>) -> Map<
    TransactionId,
    TransactionState,
> {
    Map::new(
        |t: TransactionId| states.contains_key(t),
        |t: TransactionId|
            if states[t] == TransactionState::Active {
                TransactionState::Aborted
            } else {
                states[t]
            },
    )
}

/// Mathematical model of recovered transaction metadata.
pub struct RecoveredView {
    pub states: Map<TransactionId, TransactionState>,
    pub next: TransactionId,
}

/// Transaction states and the next identifier, as rebuilt from the log.
#[derive(Debug, Clone, PartialEq, Eq)]
pub struct RecoveredTransactions {
    states: HashMap<TransactionId, TransactionState>,
    next_transaction_id: TransactionId,
}

impl View for RecoveredTransactions {
    type V = RecoveredView;

    closed spec fn view(&self) -> RecoveredView {
        RecoveredView { states: self.states@, next: self.next_transaction_id }
    }
}

impl RecoveredTransactions {
    pub fn state(&self, transaction_id: TransactionId) -> (s: Option<TransactionState>)
        ensures
            s == (if self@.states.contains_key(transaction_id) {
                Some(self@.states[transaction_id])
            } else {
                None
            }),
    {
        match self.states.get(&transaction_id) {
            Some(s) => Some(*s),
            None => None,
        }
    }

    pub fn states(&self) -> (s: &HashMap<TransactionId, TransactionState>)
        ensures
            s@ == self@.states,
    {
        &self.states
    }

    pub fn next_transaction_id(&self) -> (n: TransactionId)
        ensures
            n == self@.next,
    {
        self.next_transaction_id
    }
}

/// `states` with every active transaction turned aborted.
fn abort_active_transactions(states: HashMap<TransactionId, TransactionState>) -> (r: HashMap<
    TransactionId,
    TransactionState,
>)
    ensures
        r@ == abort_active(states@),
{
    broadcast use vstd::std_specs::hash::group_hash_axioms;

    let mut r: HashMap<TransactionId, TransactionState> = HashMap::new();
    for k in it: states.keys()
        invariant
            it.seq().unref().to_set() == states@.dom(),
            forall|t: TransactionId| #[trigger]
                r@.contains_key(t) <==> exists|j: int| 0 <= j < it.index() && *it.seq()[j] == t,
            forall|t: TransactionId| #[trigger]
                r@.contains_key(t) ==> states@.contains_key(t) && r@[t] == abort_active(
                    states@,
                )[t],
            it.index() < it.seq().len() || r@.dom() == states@.dom(),
    {
        let ghost i = it.index();
        proof {
            assert(it.seq().unref()[i] == *k);
            assert(states@.dom().contains(*k));
        }
        let s = match states.get(k) {
            Some(v) => *v,
            None => TransactionState::Aborted,
        };
        if s == TransactionState::Active {
            r.insert(*k, TransactionState::Aborted);
        } else {
            r.insert(*k, s);
        }
        proof {
            assert forall|t: TransactionId| #[trigger] r@.contains_key(t) <==> exists|j: int|
                0 <= j < i + 1 && *it.seq()[j] == t by {
                if exists|j: int| 0 <= j < i + 1 && *it.seq()[j] == t {
                    let j = choose|j: int| 0 <= j < i + 1 && *it.seq()[j] == t;
                    if j < i {
                        assert(exists|j: int| 0 <= j < i && *it.seq()[j] == t);
                    }
                }
                if r@.contains_key(t) && t != *k {
                    let j = choose|j: int| 0 <= j < i && *it.seq()[j] == t;
                    assert(0 <= j < i + 1);
                }
            }
            assert forall|t: TransactionId|
                i + 1 == it.seq().len() && #[trigger] states@.contains_key(t) implies r@.contains_key(
                t,
            ) by {
                let ks = it.seq().unref();
                assert(ks.to_set().contains(t));
                let j = choose|j: int| 0 <= j < ks.len() && ks[j] == t;
                assert(*it.seq()[j] == t);
            }
            assert(i + 1 == it.seq().len() ==> r@.dom() =~= states@.dom());
        }
    }
    proof {
        if states@.dom().len() == 0 {
            assert(states@.dom() =~= Set::<TransactionId>::empty());
            assert(r@.dom() =~= states@.dom());
        }
        assert(r@ =~= abort_active(states@));
    }
    r
}

/// Rebuilds transaction metadata from `states` and `next_transaction_id` and
/// the log records that follow them: each begin, commit or abort record
/// sets its transaction's state and lifts the next identifier above it;
/// transactions still active at the end were cut off by a crash and count
/// as aborted.
pub fn recover_from_records(
    states: HashMap<TransactionId, TransactionState>,
    next_transaction_id: TransactionId,
    records: &[LogRecord],
) -> (recovered: RecoveredTransactions)
    requires
        transaction_ids_bounded(records@.map_values(|r: LogRecord| r@)),
    ensures
        ({
            let (s, n) = replay_transactions(
                states@,
                next_transaction_id,
                records@.map_values(|r: LogRecord| r@),
            );
            recovered@ == RecoveredView { states: abort_active(s), next: n }
        }),
{
    let ghost all = records@.map_values(|r: LogRecord| r@);
    let mut states = states;
    let ghost initial = states@;
    let mut next = next_transaction_id;
    let mut i: usize = 0;
    proof {
        assert(all.take(0) =~= Seq::<LogRecordView>::empty());
    }
    while i < records.len()
        invariant
            i <= records@.len(),
            all == records@.map_values(|r: LogRecord| r@),
            transaction_ids_bounded(all),
            (states@, next) == replay_transactions(initial, next_transaction_id, all.take(i as int)),
        decreases records@.len() - i,
    {
        proof {
            assert(all.take(i + 1).drop_last() =~= all.take(i as int));
            assert(all.take(i + 1).last() == all[i as int]);
            assert(all[i as int] == records@[i as int]@);
        }
        match records[i].as_transaction() {
            None => {},
            Some(t) => {
                proof {
                    assert(match transaction_of(all[i as int]) {
                        Some(t) => t.transaction_id < u64::MAX,
                        None => true,
                    });
                }
                let following = t.transaction_id + 1;
                if following > next {
                    next = following;
                }
                let state = match t.kind {
                    TransactionLogKind::Begin => TransactionState::Active,
                    TransactionLogKind::Commit => TransactionState::Committed,
                    TransactionLogKind::Abort => TransactionState::Aborted,
                };
                states.insert(t.transaction_id, state);
            },
        }
        i = i + 1;
    }
    proof {
        assert(all.take(records@.len() as int) =~= all);
    }
    let states = abort_active_transactions(states);
    RecoveredTransactions { states, next_transaction_id: next }
}

/// Transaction metadata rebuilt from the whole log, starting from no
/// transactions and identifier 1.
pub fn recover_transactions(records: &[LogRecord]) -> (recovered: RecoveredTransactions)
    requires
        transaction_ids_bounded(records@.map_values(|r: LogRecord| r@)),
    ensures
        ({
            let (s, n) = replay_transactions(
                Map::empty(),
                1,
                records@.map_values(|r: LogRecord| r@),
            );
            recovered@ == RecoveredView { states: abort_active(s), next: n }
        }),
{
    recover_from_records(HashMap::new(), 1, records)
}

/// Transaction metadata rebuilt from a checkpoint and the log records that
/// came after it.
pub fn recover_transactions_after_checkpoint(
    checkpoint: &Checkpoint,
    records: &[LogRecord],
) -> (recovered: RecoveredTransactions)
    requires
        transaction_ids_bounded(
            records_after_spec(records@.map_values(|r: LogRecord| r@), checkpoint@.lsn),
        ),
    ensures
        ({
            let (s, n) = replay_transactions(
                checkpoint@.states,
                checkpoint@.next,
                records_after_spec(records@.map_values(|r: LogRecord| r@), checkpoint@.lsn),
            );
            recovered@ == RecoveredView { states: abort_active(s), next: n }
        }),
{
    let after = records_after(records, checkpoint.lsn());
    recover_from_records(checkpoint.states().clone(), checkpoint.next_transaction_id(), after.as_slice())
}

/// Recovery leaves no transaction active: whatever was still running when
/// the log ends counts as aborted.
pub proof fn lemma_recovery_leaves_none_active(
    states: Map<TransactionId, TransactionState>,
    next: TransactionId,
    rs: Seq<LogRecordView>,
)
    ensures
        ({
            let recovered = abort_active(replay_transactions(states, next, rs).0);
            forall|t: TransactionId| #[trigger]
                recovered.contains_key(t) ==> recovered[t] != TransactionState::Active
        }),
{
}

/// After recovery the next identifier lies above every transaction named in
/// the log and never goes below the starting one, so identifiers keep
/// increasing across restarts.
pub proof fn lemma_recovered_next_above_log(
    states: Map<TransactionId, TransactionState>,
    next: TransactionId,
    rs: Seq<LogRecordView>,
)
    requires
        transaction_ids_bounded(rs),
    ensures
        replay_transactions(states, next, rs).1 >= next,
        forall|i: int|
            0 <= i < rs.len() ==> match #[trigger] transaction_of(rs[i]) {
                Some(t) => t.transaction_id < replay_transactions(states, next, rs).1,
                None => true,
            },
    decreases rs.len(),
{
    if rs.len() > 0 {
        let front = rs.drop_last();
        assert forall|i: int| 0 <= i < front.len() implies match #[trigger] transaction_of(
            front[i],
        ) {
            Some(t) => t.transaction_id < u64::MAX,
            None => true,
        } by {
            assert(front[i] == rs[i]);
        }
        lemma_recovered_next_above_log(states, next, front);
        assert forall|i: int| 0 <= i < rs.len() implies match #[trigger] transaction_of(rs[i]) {
            Some(t) => t.transaction_id < replay_transactions(states, next, rs).1,
            None => true,
        } by {
            if i < rs.len() - 1 {
                assert(rs[i] == front[i]);
            }
        }
    }
}

/// Whether `r` is a begin, commit or abort record of transaction `t`.
pub open spec fn names_transaction(r: LogRecordView, t: TransactionId) -> bool {
    r.record_type != LogRecordType::PageWrite && r.page_id == t
}

/// The last record of a transaction decides its recovered state: after a
/// commit record it is committed, after an abort record aborted, and after a
/// begin record (a transaction cut off by the crash) aborted too.
pub proof fn lemma_last_record_decides(
    states: Map<TransactionId, TransactionState>,
    next: TransactionId,
    rs: Seq<LogRecordView>,
    i: int,
    t: TransactionId,
)
    requires
        0 <= i < rs.len(),
        names_transaction(rs[i], t),
        forall|j: int| i < j < rs.len() ==> !names_transaction(#[trigger] rs[j], t),
    ensures
        ({
            let recovered = abort_active(replay_transactions(states, next, rs).0);
            &&& recovered.contains_key(t)
            &&& recovered[t] == if rs[i].record_type == LogRecordType::TransactionCommit {
                TransactionState::Committed
            } else {
                TransactionState::Aborted
            }
        }),
{
    lemma_last_record_replayed(states, next, rs, i, t);
}

/// Replaying the log leaves each transaction in the state its last record
/// gives: active after a begin, committed after a commit, aborted after an
/// abort.
pub proof fn lemma_last_record_replayed(
    states: Map<TransactionId, TransactionState>,
    next: TransactionId,
    rs: Seq<LogRecordView>,
    i: int,
    t: TransactionId,
)
    requires
        0 <= i < rs.len(),
        names_transaction(rs[i], t),
        forall|j: int| i < j < rs.len() ==> !names_transaction(#[trigger] rs[j], t),
    ensures
        ({
            let s = replay_transactions(states, next, rs).0;
            &&& s.contains_key(t)
            &&& s[t] == match rs[i].record_type {
                LogRecordType::TransactionBegin => TransactionState::Active,
                LogRecordType::TransactionCommit => TransactionState::Committed,
                _ => TransactionState::Aborted,
            }
        }),
    decreases rs.len(),
{
    if i < rs.len() - 1 {
        let front = rs.drop_last();
        assert(front[i] == rs[i]);
        assert forall|j: int| i < j < front.len() implies !names_transaction(#[trigger] front[j], t) by {
            assert(front[j] == rs[j]);
            assert(!names_transaction(rs[j], t));
        }
        lemma_last_record_replayed(states, next, front, i, t);
        assert(!names_transaction(rs[rs.len() - 1], t));
    }
}

} // verus!
