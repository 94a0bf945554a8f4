use std::collections::BTreeSet;
use vstd::prelude::*;

use super::TransactionId;

verus! {

/// Mathematical model of a snapshot.
pub struct SnapshotView {
    /// Oldest transaction that was active when the snapshot was taken, or
    /// `xmax` when none was.
    pub xmin: TransactionId,
    /// First transaction identifier not yet handed out at snapshot time.
    pub xmax: TransactionId,
    /// Transactions active at snapshot time.
    pub active: Set<TransactionId>,
}

/// Whether a snapshot bounds its active set from below by its `xmin` and is
/// itself bounded by `xmax`; every snapshot handed out by a transaction
/// manager whose identifiers are ordered is.
pub open spec fn snapshot_ordered(s: SnapshotView) -> bool {
    &&& s.xmin <= s.xmax
    &&& forall|t: TransactionId| #[trigger] s.active.contains(t) ==> s.xmin <= t
}

/// The set of transactions that were active when a transaction began; what
/// the transaction may see is judged against it.
#[derive(Debug, Clone, PartialEq, Eq)]
pub struct Snapshot {
    xmin: TransactionId,
    xmax: TransactionId,
    active: BTreeSet<TransactionId>,
}

impl View for Snapshot {
    type V = SnapshotView;

    closed spec fn view(&self) -> SnapshotView {
        SnapshotView { xmin: self.xmin, xmax: self.xmax, active: self.active@ }
    }
}

impl Snapshot {
    pub fn new(xmin: TransactionId, xmax: TransactionId, active: BTreeSet<TransactionId>) -> (s:
        Self)
        ensures
            s@ == (SnapshotView { xmin, xmax, active: active@ }),
    {
        Self { xmin, xmax, active }
    }

    pub fn xmin(&self) -> (x: TransactionId)
        ensures
            x == self@.xmin,
    {
        self.xmin
    }

    pub fn xmax(&self) -> (x: TransactionId)
        ensures
            x == self@.xmax,
    {
        self.xmax
    }

    pub fn active_transactions(&self) -> (active: &BTreeSet<TransactionId>)
        ensures
            active@ == self@.active,
    {
        &self.active
    }

    /// Whether `transaction_id` was active when the snapshot was taken.
    pub fn was_active(&self, transaction_id: TransactionId) -> (b: bool)
        ensures
            b == self@.active.contains(transaction_id),
    {
        self.active.contains(&transaction_id)
    }

    /// Whether `transaction_id` began after the snapshot was taken.
    pub fn started_after_snapshot(&self, transaction_id: TransactionId) -> (b: bool)
        ensures
            b == (transaction_id >= self@.xmax),
    {
        transaction_id >= self.xmax
    }
}

} // verus!
