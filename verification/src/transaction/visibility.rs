use vstd::prelude::*;

use super::snapshot::SnapshotView;
use super::{Snapshot, TransactionId, TransactionState};

verus! {

/// Whether the effects of `creator`, in state `creator_state`, are visible to
/// `reader` reading under `snapshot`.
///
/// A reader sees its own effects unless it aborted, and another transaction's
/// effects only when that transaction committed, began before the snapshot
/// and was not active when the snapshot was taken.
pub open spec fn visible_spec(
    creator: TransactionId,
    creator_state: TransactionState,
    snapshot: SnapshotView,
    reader: TransactionId,
) -> bool {
    if creator == reader {
        creator_state != TransactionState::Aborted
    } else {
        &&& creator_state == TransactionState::Committed
        &&& creator < snapshot.xmax
        &&& !snapshot.active.contains(creator)
    }
}

pub fn transaction_visible(
    creator: TransactionId,
    creator_state: TransactionState,
    snapshot: &Snapshot,
    reader: TransactionId,
) -> (visible: bool)
    ensures
        visible == visible_spec(creator, creator_state, snapshot@, reader),
{
    if creator == reader {
        return creator_state != TransactionState::Aborted;
    }
    if creator_state != TransactionState::Committed {
        return false;
    }
    if snapshot.started_after_snapshot(creator) {
        return false;
    }
    if snapshot.was_active(creator) {
        return false;
    }
    true
}

/// A transaction never sees the effects of another transaction that has not
/// committed.
pub proof fn lemma_uncommitted_invisible(
    creator: TransactionId,
    creator_state: TransactionState,
    snapshot: SnapshotView,
    reader: TransactionId,
)
    requires
        creator != reader,
        creator_state != TransactionState::Committed,
    ensures
        !visible_spec(creator, creator_state, snapshot, reader),
{
}

/// A transaction that was active when a snapshot was taken stays invisible to
/// that snapshot, whatever state it reaches later.
pub proof fn lemma_snapshot_stable(
    creator: TransactionId,
    creator_state: TransactionState,
    snapshot: SnapshotView,
    reader: TransactionId,
)
    requires
        creator != reader,
        snapshot.active.contains(creator),
    ensures
        !visible_spec(creator, creator_state, snapshot, reader),
{
}

/// A transaction that began after a snapshot was taken stays invisible to it.
pub proof fn lemma_later_transaction_invisible(
    creator: TransactionId,
    creator_state: TransactionState,
    snapshot: SnapshotView,
    reader: TransactionId,
)
    requires
        creator != reader,
        creator >= snapshot.xmax,
    ensures
        !visible_spec(creator, creator_state, snapshot, reader),
{
}

} // verus!
