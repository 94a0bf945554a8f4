use vstd::prelude::*;

use super::snapshot::{snapshot_ordered, SnapshotView};
use super::visibility::visible_spec;
use super::{Snapshot, TransactionId, TransactionState, transaction_visible};

verus! {

/// Mathematical model of a tuple version.
pub struct TupleView {
    /// Transaction that created the version.
    pub xmin: TransactionId,
    /// Transaction that deleted or replaced the version, if any.
    pub xmax: Option<TransactionId>,
    pub payload: Seq<u8>,
}

/// Whether the state lookup `f` answers as `lookup` does.
pub open spec fn answers<F: Fn(TransactionId) -> Option<TransactionState>>(
    f: F,
    lookup: spec_fn(TransactionId) -> Option<TransactionState>,
) -> bool {
    forall|t: TransactionId, r: Option<TransactionState>|
        #[trigger] call_ensures(f, (t,), r) ==> r == lookup(t)
}

/// Whether the lookup `f` may be called on every transaction.
pub open spec fn callable<F: Fn(TransactionId) -> Option<TransactionState>>(f: F) -> bool {
    forall|t: TransactionId| #[trigger] call_requires(f, (t,))
}

/// Whether `version` is visible to `reader` under `snapshot`, with
/// transaction states given by `lookup`.
///
/// A creator of unknown state counts as aborted. A deletion is ignored when
/// its transaction is unknown or aborted, and hides the version when it is
/// the reader's own or visible to the reader.
pub open spec fn version_visible(
    version: TupleView,
    snapshot: SnapshotView,
    reader: TransactionId,
    lookup: spec_fn(TransactionId) -> Option<TransactionState>,
) -> bool {
    let creator_state = match lookup(version.xmin) {
        Some(s) => s,
        None => TransactionState::Aborted,
    };
    if !visible_spec(version.xmin, creator_state, snapshot, reader) {
        false
    } else {
        match version.xmax {
            None => true,
            Some(deleter) => if deleter == reader {
                false
            } else {
                match lookup(deleter) {
                    None => true,
                    Some(TransactionState::Aborted) => true,
                    Some(s) => !visible_spec(deleter, s, snapshot, reader),
                }
            },
        }
    }
}

/// The transaction, other than `writer`, that holds a write claim on
/// `version`: its deleter, while that deleter is active or committed.
pub open spec fn conflict_spec(
    version: TupleView,
    writer: TransactionId,
    lookup: spec_fn(TransactionId) -> Option<TransactionState>,
) -> Option<TransactionId> {
    match version.xmax {
        None => None,
        Some(owner) => if owner != writer && (lookup(owner) == Some(TransactionState::Active)
            || lookup(owner) == Some(TransactionState::Committed)) {
            Some(owner)
        } else {
            None
        },
    }
}

/// Whether no snapshot taken at or after `horizon` can see `version`:
/// its creator aborted or is unknown, or its deleter committed before
/// `horizon`.
pub open spec fn reclaimable_spec(
    version: TupleView,
    horizon: TransactionId,
    lookup: spec_fn(TransactionId) -> Option<TransactionState>,
) -> bool {
    ||| lookup(version.xmin) == Some(TransactionState::Aborted)
    ||| lookup(version.xmin) is None
    ||| match version.xmax {
        Some(deleter) => lookup(deleter) == Some(TransactionState::Committed) && deleter < horizon,
        None => false,
    }
}

/// One version of a tuple, stamped with the transactions that created and
/// deleted it.
#[derive(Debug, Clone, PartialEq, Eq)]
pub struct TupleVersion {
    xmin: TransactionId,
    xmax: Option<TransactionId>,
    payload: Vec<u8>,
}

impl View for TupleVersion {
    type V = TupleView;

    closed spec fn view(&self) -> TupleView {
        TupleView { xmin: self.xmin, xmax: self.xmax, payload: self.payload@ }
    }
}

impl TupleVersion {
    /// A live version created by `xmin`.
    pub fn new(xmin: TransactionId, payload: Vec<u8>) -> (v: Self)
        ensures
            v@ == (TupleView { xmin, xmax: None, payload: payload@ }),
    {
        Self { xmin, xmax: None, payload }
    }

    /// A version with every field given.
    pub fn from_parts(xmin: TransactionId, xmax: Option<TransactionId>, payload: Vec<u8>) -> (v:
        Self)
        ensures
            v@ == (TupleView { xmin, xmax, payload: payload@ }),
    {
        Self { xmin, xmax, payload }
    }

    /// An equal copy of this version.
    pub fn duplicate(&self) -> (v: Self)
        ensures
            v@ == self@,
    {
        let payload = self.payload.clone();
        assert(payload@ =~= self.payload@);
        Self { xmin: self.xmin, xmax: self.xmax, payload }
    }

    pub fn xmin(&self) -> (x: TransactionId)
        ensures
            x == self@.xmin,
    {
        self.xmin
    }

    pub fn xmax(&self) -> (x: Option<TransactionId>)
        ensures
            x == self@.xmax,
    {
        self.xmax
    }

    pub fn payload(&self) -> (p: &[u8])
        ensures
            p@ == self@.payload,
    {
        self.payload.as_slice()
    }

    /// Records `transaction_id` as the deleter of this version.
    pub fn mark_deleted(&mut self, transaction_id: TransactionId)
        ensures
            final(self)@ == (TupleView { xmax: Some(transaction_id), ..old(self)@ }),
    {
        self.xmax = Some(transaction_id);
    }

    /// Whether this version is visible to `reader` under `snapshot`, asking
    /// `state_of` for the states of its creator and deleter.
    ///
    /// The result is exact for a lookup that answers each transaction
    /// consistently; `state_of` is called at most once per transaction.
    pub fn visible_to<F: Fn(TransactionId) -> Option<TransactionState>>(
        &self,
        snapshot: &Snapshot,
        reader: TransactionId,
        state_of: F,
    ) -> (visible: bool)
        requires
            callable(state_of),
        ensures
            forall|lookup: spec_fn(TransactionId) -> Option<TransactionState>|
                answers(state_of, lookup) ==> visible == version_visible(
                    self@,
                    snapshot@,
                    reader,
                    lookup,
                ),
            self@.xmax == Some(reader) ==> !visible,
    {
        let creator = state_of(self.xmin);
        let creator_state = match creator {
            Some(s) => s,
            None => TransactionState::Aborted,
        };
        if !transaction_visible(self.xmin, creator_state, snapshot, reader) {
            return false;
        }
        let deleter = match self.xmax {
            None => {
                return true;
            },
            Some(d) => d,
        };
        if deleter == reader {
            return false;
        }
        let deleter_state = state_of(deleter);
        match deleter_state {
            None => true,
            Some(TransactionState::Aborted) => true,
            Some(s) => !transaction_visible(deleter, s, snapshot, reader),
        }
    }

    /// The transaction other than `writer` that holds a write claim on this
    /// version, if any; a write by `writer` conflicts with it.
    pub fn conflicting_writer<F: Fn(TransactionId) -> Option<TransactionState>>(
        &self,
        writer: TransactionId,
        state_of: F,
    ) -> (owner: Option<TransactionId>)
        requires
            callable(state_of),
        ensures
            forall|lookup: spec_fn(TransactionId) -> Option<TransactionState>|
                answers(state_of, lookup) ==> owner == conflict_spec(self@, writer, lookup),
    {
        match self.xmax {
            None => None,
            Some(owner) => {
                if owner == writer {
                    return None;
                }
                match state_of(owner) {
                    Some(TransactionState::Active) => Some(owner),
                    Some(TransactionState::Committed) => Some(owner),
                    _ => None,
                }
            },
        }
    }

    /// Whether no transaction whose snapshot is bounded below by `horizon`
    /// can see this version, so that its storage may be reclaimed.
    pub fn is_reclaimable<F: Fn(TransactionId) -> Option<TransactionState>>(
        &self,
        horizon: TransactionId,
        state_of: F,
    ) -> (reclaimable: bool)
        requires
            callable(state_of),
        ensures
            forall|lookup: spec_fn(TransactionId) -> Option<TransactionState>|
                answers(state_of, lookup) ==> reclaimable == reclaimable_spec(
                    self@,
                    horizon,
                    lookup,
                ),
            forall|lookup: spec_fn(TransactionId) -> Option<TransactionState>|
                answers(state_of, lookup) ==> (self@.xmax matches Some(deleter) && lookup(deleter)
                    == Some(TransactionState::Committed) && deleter < horizon ==> reclaimable),
    {
        match state_of(self.xmin) {
            None => {
                return true;
            },
            Some(TransactionState::Aborted) => {
                return true;
            },
            _ => {},
        }
        match self.xmax {
            None => false,
            Some(deleter) => {
                if deleter >= horizon {
                    return false;
                }
                match state_of(deleter) {
                    Some(TransactionState::Committed) => true,
                    _ => false,
                }
            },
        }
    }
}

/// A version that may be reclaimed below `horizon` is invisible to every
/// reader whose snapshot is bounded below by `horizon`: vacuum never removes
/// a version that an active snapshot can still see.
pub proof fn lemma_reclaimable_invisible(
    version: TupleView,
    snapshot: SnapshotView,
    reader: TransactionId,
    horizon: TransactionId,
    lookup: spec_fn(TransactionId) -> Option<TransactionState>,
)
    requires
        snapshot_ordered(snapshot),
        horizon <= snapshot.xmin,
        reclaimable_spec(version, horizon, lookup),
    ensures
        !version_visible(version, snapshot, reader, lookup),
{
    if let Some(deleter) = version.xmax {
        if lookup(deleter) == Some(TransactionState::Committed) && deleter < horizon {
            assert(!snapshot.active.contains(deleter));
        }
    }
}

/// A transaction never sees a version it deleted or replaced itself, whatever
/// its snapshot and whatever state the lookup gives.
pub proof fn lemma_own_delete_invisible(
    version: TupleView,
    snapshot: SnapshotView,
    reader: TransactionId,
    lookup: spec_fn(TransactionId) -> Option<TransactionState>,
)
    requires
        version.xmax == Some(reader),
    ensures
        !version_visible(version, snapshot, reader, lookup),
{
}

/// A transaction sees a live version it created itself while it has not
/// aborted.
pub proof fn lemma_own_insert_visible(
    version: TupleView,
    snapshot: SnapshotView,
    reader: TransactionId,
    lookup: spec_fn(TransactionId) -> Option<TransactionState>,
)
    requires
        version.xmin == reader,
        version.xmax is None,
        lookup(reader) == Some(TransactionState::Active) || lookup(reader) == Some(
            TransactionState::Committed,
        ),
    ensures
        version_visible(version, snapshot, reader, lookup),
{
}

/// A live version created by another transaction is visible exactly when
/// that transaction committed, began before the snapshot and was not active
/// when the snapshot was taken.
pub proof fn lemma_other_insert_visibility(
    version: TupleView,
    snapshot: SnapshotView,
    reader: TransactionId,
    lookup: spec_fn(TransactionId) -> Option<TransactionState>,
)
    requires
        version.xmin != reader,
        version.xmax is None,
    ensures
        version_visible(version, snapshot, reader, lookup) <==> (lookup(version.xmin) == Some(
            TransactionState::Committed,
        ) && version.xmin < snapshot.xmax && !snapshot.active.contains(version.xmin)),
{
}

/// A version whose creator is visible stays visible when its deleter aborted
/// or is another transaction that the snapshot does not see, and is hidden
/// when its deleter is another transaction that committed before the
/// snapshot.
pub proof fn lemma_deleter_visibility(
    version: TupleView,
    snapshot: SnapshotView,
    reader: TransactionId,
    lookup: spec_fn(TransactionId) -> Option<TransactionState>,
    deleter: TransactionId,
)
    requires
        version.xmax == Some(deleter),
        deleter != reader,
        version_visible(TupleView { xmax: None, ..version }, snapshot, reader, lookup),
    ensures
        lookup(deleter) == Some(TransactionState::Aborted) ==> version_visible(
            version,
            snapshot,
            reader,
            lookup,
        ),
        (lookup(deleter) == Some(TransactionState::Active) || snapshot.active.contains(deleter)
            || deleter >= snapshot.xmax) ==> version_visible(version, snapshot, reader, lookup),
        (lookup(deleter) == Some(TransactionState::Committed) && deleter < snapshot.xmax
            && !snapshot.active.contains(deleter)) ==> !version_visible(
            version,
            snapshot,
            reader,
            lookup,
        ),
{
}

/// A version whose deletion committed below the horizon is reclaimable,
/// whatever its creator.
pub proof fn lemma_committed_delete_reclaimable(
    version: TupleView,
    horizon: TransactionId,
    lookup: spec_fn(TransactionId) -> Option<TransactionState>,
    deleter: TransactionId,
)
    requires
        version.xmax == Some(deleter),
        lookup(deleter) == Some(TransactionState::Committed),
        deleter < horizon,
    ensures
        reclaimable_spec(version, horizon, lookup),
{
}

/// A version whose creator aborted, or is unknown, is reclaimable.
pub proof fn lemma_aborted_insert_reclaimable(
    version: TupleView,
    horizon: TransactionId,
    lookup: spec_fn(TransactionId) -> Option<TransactionState>,
)
    requires
        lookup(version.xmin) is None || lookup(version.xmin) == Some(TransactionState::Aborted),
    ensures
        reclaimable_spec(version, horizon, lookup),
{
}

/// A version whose creator is active or committed is kept while it has no
/// deleter, or its deleter has not committed, or committed at or above the
/// horizon.
pub proof fn lemma_live_version_kept(
    version: TupleView,
    horizon: TransactionId,
    lookup: spec_fn(TransactionId) -> Option<TransactionState>,
)
    requires
        lookup(version.xmin) == Some(TransactionState::Active) || lookup(version.xmin) == Some(
            TransactionState::Committed,
        ),
        match version.xmax {
            None => true,
            Some(d) => lookup(d) != Some(TransactionState::Committed) || d >= horizon,
        },
    ensures
        !reclaimable_spec(version, horizon, lookup),
{
}

} // verus!
