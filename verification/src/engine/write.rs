use vstd::prelude::*;

use crate::transaction::version::{answers, callable, conflict_spec, version_visible, TupleView};
use crate::transaction::{Transaction, TransactionId, TransactionState, TupleVersion};

verus! {

/// Why a transaction may not update or delete a version.
#[derive(Debug, Clone, Copy, PartialEq, Eq, Structural)]
pub enum WriteRejection {
    /// Another transaction, active or committed, already deleted or replaced
    /// the version.
    Conflict(TransactionId),
    /// The version is not visible to the writing transaction.
    NotVisible,
}

/// Whether a transaction in state `state` may read and write: it must be
/// known and active.
pub fn ensure_active(state: Option<TransactionState>) -> (ok: bool)
    ensures
        ok == (state == Some(TransactionState::Active)),
{
    match state {
        Some(TransactionState::Active) => true,
        _ => false,
    }
}

/// Whether no transaction other than `writer` holds a write claim on
/// `version`: it has no deleter, or its deleter is `writer`, or its deleter
/// is neither active nor committed.
pub open spec fn unclaimed(
    version: TupleView,
    writer: TransactionId,
    lookup: spec_fn(TransactionId) -> Option<TransactionState>,
) -> bool {
    match version.xmax {
        None => true,
        Some(d) => d == writer || (lookup(d) != Some(TransactionState::Active) && lookup(d)
            != Some(TransactionState::Committed)),
    }
}

/// What a write by `writer`, reading under `snapshot`, to `version` is refused
/// for, if anything: first a conflicting claim by another transaction, then
/// invisibility.
pub open spec fn write_check(
    version: TupleView,
    snapshot: crate::transaction::snapshot::SnapshotView,
    writer: TransactionId,
    lookup: spec_fn(TransactionId) -> Option<TransactionState>,
) -> Option<WriteRejection> {
    match conflict_spec(version, writer, lookup) {
        Some(owner) => Some(WriteRejection::Conflict(owner)),
        None => if !version_visible(version, snapshot, writer, lookup) {
            Some(WriteRejection::NotVisible)
        } else {
            None
        },
    }
}

/// The version `version` stamped as deleted by `transaction`, or why
/// `transaction` may not delete it.
pub fn plan_delete<F: Fn(TransactionId) -> Option<TransactionState> + Copy>(
    version: &TupleVersion,
    transaction: &Transaction,
    state_of: F,
) -> (result: Result<TupleVersion, WriteRejection>)
    requires
        callable(state_of),
    ensures
        forall|lookup: spec_fn(TransactionId) -> Option<TransactionState>|
            answers(state_of, lookup) ==> match write_check(
                version@,
                transaction.spec_snapshot(),
                transaction.spec_id(),
                lookup,
            ) {
                Some(r) => result == Err::<TupleVersion, WriteRejection>(r),
                None => result matches Ok(deleted) && deleted@ == (TupleView {
                    xmax: Some(transaction.spec_id()),
                    ..version@
                }),
            },
        forall|lookup: spec_fn(TransactionId) -> Option<TransactionState>|
            answers(state_of, lookup) && unclaimed(version@, transaction.spec_id(), lookup)
                && !version_visible(version@, transaction.spec_snapshot(), transaction.spec_id(), lookup)
                ==> result == Err::<TupleVersion, WriteRejection>(WriteRejection::NotVisible),
{
    let writer = transaction.id();
    match version.conflicting_writer(writer, state_of) {
        Some(owner) => {
            return Err(WriteRejection::Conflict(owner));
        },
        None => {},
    }
    if !version.visible_to(transaction.snapshot(), writer, state_of) {
        return Err(WriteRejection::NotVisible);
    }
    let mut deleted = version.duplicate();
    deleted.mark_deleted(writer);
    Ok(deleted)
}

/// For an update of `version` to `payload` by `transaction`: the old version
/// stamped as replaced and the new version, or why `transaction` may not
/// update it.
pub fn plan_update<F: Fn(TransactionId) -> Option<TransactionState> + Copy>(
    version: &TupleVersion,
    transaction: &Transaction,
    payload: Vec<u8>,
    state_of: F,
) -> (result: Result<(TupleVersion, TupleVersion), WriteRejection>)
    requires
        callable(state_of),
    ensures
        forall|lookup: spec_fn(TransactionId) -> Option<TransactionState>|
            answers(state_of, lookup) ==> match write_check(
                version@,
                transaction.spec_snapshot(),
                transaction.spec_id(),
                lookup,
            ) {
                Some(r) => result == Err::<(TupleVersion, TupleVersion), WriteRejection>(r),
                None => result matches Ok((replaced, created)) && replaced@ == (TupleView {
                    xmax: Some(transaction.spec_id()),
                    ..version@
                }) && created@ == (TupleView {
                    xmin: transaction.spec_id(),
                    xmax: None,
                    payload: payload@,
                }),
            },
        forall|lookup: spec_fn(TransactionId) -> Option<TransactionState>|
            answers(state_of, lookup) && unclaimed(version@, transaction.spec_id(), lookup)
                && !version_visible(version@, transaction.spec_snapshot(), transaction.spec_id(), lookup)
                ==> result == Err::<(TupleVersion, TupleVersion), WriteRejection>(
                WriteRejection::NotVisible,
            ),
{
    let replaced = match plan_delete(version, transaction, state_of) {
        Ok(v) => v,
        Err(r) => {
            return Err(r);
        },
    };
    let created = TupleVersion::new(transaction.id(), payload);
    Ok((replaced, created))
}

/// A write claim excludes other writers: once `writer` stamped a version
/// as deleted or replaced, every other transaction's write to it is refused
/// with a conflict naming `writer`, while `writer` is active or committed.
pub proof fn lemma_write_claim_excludes(
    version: TupleView,
    writer: TransactionId,
    other: TransactionId,
    snapshot: crate::transaction::snapshot::SnapshotView,
    lookup: spec_fn(TransactionId) -> Option<TransactionState>,
)
    requires
        other != writer,
        lookup(writer) == Some(TransactionState::Active) || lookup(writer) == Some(
            TransactionState::Committed,
        ),
    ensures
        write_check(TupleView { xmax: Some(writer), ..version }, snapshot, other, lookup) == Some(
            WriteRejection::Conflict(writer),
        ),
{
}

/// An aborted writer leaves no claim: its stamp no longer causes a conflict.
pub proof fn lemma_aborted_claim_released(
    version: TupleView,
    writer: TransactionId,
    other: TransactionId,
    lookup: spec_fn(TransactionId) -> Option<TransactionState>,
)
    requires
        lookup(writer) == Some(TransactionState::Aborted),
    ensures
        conflict_spec(TupleView { xmax: Some(writer), ..version }, other, lookup) is None,
{
}

/// A write to a version that no other transaction claims is refused as not
/// visible exactly when the writer cannot see the version, and allowed
/// otherwise.
pub proof fn lemma_unclaimed_write_needs_visibility(
    version: TupleView,
    snapshot: crate::transaction::snapshot::SnapshotView,
    writer: TransactionId,
    lookup: spec_fn(TransactionId) -> Option<TransactionState>,
)
    requires
        unclaimed(version, writer, lookup),
    ensures
        !version_visible(version, snapshot, writer, lookup) ==> write_check(
            version,
            snapshot,
            writer,
            lookup,
        ) == Some(WriteRejection::NotVisible),
        version_visible(version, snapshot, writer, lookup) ==> write_check(
            version,
            snapshot,
            writer,
            lookup,
        ) is None,
{
}

/// A transaction may not write a live version created by another
/// transaction that its snapshot does not see (one that was active when the
/// snapshot was taken, began after it, or has not committed), even once that
/// creator has committed.
pub proof fn lemma_write_to_unseen_insert_refused(
    version: TupleView,
    snapshot: crate::transaction::snapshot::SnapshotView,
    writer: TransactionId,
    lookup: spec_fn(TransactionId) -> Option<TransactionState>,
)
    requires
        version.xmin != writer,
        version.xmax is None,
        snapshot.active.contains(version.xmin) || version.xmin >= snapshot.xmax || lookup(
            version.xmin,
        ) != Some(TransactionState::Committed),
    ensures
        write_check(version, snapshot, writer, lookup) == Some(WriteRejection::NotVisible),
{
}

} // verus!
