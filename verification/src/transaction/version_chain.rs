use vstd::prelude::*;

use super::snapshot::SnapshotView;
use super::version::{answers, callable, version_visible, TupleView};
use super::{Snapshot, TransactionId, TransactionState, TupleVersion};

verus! {

/// Errors of version-chain updates.
#[derive(Debug, Clone, Copy, PartialEq, Eq, Structural)]
pub enum VersionChainError {
    /// No version of the tuple is visible to the writer.
    NoVisibleVersion,
}

/// Index of the newest version among the first `n` of `vs` that is visible.
pub open spec fn last_visible(
    vs: Seq<TupleView>,
    n: int,
    snapshot: SnapshotView,
    reader: TransactionId,
    lookup: spec_fn(TransactionId) -> Option<TransactionState>,
) -> Option<int>
    decreases n,
{
    if n <= 0 {
        None
    } else if version_visible(vs[n - 1], snapshot, reader, lookup) {
        Some(n - 1)
    } else {
        last_visible(vs, n - 1, snapshot, reader, lookup)
    }
}

/// The newest visible version of `vs`.
pub open spec fn newest_visible(
    vs: Seq<TupleView>,
    snapshot: SnapshotView,
    reader: TransactionId,
    lookup: spec_fn(TransactionId) -> Option<TransactionState>,
) -> Option<int> {
    last_visible(vs, vs.len() as int, snapshot, reader, lookup)
}

/// The index found lies in range and names a visible version with no
/// visible version after it among the first `n`; none is found only when
/// none of the first `n` versions is visible.
pub proof fn lemma_last_visible_range(
    vs: Seq<TupleView>,
    n: int,
    snapshot: SnapshotView,
    reader: TransactionId,
    lookup: spec_fn(TransactionId) -> Option<TransactionState>,
)
    requires
        n <= vs.len(),
    ensures
        match last_visible(vs, n, snapshot, reader, lookup) {
            Some(i) => {
                &&& 0 <= i < n
                &&& version_visible(vs[i], snapshot, reader, lookup)
                &&& forall|j: int|
                    i < j < n ==> !version_visible(#[trigger] vs[j], snapshot, reader, lookup)
            },
            None => forall|j: int|
                0 <= j < n ==> !version_visible(#[trigger] vs[j], snapshot, reader, lookup),
        },
    decreases n,
{
    if n > 0 {
        lemma_last_visible_range(vs, n - 1, snapshot, reader, lookup);
    }
}

/// The versions of one tuple, oldest first.
#[derive(Debug, Clone, Default, PartialEq, Eq)]
pub struct VersionChain {
    versions: Vec<TupleVersion>,
}

impl View for VersionChain {
    type V = Seq<TupleView>;

    closed spec fn view(&self) -> Seq<TupleView> {
        self.versions@.map_values(|v: TupleVersion| v@)
    }
}

impl VersionChain {
    pub fn new() -> (c: Self)
        ensures
            c@ == Seq::<TupleView>::empty(),
    {
        let c = Self { versions: Vec::new() };
        assert(c@ =~= Seq::<TupleView>::empty());
        c
    }

    pub fn versions(&self) -> (vs: &[TupleVersion])
        ensures
            vs@.map_values(|v: TupleVersion| v@) == self@,
    {
        self.versions.as_slice()
    }

    /// Appends a version created by `writer`.
    pub fn insert(&mut self, writer: TransactionId, payload: Vec<u8>)
        ensures
            final(self)@ == old(self)@.push(
                TupleView { xmin: writer, xmax: None, payload: payload@ },
            ),
    {
        let v = TupleVersion::new(writer, payload);
        self.versions.push(v);
        assert(self@ =~= old(self)@.push(TupleView { xmin: writer, xmax: None, payload: payload@ }));
    }

    fn visible_index<F: Fn(TransactionId) -> Option<TransactionState> + Copy>(
        &self,
        snapshot: &Snapshot,
        reader: TransactionId,
        state_of: F,
    ) -> (index: Option<usize>)
        requires
            callable(state_of),
        ensures
            forall|lookup: spec_fn(TransactionId) -> Option<TransactionState>|
                answers(state_of, lookup) ==> match newest_visible(
                    self@,
                    snapshot@,
                    reader,
                    lookup,
                ) {
                    Some(i) => index is Some && index.unwrap() == i,
                    None => index is None,
                },
            match index {
                Some(i) => i < self@.len(),
                None => true,
            },
    {
        let mut i = self.versions.len();
        while i > 0
            invariant
                i <= self.versions@.len(),
                callable(state_of),
                forall|lookup: spec_fn(TransactionId) -> Option<TransactionState>|
                    answers(state_of, lookup) ==> newest_visible(self@, snapshot@, reader, lookup)
                        == last_visible(self@, i as int, snapshot@, reader, lookup),
            decreases i,
        {
            let visible = self.versions[i - 1].visible_to(snapshot, reader, state_of);
            assert(self@[i - 1] == self.versions@[i - 1]@);
            if visible {
                return Some(i - 1);
            }
            i = i - 1;
        }
        None
    }

    /// The newest version visible to `reader` under `snapshot`.
    pub fn visible_version<'a, F: Fn(TransactionId) -> Option<TransactionState> + Copy>(
        &'a self,
        snapshot: &Snapshot,
        reader: TransactionId,
        state_of: F,
    ) -> (version: Option<&'a TupleVersion>)
        requires
            callable(state_of),
        ensures
            forall|lookup: spec_fn(TransactionId) -> Option<TransactionState>|
                answers(state_of, lookup) ==> match newest_visible(
                    self@,
                    snapshot@,
                    reader,
                    lookup,
                ) {
                    Some(i) => version is Some && version.unwrap()@ == self@[i],
                    None => version is None,
                },
    {
        match self.visible_index(snapshot, reader, state_of) {
            Some(i) => Some(&self.versions[i]),
            None => None,
        }
    }

    /// Replaces the version visible to `writer` with a new one holding
    /// `payload`: the visible version is marked deleted by `writer` and the
    /// new version is appended.
    pub fn update<F: Fn(TransactionId) -> Option<TransactionState> + Copy>(
        &mut self,
        snapshot: &Snapshot,
        writer: TransactionId,
        payload: Vec<u8>,
        state_of: F,
    ) -> (result: Result<(), VersionChainError>)
        requires
            callable(state_of),
        ensures
            forall|lookup: spec_fn(TransactionId) -> Option<TransactionState>|
                answers(state_of, lookup) ==> match newest_visible(
                    old(self)@,
                    snapshot@,
                    writer,
                    lookup,
                ) {
                    Some(i) => result is Ok && final(self)@ == old(self)@.update(
                        i,
                        TupleView { xmax: Some(writer), ..old(self)@[i] },
                    ).push(TupleView { xmin: writer, xmax: None, payload: payload@ }),
                    None => result == Err::<(), VersionChainError>(
                        VersionChainError::NoVisibleVersion,
                    ) && final(self)@ == old(self)@,
                },
    {
        let index = match self.visible_index(snapshot, writer, state_of) {
            Some(i) => i,
            None => {
                return Err(VersionChainError::NoVisibleVersion);
            },
        };
        self.mark_deleted_at(index, writer);
        let ghost mid = self@;
        self.versions.push(TupleVersion::new(writer, payload));
        assert(self@ =~= mid.push(TupleView { xmin: writer, xmax: None, payload: payload@ }));
        Ok(())
    }

    /// Marks the version visible to `writer` as deleted by `writer`.
    pub fn delete<F: Fn(TransactionId) -> Option<TransactionState> + Copy>(
        &mut self,
        snapshot: &Snapshot,
        writer: TransactionId,
        state_of: F,
    ) -> (result: Result<(), VersionChainError>)
        requires
            callable(state_of),
        ensures
            forall|lookup: spec_fn(TransactionId) -> Option<TransactionState>|
                answers(state_of, lookup) ==> match newest_visible(
                    old(self)@,
                    snapshot@,
                    writer,
                    lookup,
                ) {
                    Some(i) => result is Ok && final(self)@ == old(self)@.update(
                        i,
                        TupleView { xmax: Some(writer), ..old(self)@[i] },
                    ),
                    None => result == Err::<(), VersionChainError>(
                        VersionChainError::NoVisibleVersion,
                    ) && final(self)@ == old(self)@,
                },
    {
        let index = match self.visible_index(snapshot, writer, state_of) {
            Some(i) => i,
            None => {
                return Err(VersionChainError::NoVisibleVersion);
            },
        };
        self.mark_deleted_at(index, writer);
        Ok(())
    }

    fn mark_deleted_at(&mut self, index: usize, writer: TransactionId)
        requires
            index < old(self)@.len(),
        ensures
            final(self)@ == old(self)@.update(
                index as int,
                TupleView { xmax: Some(writer), ..old(self)@[index as int] },
            ),
    {
        let mut version = self.versions[index].duplicate();
        version.mark_deleted(writer);
        self.versions.set(index, version);
        assert(self@ =~= old(self)@.update(
            index as int,
            TupleView { xmax: Some(writer), ..old(self)@[index as int] },
        ));
    }
}

} // verus!
