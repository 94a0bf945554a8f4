use vstd::prelude::*;
use vstd::slice::*;

use crate::transaction::snapshot::SnapshotView;
use crate::transaction::tuple_codec::{decode_spec, encode_spec, TupleCodecError};
use crate::transaction::version::{
    answers, callable, reclaimable_spec, version_visible, TupleView,
};
use crate::transaction::{
    decode_tuple, encode_tuple, Snapshot, TransactionId, TransactionState, TupleVersion,
};
use crate::{PageId, PAGE_SIZE};

use super::page::{overwrite, Page, PageError, PAGE_HEADER_SIZE};
use super::slotted::{
    first_deleted, insert_fits, record_slot, SlotId, SlottedPage, SlottedPageError,
};
use super::RecordId;

verus! {

/// Size of the slotted area of a heap page: everything after the page header.
pub const HEAP_SLOTTED_SIZE: usize = 4080;

/// Errors of tuple-version pages.
#[derive(Debug, Clone, Copy, PartialEq, Eq, Structural)]
pub enum MvccPageError {
    Slotted(SlottedPageError),
    Tuple(TupleCodecError),
}

/// The visible rows among the first `n` slots of `slots`, in slot order, or
/// the first error met on the way.
pub open spec fn visible_rows(
    slots: Seq<Option<Seq<u8>>>,
    n: int,
    snapshot: SnapshotView,
    reader: TransactionId,
    lookup: spec_fn(TransactionId) -> Option<TransactionState>,
) -> Result<Seq<(int, TupleView)>, MvccPageError>
    decreases n,
{
    if n <= 0 {
        Ok(Seq::empty())
    } else {
        match visible_rows(slots, n - 1, snapshot, reader, lookup) {
            Err(e) => Err(e),
            Ok(rows) => match slots[n - 1] {
                None => Ok(rows),
                Some(bytes) => match decode_spec(bytes) {
                    Err(e) => Err(MvccPageError::Tuple(e)),
                    Ok(v) => if version_visible(v, snapshot, reader, lookup) {
                        Ok(rows.push((n - 1, v)))
                    } else {
                        Ok(rows)
                    },
                },
            },
        }
    }
}

/// Once the scan of a prefix fails, every longer scan fails the same way.
pub proof fn lemma_rows_error_persists(
    slots: Seq<Option<Seq<u8>>>,
    n: int,
    m: int,
    snapshot: SnapshotView,
    reader: TransactionId,
    lookup: spec_fn(TransactionId) -> Option<TransactionState>,
)
    requires
        0 <= n <= m,
        visible_rows(slots, n, snapshot, reader, lookup) is Err,
    ensures
        visible_rows(slots, m, snapshot, reader, lookup) == visible_rows(
            slots,
            n,
            snapshot,
            reader,
            lookup,
        ),
    decreases m - n,
{
    if m > n {
        lemma_rows_error_persists(slots, n, m - 1, snapshot, reader, lookup);
    }
}

/// Whether `slot` holds a version that decodes and is visible to `reader`
/// under `snapshot`.
pub open spec fn holds_visible(
    slot: Option<Seq<u8>>,
    snapshot: SnapshotView,
    reader: TransactionId,
    lookup: spec_fn(TransactionId) -> Option<TransactionState>,
) -> bool {
    match slot {
        Some(b) => match decode_spec(b) {
            Ok(v) => version_visible(v, snapshot, reader, lookup),
            Err(_) => false,
        },
        None => false,
    }
}

/// A scan of the first `n` slots succeeds exactly when every record among
/// them decodes, and then returns one row for each slot holding a visible
/// version and no other, in increasing slot order, each with the version
/// stored in its slot.
pub proof fn lemma_visible_rows_exact(
    slots: Seq<Option<Seq<u8>>>,
    n: int,
    snapshot: SnapshotView,
    reader: TransactionId,
    lookup: spec_fn(TransactionId) -> Option<TransactionState>,
)
    requires
        0 <= n <= slots.len(),
    ensures
        visible_rows(slots, n, snapshot, reader, lookup) is Ok <==> (forall|i: int|
            0 <= i < n && #[trigger] slots[i] is Some ==> decode_spec(slots[i]->Some_0) is Ok),
        visible_rows(slots, n, snapshot, reader, lookup) matches Ok(rows) ==> {
            &&& forall|k: int|
                0 <= k < rows.len() ==> {
                    &&& 0 <= #[trigger] rows[k].0 < n
                    &&& slots[rows[k].0] matches Some(b)
                    &&& decode_spec(b) == Ok::<TupleView, TupleCodecError>(rows[k].1)
                    &&& version_visible(rows[k].1, snapshot, reader, lookup)
                }
            &&& forall|k: int, l: int| 0 <= k < l < rows.len() ==> rows[k].0 < rows[l].0
            &&& forall|i: int|
                0 <= i < n && holds_visible(#[trigger] slots[i], snapshot, reader, lookup)
                    ==> exists|k: int| 0 <= k < rows.len() && rows[k].0 == i
        },
    decreases n,
{
    if n > 0 {
        lemma_visible_rows_exact(slots, n - 1, snapshot, reader, lookup);
        let prev = visible_rows(slots, n - 1, snapshot, reader, lookup);
        if prev is Err {
            lemma_rows_error_persists(slots, n - 1, n, snapshot, reader, lookup);
            let i0 = choose|i: int|
                0 <= i < n - 1 && #[trigger] slots[i] is Some && !(decode_spec(slots[i]->Some_0) is Ok);
            assert(0 <= i0 < n && slots[i0] is Some && !(decode_spec(slots[i0]->Some_0) is Ok));
        } else {
            let rows = prev->Ok_0;
            let cur = visible_rows(slots, n, snapshot, reader, lookup);
            if cur is Ok {
                let out = cur->Ok_0;
                assert forall|i: int|
                    0 <= i < n && holds_visible(#[trigger] slots[i], snapshot, reader, lookup)
                    implies exists|k: int| 0 <= k < out.len() && out[k].0 == i by {
                    if i < n - 1 {
                        let k = choose|k: int| 0 <= k < rows.len() && rows[k].0 == i;
                        assert(out[k] == rows[k]);
                    } else {
                        assert(out[rows.len() as int].0 == i);
                    }
                }
                assert forall|k: int| 0 <= k < out.len() implies {
                    &&& 0 <= #[trigger] out[k].0 < n
                    &&& slots[out[k].0] matches Some(b)
                    &&& decode_spec(b) == Ok::<TupleView, TupleCodecError>(out[k].1)
                    &&& version_visible(out[k].1, snapshot, reader, lookup)
                } by {
                    if k < rows.len() {
                        assert(out[k] == rows[k]);
                    }
                }
                assert forall|k: int, l: int| 0 <= k < l < out.len() implies out[k].0
                    < out[l].0 by {
                    if l < rows.len() {
                        assert(out[k] == rows[k] && out[l] == rows[l]);
                    } else {
                        assert(out[k] == rows[k]);
                    }
                }
            }
        }
    }
}

/// The slots after vacuuming the first `n` slots of `slots` below `horizon`,
/// with the number of versions removed, or the first error met on the way.
/// A slot whose version no snapshot at or after `horizon` can see is
/// emptied.
pub open spec fn vacuum_spec(
    slots: Seq<Option<Seq<u8>>>,
    n: int,
    horizon: TransactionId,
    lookup: spec_fn(TransactionId) -> Option<TransactionState>,
) -> Result<(Seq<Option<Seq<u8>>>, nat), MvccPageError>
    decreases n,
{
    if n <= 0 {
        Ok((slots, 0))
    } else {
        match vacuum_spec(slots, n - 1, horizon, lookup) {
            Err(e) => Err(e),
            Ok((s, c)) => match slots[n - 1] {
                None => Ok((s, c)),
                Some(bytes) => match decode_spec(bytes) {
                    Err(e) => Err(MvccPageError::Tuple(e)),
                    Ok(v) => if reclaimable_spec(v, horizon, lookup) {
                        Ok((s.update(n - 1, None), c + 1))
                    } else {
                        Ok((s, c))
                    },
                },
            },
        }
    }
}

/// Vacuuming a prefix leaves the slots after it alone.
pub proof fn lemma_vacuum_prefix(
    slots: Seq<Option<Seq<u8>>>,
    n: int,
    horizon: TransactionId,
    lookup: spec_fn(TransactionId) -> Option<TransactionState>,
)
    requires
        0 <= n <= slots.len(),
        vacuum_spec(slots, n, horizon, lookup) is Ok,
    ensures
        ({
            let (s, c) = vacuum_spec(slots, n, horizon, lookup)->Ok_0;
            &&& s.len() == slots.len()
            &&& forall|j: int| n <= j < slots.len() ==> s[j] == slots[j]
            &&& c <= n
        }),
    decreases n,
{
    if n > 0 {
        lemma_vacuum_prefix(slots, n - 1, horizon, lookup);
    }
}

/// Whether `slot` holds a version that decodes and is reclaimable below
/// `horizon`.
pub open spec fn holds_reclaimable(
    slot: Option<Seq<u8>>,
    horizon: TransactionId,
    lookup: spec_fn(TransactionId) -> Option<TransactionState>,
) -> bool {
    match slot {
        Some(b) => match decode_spec(b) {
            Ok(v) => reclaimable_spec(v, horizon, lookup),
            Err(_) => false,
        },
        None => false,
    }
}

/// A vacuum of the first `n` slots that succeeds empties exactly the slots
/// among them holding a reclaimable version, leaves every other slot as it
/// was, and counts one removal for each emptied slot.
pub proof fn lemma_vacuum_exact(
    slots: Seq<Option<Seq<u8>>>,
    n: int,
    horizon: TransactionId,
    lookup: spec_fn(TransactionId) -> Option<TransactionState>,
)
    requires
        0 <= n <= slots.len(),
        vacuum_spec(slots, n, horizon, lookup) is Ok,
    ensures
        ({
            let (s, c) = vacuum_spec(slots, n, horizon, lookup)->Ok_0;
            &&& s.len() == slots.len()
            &&& forall|i: int|
                0 <= i < slots.len() ==> #[trigger] s[i] == if i < n && holds_reclaimable(
                    slots[i],
                    horizon,
                    lookup,
                ) {
                    None
                } else {
                    slots[i]
                }
            &&& c == Set::new(|i: int| 0 <= i < n && holds_reclaimable(slots[i], horizon, lookup)).len()
        }),
    decreases n,
{
    if n == 0 {
        assert(Set::new(|i: int| 0 <= i < n && holds_reclaimable(slots[i], horizon, lookup))
            =~= Set::<int>::empty());
    } else {
        lemma_vacuum_error_persists_back(slots, n, horizon, lookup);
        lemma_vacuum_exact(slots, n - 1, horizon, lookup);
        let before = Set::new(
            |i: int| 0 <= i < n - 1 && holds_reclaimable(slots[i], horizon, lookup),
        );
        let after = Set::new(|i: int| 0 <= i < n && holds_reclaimable(slots[i], horizon, lookup));
        vstd::set_lib::lemma_int_range(0, n - 1);
        assert(before.subset_of(vstd::set_lib::set_int_range(0, n - 1)));
        vstd::set_lib::lemma_len_subset(before, vstd::set_lib::set_int_range(0, n - 1));
        if holds_reclaimable(slots[n - 1], horizon, lookup) {
            assert(after =~= before.insert(n - 1));
        } else {
            assert(after =~= before);
        }
    }
}

/// Whether a slot that held `before` and holds `after` was left alone, or
/// emptied of a version that `reader` cannot see under `snapshot`.
pub open spec fn kept_or_invisible(
    before: Option<Seq<u8>>,
    after: Option<Seq<u8>>,
    snapshot: SnapshotView,
    reader: TransactionId,
    lookup: spec_fn(TransactionId) -> Option<TransactionState>,
) -> bool {
    ||| after == before
    ||| match before {
        Some(b) => after is None && match decode_spec(b) {
            Ok(v) => !version_visible(v, snapshot, reader, lookup),
            Err(_) => false,
        },
        None => false,
    }
}

/// Vacuum removes only versions that no snapshot bounded below by the
/// horizon can see, and leaves every other slot as it was.
pub proof fn lemma_vacuum_removes_only_invisible(
    slots: Seq<Option<Seq<u8>>>,
    n: int,
    horizon: TransactionId,
    lookup: spec_fn(TransactionId) -> Option<TransactionState>,
    snapshot: SnapshotView,
    reader: TransactionId,
)
    requires
        0 <= n <= slots.len(),
        vacuum_spec(slots, n, horizon, lookup) is Ok,
        crate::transaction::snapshot::snapshot_ordered(snapshot),
        horizon <= snapshot.xmin,
    ensures
        ({
            let s = vacuum_spec(slots, n, horizon, lookup)->Ok_0.0;
            forall|i: int|
                0 <= i < slots.len() ==> kept_or_invisible(
                    slots[i],
                    #[trigger] s[i],
                    snapshot,
                    reader,
                    lookup,
                )
        }),
    decreases n,
{
    if n > 0 {
        lemma_vacuum_error_persists_back(slots, n, horizon, lookup);
        lemma_vacuum_removes_only_invisible(slots, n - 1, horizon, lookup, snapshot, reader);
        lemma_vacuum_prefix(slots, n - 1, horizon, lookup);
        if let Some(b) = slots[n - 1] {
            if let Ok(v) = decode_spec(b) {
                if reclaimable_spec(v, horizon, lookup) {
                    crate::transaction::version::lemma_reclaimable_invisible(
                        v,
                        snapshot,
                        reader,
                        horizon,
                        lookup,
                    );
                }
            }
        }
    }
}

/// A vacuum that succeeds on `n` slots succeeded on the slots before.
proof fn lemma_vacuum_error_persists_back(
    slots: Seq<Option<Seq<u8>>>,
    n: int,
    horizon: TransactionId,
    lookup: spec_fn(TransactionId) -> Option<TransactionState>,
)
    requires
        0 < n,
        vacuum_spec(slots, n, horizon, lookup) is Ok,
    ensures
        vacuum_spec(slots, n - 1, horizon, lookup) is Ok,
{
}

/// Once vacuuming a prefix fails, vacuuming more slots fails the same way.
pub proof fn lemma_vacuum_error_persists(
    slots: Seq<Option<Seq<u8>>>,
    n: int,
    m: int,
    horizon: TransactionId,
    lookup: spec_fn(TransactionId) -> Option<TransactionState>,
)
    requires
        0 <= n <= m,
        vacuum_spec(slots, n, horizon, lookup) is Err,
    ensures
        vacuum_spec(slots, m, horizon, lookup) == vacuum_spec(slots, n, horizon, lookup),
    decreases m - n,
{
    if m > n {
        lemma_vacuum_error_persists(slots, n, m - 1, horizon, lookup);
    }
}

/// The model of a returned row: its page, its slot and its version.
pub open spec fn row_view(row: (RecordId, TupleVersion)) -> (PageId, int, TupleView) {
    (row.0.spec_page_id(), row.0.spec_slot_id() as int, row.1@)
}

/// A slotted page whose records are encoded tuple versions.
pub struct MvccPage {
    page_id: PageId,
    page: SlottedPage,
}

impl MvccPage {
    pub closed spec fn spec_page_id(&self) -> PageId {
        self.page_id
    }

    /// The slotted page holding the encoded versions.
    pub closed spec fn slots(&self) -> SlottedPage {
        self.page
    }

    pub open spec fn wf(&self) -> bool {
        self.slots().wf()
    }

    /// An empty page of `PAGE_SIZE` bytes.
    pub fn new(page_id: PageId) -> (page: Self)
        ensures
            page.wf(),
            page.spec_page_id() == page_id,
            page.slots()@ == Seq::<Option<Seq<u8>>>::empty(),
            page.slots().size() == PAGE_SIZE,
    {
        Self { page_id, page: SlottedPage::new() }
    }

    /// An empty page that fits the body of a heap page.
    pub fn new_heap_page(page_id: PageId) -> (page: Self)
        ensures
            page.wf(),
            page.spec_page_id() == page_id,
            page.slots()@ == Seq::<Option<Seq<u8>>>::empty(),
            page.slots().size() == HEAP_SLOTTED_SIZE,
    {
        Self { page_id, page: SlottedPage::with_size(HEAP_SLOTTED_SIZE) }
    }

    pub fn from_slotted(page_id: PageId, page: SlottedPage) -> (m: Self)
        ensures
            m.spec_page_id() == page_id,
            m.slots() == page,
    {
        Self { page_id, page }
    }

    /// Reads the slotted area of a heap page, the bytes after its header.
    pub fn from_page(page: &Page) -> (result: Result<Self, MvccPageError>)
        requires
            page.wf(),
        ensures
            match result {
                Ok(m) => {
                    &&& m.wf()
                    &&& m.spec_page_id() == page.spec_id()
                    &&& m.slots().size() == HEAP_SLOTTED_SIZE
                    &&& SlottedPage::readable(
                        page.bytes().subrange(PAGE_HEADER_SIZE as int, PAGE_SIZE as int),
                    )
                    &&& SlottedPage::from_bytes_spec(
                        page.bytes().subrange(PAGE_HEADER_SIZE as int, PAGE_SIZE as int),
                        m.slots(),
                    )
                },
                Err(e) => e == MvccPageError::Slotted(SlottedPageError::Corrupt)
                    && !SlottedPage::readable(
                    page.bytes().subrange(PAGE_HEADER_SIZE as int, PAGE_SIZE as int),
                ),
            },
    {
        let data = page.data();
        let body = slice_to_vec(slice_subrange(data, PAGE_HEADER_SIZE, PAGE_SIZE));
        let slotted = SlottedPage::from_bytes(body);
        if slotted.is_consistent() {
            Ok(Self { page_id: page.id(), page: slotted })
        } else {
            Err(MvccPageError::Slotted(SlottedPageError::Corrupt))
        }
    }

    /// Writes the slotted area into the body of a heap page.
    pub fn write_to_page(&self, page: &mut Page) -> (result: Result<(), PageError>)
        requires
            old(page).wf(),
            self.slots().size() == HEAP_SLOTTED_SIZE,
        ensures
            final(page).wf(),
            result is Ok,
            final(page).spec_id() == old(page).spec_id(),
            final(page).bytes() == overwrite(
                old(page).bytes(),
                PAGE_HEADER_SIZE as int,
                self.slots().bytes(),
            ),
            final(page).spec_dirty(),
    {
        proof {
            self.page.lemma_view_of_bytes();
        }
        page.write(PAGE_HEADER_SIZE, self.page.as_bytes())
    }

    pub fn into_slotted(self) -> (page: SlottedPage)
        ensures
            page == self.slots(),
    {
        self.page
    }

    pub fn slotted(&self) -> (page: &SlottedPage)
        ensures
            *page == self.slots(),
    {
        &self.page
    }

    /// Encodes `version` and stores it in a slot of this page.
    pub fn insert_version(&mut self, version: &TupleVersion) -> (result: Result<
        RecordId,
        MvccPageError,
    >)
        requires
            old(self).wf(),
        ensures
            final(self).wf(),
            final(self).spec_page_id() == old(self).spec_page_id(),
            final(self).slots().size() == old(self).slots().size(),
            ({
                let record = encode_spec(version@);
                let v = old(self).slots()@;
                match result {
                    Ok(rid) => {
                        &&& rid.spec_page_id() == old(self).spec_page_id()
                        &&& record.len() <= u16::MAX
                        &&& insert_fits(v, old(self).slots().size(), record.len() as int)
                        &&& match first_deleted(v) {
                            Some(i) => rid.spec_slot_id() == i && final(self).slots()@ == v.update(
                                i,
                                record_slot(record),
                            ),
                            None => rid.spec_slot_id() == v.len() && final(self).slots()@
                                == v.push(record_slot(record)),
                        }
                    },
                    Err(MvccPageError::Slotted(SlottedPageError::RecordTooLarge)) => record.len()
                        > u16::MAX && final(self).slots()@ == v,
                    Err(MvccPageError::Slotted(SlottedPageError::NoSpace)) => {
                        &&& record.len() <= u16::MAX
                        &&& !insert_fits(v, old(self).slots().size(), record.len() as int)
                        &&& final(self).slots()@ == v
                    },
                    Err(_) => false,
                }
            }),
    {
        let bytes = encode_tuple(version);
        let ghost before = self.page;
        let result = self.page.insert(bytes.as_slice());
        proof {
            before.lemma_view_of_bytes();
            self.page.lemma_view_of_bytes();
        }
        match result {
            Ok(slot_id) => Ok(RecordId::new(self.page_id, slot_id)),
            Err(e) => Err(MvccPageError::Slotted(e)),
        }
    }

    /// Decodes the version stored in `slot_id`.
    pub fn get_version(&self, slot_id: SlotId) -> (result: Result<TupleVersion, MvccPageError>)
        requires
            self.wf(),
        ensures
            match result {
                Ok(v) => slot_id < self.slots()@.len() && match self.slots()@[slot_id as int] {
                    Some(bytes) => decode_spec(bytes) == Ok::<TupleView, TupleCodecError>(v@),
                    None => false,
                },
                Err(MvccPageError::Slotted(SlottedPageError::InvalidSlot)) => slot_id
                    >= self.slots()@.len(),
                Err(MvccPageError::Slotted(SlottedPageError::Deleted)) => slot_id
                    < self.slots()@.len() && self.slots()@[slot_id as int] is None,
                Err(MvccPageError::Tuple(e)) => slot_id < self.slots()@.len() && match self.slots()@[slot_id as int] {
                    Some(bytes) => decode_spec(bytes) == Err::<TupleView, TupleCodecError>(e),
                    None => false,
                },
                Err(_) => false,
            },
    {
        let bytes = match self.page.get(slot_id) {
            Ok(b) => b,
            Err(e) => {
                return Err(MvccPageError::Slotted(e));
            },
        };
        match decode_tuple(bytes) {
            Ok(v) => Ok(v),
            Err(e) => Err(MvccPageError::Tuple(e)),
        }
    }

    /// The versions on this page visible to `reader` under `snapshot`, in
    /// slot order, each with its record identifier.
    pub fn visible_versions<F: Fn(TransactionId) -> Option<TransactionState> + Copy>(
        &self,
        snapshot: &Snapshot,
        reader: TransactionId,
        state_of: F,
    ) -> (result: Result<Vec<(RecordId, TupleVersion)>, MvccPageError>)
        requires
            self.wf(),
            callable(state_of),
        ensures
            forall|lookup: spec_fn(TransactionId) -> Option<TransactionState>|
                answers(state_of, lookup) ==> match (
                    result,
                    visible_rows(
                        self.slots()@,
                        self.slots()@.len() as int,
                        snapshot@,
                        reader,
                        lookup,
                    ),
                ) {
                    (Ok(rows), Ok(expected)) => rows@.map_values(|r| row_view(r))
                        == expected.map_values(
                        |e: (int, TupleView)| (self.spec_page_id(), e.0, e.1),
                    ),
                    (Err(e), Err(f)) => e == f,
                    _ => false,
                },
    {
        let mut visible: Vec<(RecordId, TupleVersion)> = Vec::new();
        proof {
            self.page.lemma_view_of_bytes();
        }
        let count = self.page.slot_count();
        let mut slot_id: SlotId = 0;
        while slot_id < count
            invariant
                self.wf(),
                callable(state_of),
                count == self.slots()@.len(),
                0 <= slot_id <= count,
                forall|lookup: spec_fn(TransactionId) -> Option<TransactionState>|
                    answers(state_of, lookup) ==> match visible_rows(
                        self.slots()@,
                        slot_id as int,
                        snapshot@,
                        reader,
                        lookup,
                    ) {
                        Ok(expected) => visible@.map_values(|r| row_view(r)) == expected.map_values(
                            |e: (int, TupleView)| (self.spec_page_id(), e.0, e.1),
                        ),
                        Err(_) => false,
                    },
            decreases count - slot_id,
        {
            let ghost before = visible@;
            let bytes = match self.page.get(slot_id) {
                Ok(b) => b,
                Err(SlottedPageError::Deleted) => {
                    slot_id = slot_id + 1;
                    continue ;
                },
                Err(e) => {
                    return Err(MvccPageError::Slotted(e));
                },
            };
            let version = match decode_tuple(bytes) {
                Ok(v) => v,
                Err(e) => {
                    proof {
                        assert forall|lookup: spec_fn(TransactionId) -> Option<TransactionState>|
                            answers(state_of, lookup) implies visible_rows(
                            self.slots()@,
                            self.slots()@.len() as int,
                            snapshot@,
                            reader,
                            lookup,
                        ) == Err::<Seq<(int, TupleView)>, MvccPageError>(MvccPageError::Tuple(e)) by {
                            lemma_rows_error_persists(
                                self.slots()@,
                                slot_id + 1,
                                self.slots()@.len() as int,
                                snapshot@,
                                reader,
                                lookup,
                            );
                        }
                    }
                    return Err(MvccPageError::Tuple(e));
                },
            };
            if version.visible_to(snapshot, reader, state_of) {
                visible.push((RecordId::new(self.page_id, slot_id), version));
                proof {
                    assert forall|lookup: spec_fn(TransactionId) -> Option<TransactionState>|
                        answers(state_of, lookup) implies match visible_rows(
                        self.slots()@,
                        slot_id + 1,
                        snapshot@,
                        reader,
                        lookup,
                    ) {
                        Ok(expected) => visible@.map_values(|r| row_view(r))
                            == expected.map_values(
                            |e: (int, TupleView)| (self.spec_page_id(), e.0, e.1),
                        ),
                        Err(_) => false,
                    } by {
                        let expected_before = visible_rows(
                            self.slots()@,
                            slot_id as int,
                            snapshot@,
                            reader,
                            lookup,
                        )->Ok_0;
                        assert(visible@.map_values(|r| row_view(r)) =~= before.map_values(
                            |r| row_view(r),
                        ).push((self.spec_page_id(), slot_id as int, version@)));
                        assert(expected_before.push((slot_id as int, version@)).map_values(
                            |e: (int, TupleView)| (self.spec_page_id(), e.0, e.1),
                        ) =~= expected_before.map_values(
                            |e: (int, TupleView)| (self.spec_page_id(), e.0, e.1),
                        ).push((self.spec_page_id(), slot_id as int, version@)));
                    }
                }
            }
            slot_id = slot_id + 1;
        }
        Ok(visible)
    }
}

impl MvccPage {
    /// Overwrites the version stored in `slot_id` with `version`, whose
    /// stored form must have the length of the one it replaces, as a
    /// version with a deleter added does.
    pub fn replace_version(&mut self, slot_id: SlotId, version: &TupleVersion) -> (result: Result<
        (),
        MvccPageError,
    >)
        requires
            old(self).wf(),
        ensures
            final(self).wf(),
            final(self).spec_page_id() == old(self).spec_page_id(),
            final(self).slots().size() == old(self).slots().size(),
            match result {
                Ok(_) => {
                    &&& slot_id < old(self).slots()@.len()
                    &&& final(self).slots()@.len() == old(self).slots()@.len()
                    &&& final(self).slots()@[slot_id as int] == Some(encode_spec(version@))
                    &&& final(self).slots().bytes() == overwrite(
                        old(self).slots().bytes(),
                        super::slotted::slot_offset_of(old(self).slots().bytes(), slot_id as int),
                        encode_spec(version@),
                    )
                    &&& old(self).slots()@[slot_id as int] is Some
                    &&& old(self).slots()@[slot_id as int]->Some_0.len() == encode_spec(
                        version@,
                    ).len()
                },
                Err(MvccPageError::Slotted(SlottedPageError::InvalidSlot)) => {
                    &&& slot_id >= old(self).slots()@.len()
                    &&& final(self).slots().bytes() == old(self).slots().bytes()
                },
                Err(MvccPageError::Slotted(SlottedPageError::Deleted)) => {
                    &&& slot_id < old(self).slots()@.len()
                    &&& old(self).slots()@[slot_id as int] is None
                    &&& final(self).slots().bytes() == old(self).slots().bytes()
                },
                Err(MvccPageError::Slotted(SlottedPageError::NoSpace)) => {
                    &&& slot_id < old(self).slots()@.len()
                    &&& old(self).slots()@[slot_id as int] matches Some(previous)
                        && previous.len() != encode_spec(version@).len()
                    &&& final(self).slots().bytes() == old(self).slots().bytes()
                },
                Err(_) => false,
            },
    {
        let bytes = encode_tuple(version);
        let ghost before = self.page;
        let result = self.page.replace(slot_id, bytes.as_slice());
        proof {
            before.lemma_view_of_bytes();
            self.page.lemma_view_of_bytes();
            if result is Err {
                assert(self.page.bytes() =~= before.bytes());
            } else {
                assert(slot_id < before@.len());
                assert(self.page@[slot_id as int] == Some(bytes@));
                assert(self.page@.len() == before@.len());
            }
        }
        match result {
            Ok(()) => Ok(()),
            Err(e) => Err(MvccPageError::Slotted(e)),
        }
    }

    /// Empties every slot whose version no snapshot bounded below by
    /// `horizon` can see, and returns how many were emptied.
    pub fn vacuum<F: Fn(TransactionId) -> Option<TransactionState> + Copy>(
        &mut self,
        horizon: TransactionId,
        state_of: F,
    ) -> (result: Result<usize, MvccPageError>)
        requires
            old(self).wf(),
            callable(state_of),
        ensures
            final(self).wf(),
            final(self).spec_page_id() == old(self).spec_page_id(),
            final(self).slots().size() == old(self).slots().size(),
            forall|lookup: spec_fn(TransactionId) -> Option<TransactionState>|
                answers(state_of, lookup) ==> match (
                    result,
                    vacuum_spec(
                        old(self).slots()@,
                        old(self).slots()@.len() as int,
                        horizon,
                        lookup,
                    ),
                ) {
                    (Ok(count), Ok((slots, removed))) => count == removed && final(self).slots()@
                        == slots,
                    (Err(e), Err(f)) => e == f,
                    _ => false,
                },
    {
        let ghost start = self.slots()@;
        proof {
            self.page.lemma_view_of_bytes();
        }
        let count = self.page.slot_count();
        let mut removed: usize = 0;
        let mut slot_id: SlotId = 0;
        while slot_id < count
            invariant
                self.wf(),
                callable(state_of),
                self.spec_page_id() == old(self).spec_page_id(),
                self.slots().size() == old(self).slots().size(),
                start == old(self).slots()@,
                count == start.len(),
                0 <= slot_id <= count,
                removed <= slot_id,
                forall|lookup: spec_fn(TransactionId) -> Option<TransactionState>|
                    answers(state_of, lookup) ==> vacuum_spec(start, slot_id as int, horizon, lookup)
                        == Ok::<(Seq<Option<Seq<u8>>>, nat), MvccPageError>(
                        (self.slots()@, removed as nat),
                    ),
                self.slots()@.len() == start.len(),
                forall|j: int| slot_id <= j < start.len() ==> self.slots()@[j] == start[j],
            decreases count - slot_id,
        {
            let bytes = match self.page.get(slot_id) {
                Ok(b) => b,
                Err(SlottedPageError::Deleted) => {
                    slot_id = slot_id + 1;
                    continue ;
                },
                Err(e) => {
                    return Err(MvccPageError::Slotted(e));
                },
            };
            let version = match decode_tuple(bytes) {
                Ok(v) => v,
                Err(e) => {
                    proof {
                        assert forall|lookup: spec_fn(TransactionId) -> Option<TransactionState>|
                            answers(state_of, lookup) implies vacuum_spec(
                            start,
                            start.len() as int,
                            horizon,
                            lookup,
                        ) == Err::<(Seq<Option<Seq<u8>>>, nat), MvccPageError>(
                            MvccPageError::Tuple(e),
                        ) by {
                            lemma_vacuum_error_persists(
                                start,
                                slot_id + 1,
                                start.len() as int,
                                horizon,
                                lookup,
                            );
                        }
                    }
                    return Err(MvccPageError::Tuple(e));
                },
            };
            if version.is_reclaimable(horizon, state_of) {
                let ghost before = self.slots()@;
                match self.page.delete(slot_id) {
                    Ok(()) => {},
                    Err(e) => {
                        return Err(MvccPageError::Slotted(e));
                    },
                }
                removed = removed + 1;
                proof {
                    assert forall|j: int| slot_id + 1 <= j < start.len() implies self.slots()@[j]
                        == start[j] by {
                        assert(self.slots()@[j] == before[j]);
                    }
                }
            }
            slot_id = slot_id + 1;
        }
        Ok(removed)
    }
}

impl SlottedPage {
    /// Whether `bytes` can be read as a slotted page.
    pub open spec fn readable(bytes: Seq<u8>) -> bool {
        super::slotted::well_formed(bytes) || super::slotted::fresh_header(bytes)
    }

    /// Whether `page` is what reading `bytes` gives: a page holding exactly
    /// those bytes.
    pub open spec fn from_bytes_spec(bytes: Seq<u8>, page: SlottedPage) -> bool {
        &&& page.bytes() == bytes
        &&& super::slotted::fresh_header(bytes) ==> page@ == Seq::<Option<Seq<u8>>>::empty()
    }
}

} // verus!
