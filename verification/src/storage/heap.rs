use vstd::prelude::*;

use crate::transaction::tuple_codec::encode_spec;
use crate::transaction::TupleVersion;
use crate::{PageId, PAGE_SIZE};

use super::buffer::BufferPoolError;
use super::mvcc_page::{MvccPage, MvccPageError, HEAP_SLOTTED_SIZE};
use super::page::{Page, PageError, PAGE_HEADER_SIZE};
use super::slotted::{
    first_deleted, insert_fits, record_slot, slots_of, well_formed, SlottedPage,
    SlottedPageError,
};
use super::RecordId;

verus! {

/// Errors of a heap file kept directly on disk.
#[derive(Debug, Clone, PartialEq, Eq)]
pub enum HeapFileError {
    /// Reading or writing the file failed.
    Io(String),
    /// A heap page or a tuple on it could not be used.
    Mvcc(MvccPageError),
    /// A page could not be written.
    Page(PageError),
    /// The tuple does not fit in an empty heap page.
    TupleTooLarge,
}

/// Errors of a heap file kept through the buffer pool.
#[derive(Debug, Clone, PartialEq, Eq)]
pub enum BufferedHeapError {
    /// The buffer pool could not provide or write the page.
    Buffer(BufferPoolError),
    /// A heap page or a tuple on it could not be used.
    Mvcc(MvccPageError),
    /// The tuple does not fit in an empty heap page.
    TupleTooLarge,
}

/// The slotted area of the heap page image `bytes`.
pub open spec fn heap_body(bytes: Seq<u8>) -> Seq<u8> {
    bytes.subrange(PAGE_HEADER_SIZE as int, PAGE_SIZE as int)
}

/// The versions a heap page image holds, slot by slot; a page whose body was
/// never written holds none.
pub open spec fn heap_slots(bytes: Seq<u8>) -> Seq<Option<Seq<u8>>> {
    if well_formed(heap_body(bytes)) {
        slots_of(heap_body(bytes))
    } else {
        Seq::empty()
    }
}

/// What placing a version stored as `record` into a heap page holding
/// `slots` gives: the slot it lands in, or `None` when the page has no room.
pub open spec fn placement(slots: Seq<Option<Seq<u8>>>, record: Seq<u8>) -> Option<int> {
    if !insert_fits(slots, HEAP_SLOTTED_SIZE as int, record.len() as int) {
        None
    } else {
        match first_deleted(slots) {
            Some(i) => Some(i),
            None => Some(slots.len() as int),
        }
    }
}

/// The slots of a heap page after `record` landed in slot `i`.
pub open spec fn placed(slots: Seq<Option<Seq<u8>>>, record: Seq<u8>, i: int) -> Seq<
    Option<Seq<u8>>,
> {
    if i < slots.len() {
        slots.update(i, record_slot(record))
    } else {
        slots.push(record_slot(record))
    }
}

/// Tries to store `version` in the heap page `page`. Gives the record
/// identifier and the updated page when it fits, `None` when the page has no
/// room for it, and an error when the page is unreadable or the version too
/// large for any page.
pub fn place_version(page: &Page, version: &TupleVersion) -> (result: Result<
    Option<(RecordId, MvccPage)>,
    MvccPageError,
>)
    requires
        page.wf(),
    ensures
        ({
            let body = heap_body(page.bytes());
            let record = encode_spec(version@);
            if !SlottedPage::readable(body) {
                result == Err::<Option<(RecordId, MvccPage)>, MvccPageError>(
                    MvccPageError::Slotted(SlottedPageError::Corrupt),
                )
            } else if record.len() > u16::MAX {
                result == Err::<Option<(RecordId, MvccPage)>, MvccPageError>(
                    MvccPageError::Slotted(SlottedPageError::RecordTooLarge),
                )
            } else {
                match (result, placement(heap_slots(page.bytes()), record)) {
                    (Ok(None), None) => true,
                    (Ok(Some((rid, m))), Some(i)) => {
                        &&& rid.spec_page_id() == page.spec_id()
                        &&& rid.spec_slot_id() == i
                        &&& m.wf()
                        &&& m.spec_page_id() == page.spec_id()
                        &&& m.slots().size() == HEAP_SLOTTED_SIZE
                        &&& m.slots()@ == placed(heap_slots(page.bytes()), record, i)
                    },
                    _ => false,
                }
            }
        }),
{
    let mut mvcc = match MvccPage::from_page(page) {
        Ok(m) => m,
        Err(e) => {
            return Err(e);
        },
    };
    let ghost before = mvcc.slots()@;
    proof {
        mvcc.slots().lemma_view_of_bytes();
        assert(before == heap_slots(page.bytes()));
        super::slotted::lemma_first_deleted_from(before, 0);
    }
    match mvcc.insert_version(version) {
        Ok(rid) => Ok(Some((rid, mvcc))),
        Err(MvccPageError::Slotted(SlottedPageError::NoSpace)) => Ok(None),
        Err(e) => Err(e),
    }
}

/// Stores `version` in a fresh heap page `page_id`; a version that does not
/// fit even there is too large for the heap.
pub fn place_in_new_page(page_id: PageId, version: &TupleVersion) -> (result: Result<
    (RecordId, MvccPage),
    HeapFileError,
>)
    ensures
        ({
            let record = encode_spec(version@);
            if record.len() > u16::MAX {
                result == Err::<(RecordId, MvccPage), HeapFileError>(
                    HeapFileError::Mvcc(MvccPageError::Slotted(SlottedPageError::RecordTooLarge)),
                )
            } else if placement(Seq::empty(), record) is None {
                result == Err::<(RecordId, MvccPage), HeapFileError>(HeapFileError::TupleTooLarge)
            } else {
                match result {
                    Ok((rid, m)) => {
                        &&& rid.spec_page_id() == page_id
                        &&& rid.spec_slot_id() == 0
                        &&& m.wf()
                        &&& m.spec_page_id() == page_id
                        &&& m.slots().size() == HEAP_SLOTTED_SIZE
                        &&& m.slots()@ == seq![record_slot(record)]
                    },
                    Err(_) => false,
                }
            }
        }),
{
    let mut mvcc = MvccPage::new_heap_page(page_id);
    match mvcc.insert_version(version) {
        Ok(rid) => {
            assert(Seq::<Option<Seq<u8>>>::empty().push(record_slot(encode_spec(version@)))
                =~= seq![record_slot(encode_spec(version@))]);
            Ok((rid, mvcc))
        },
        Err(MvccPageError::Slotted(SlottedPageError::NoSpace)) => Err(
            HeapFileError::TupleTooLarge,
        ),
        Err(e) => Err(HeapFileError::Mvcc(e)),
    }
}

} // verus!
