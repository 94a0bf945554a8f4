use vstd::prelude::*;

use crate::PageId;

use super::slotted::SlotId;

verus! {

/// Stable address of a record: the page that holds it and its slot there.
#[derive(Debug, Clone, Copy, PartialEq, Eq, Hash, Structural)]
pub struct RecordId {
    page_id: PageId,
    slot_id: SlotId,
}

impl RecordId {
    pub closed spec fn spec_page_id(&self) -> PageId {
        self.page_id
    }

    pub closed spec fn spec_slot_id(&self) -> SlotId {
        self.slot_id
    }

    /// A record identifier is its page and slot: two identifiers with the
    /// same page and slot are the same.
    pub proof fn lemma_same_address(a: RecordId, b: RecordId)
        ensures
            (a == b) <==> (a.spec_page_id() == b.spec_page_id() && a.spec_slot_id()
                == b.spec_slot_id()),
    {
    }

    pub fn new(page_id: PageId, slot_id: SlotId) -> (r: Self)
        ensures
            r.spec_page_id() == page_id,
            r.spec_slot_id() == slot_id,
    {
        Self { page_id, slot_id }
    }

    pub fn page_id(&self) -> (id: PageId)
        ensures
            id == self.spec_page_id(),
    {
        self.page_id
    }

    pub fn slot_id(&self) -> (id: SlotId)
        ensures
            id == self.spec_slot_id(),
    {
        self.slot_id
    }
}

} // verus!
