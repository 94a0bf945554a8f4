use vstd::prelude::*;
use vstd::slice::*;

use crate::PAGE_SIZE;

use super::page::overwrite;

verus! {

/// Index of a slot in a slotted page.
pub type SlotId = u16;

/// Bytes of the slotted-page header: slot count, start and end of the free area.
pub const SLOTTED_HEADER_SIZE: usize = 6;

/// Bytes of one slot-directory entry: payload offset and payload length.
pub const SLOT_SIZE: usize = 4;

/// Largest image a slotted page can address with its 16-bit offsets.
pub const MAX_SLOTTED_SIZE: usize = 65535;

/// Errors of slotted-page operations.
#[derive(Debug, Clone, Copy, PartialEq, Eq, Structural)]
pub enum SlottedPageError {
    /// The record does not fit, even after compaction.
    NoSpace,
    /// The slot does not exist.
    InvalidSlot,
    /// The slot holds no record.
    Deleted,
    /// The record is longer than a slot can describe.
    RecordTooLarge,
    /// The bytes do not form a slotted page.
    Corrupt,
}

// ---------------------------------------------------------------------------
// The on-page format.
//
// bytes 0..2  slot count        (little endian)
// bytes 2..4  start of free area (= 6 + 4 * slot count)
// bytes 4..6  end of free area   (payloads live from here to the end)
// bytes 6..   slot directory: per slot, payload offset and payload length
//
// A slot whose length is zero holds no record.
// ---------------------------------------------------------------------------

/// The little-endian 16-bit value stored at `o`.
pub open spec fn u16_at(s: Seq<u8>, o: int) -> int {
    s[o] as int + 256 * (s[o + 1] as int)
}

/// `s` with the little-endian 16-bit value `v` stored at `o`.
pub open spec fn put_u16(s: Seq<u8>, o: int, v: u16) -> Seq<u8> {
    s.update(o, (v % 256) as u8).update(o + 1, (v / 256) as u8)
}

pub open spec fn slot_count_of(s: Seq<u8>) -> int {
    u16_at(s, 0)
}

pub open spec fn free_start_of(s: Seq<u8>) -> int {
    u16_at(s, 2)
}

pub open spec fn free_end_of(s: Seq<u8>) -> int {
    u16_at(s, 4)
}

/// Bytes between the start and the end of the free area, or none when the
/// end lies before the start.
pub open spec fn free_space_of(s: Seq<u8>) -> int {
    if free_end_of(s) >= free_start_of(s) {
        free_end_of(s) - free_start_of(s)
    } else {
        0
    }
}

/// Position of the directory entry of slot `i`.
pub open spec fn entry_pos(i: int) -> int {
    SLOTTED_HEADER_SIZE + SLOT_SIZE * i
}

pub open spec fn slot_offset_of(s: Seq<u8>, i: int) -> int {
    u16_at(s, entry_pos(i))
}

pub open spec fn slot_len_of(s: Seq<u8>, i: int) -> int {
    u16_at(s, entry_pos(i) + 2)
}

/// What slot `i` holds: nothing when its length is zero, else its payload.
pub open spec fn slot_of(s: Seq<u8>, i: int) -> Option<Seq<u8>> {
    if slot_len_of(s, i) == 0 {
        None
    } else {
        Some(s.subrange(slot_offset_of(s, i), slot_offset_of(s, i) + slot_len_of(s, i)))
    }
}

/// The contents of every slot, in slot order.
pub open spec fn slots_of(s: Seq<u8>) -> Seq<Option<Seq<u8>>> {
    Seq::new(slot_count_of(s) as nat, |i: int| slot_of(s, i))
}

/// Length of what a slot holds.
pub open spec fn opt_len(o: Option<Seq<u8>>) -> nat {
    match o {
        Some(b) => b.len(),
        None => 0,
    }
}

/// Total length of the records held by `v`.
pub open spec fn total_len(v: Seq<Option<Seq<u8>>>) -> nat
    decreases v.len(),
{
    if v.len() == 0 {
        0
    } else {
        total_len(v.drop_last()) + opt_len(v.last())
    }
}

/// What a slot holds after `record` was stored in it.
pub open spec fn record_slot(record: Seq<u8>) -> Option<Seq<u8>> {
    if record.len() == 0 {
        None
    } else {
        Some(record)
    }
}

/// The first slot at or after `i` that holds no record.
pub open spec fn first_deleted_from(v: Seq<Option<Seq<u8>>>, i: int) -> Option<int>
    decreases v.len() - i,
{
    if i >= v.len() || i < 0 {
        None
    } else if v[i] is None {
        Some(i)
    } else {
        first_deleted_from(v, i + 1)
    }
}

/// The first slot that holds no record; insertion reuses it.
pub open spec fn first_deleted(v: Seq<Option<Seq<u8>>>) -> Option<int> {
    first_deleted_from(v, 0)
}

/// Bytes available for payloads and new directory entries once the page is
/// compacted, for a page of `size` bytes holding `v`.
pub open spec fn capacity_of(v: Seq<Option<Seq<u8>>>, size: int) -> int {
    size - SLOTTED_HEADER_SIZE - SLOT_SIZE * v.len() - total_len(v)
}

/// Whether a record of `len` bytes can be inserted into a page of `size`
/// bytes holding `v`.
pub open spec fn insert_fits(v: Seq<Option<Seq<u8>>>, size: int, len: int) -> bool {
    if first_deleted(v) is Some {
        len <= capacity_of(v, size)
    } else {
        len + SLOT_SIZE <= capacity_of(v, size)
    }
}

/// Whether `s` is a consistent slotted-page image.
pub open spec fn well_formed(s: Seq<u8>) -> bool {
    &&& SLOTTED_HEADER_SIZE <= s.len() <= MAX_SLOTTED_SIZE
    &&& free_start_of(s) == entry_pos(slot_count_of(s))
    &&& free_start_of(s) <= free_end_of(s) <= s.len()
    &&& forall|i: int|
        0 <= i < slot_count_of(s) && #[trigger] slot_len_of(s, i) != 0 ==> {
            &&& free_end_of(s) <= slot_offset_of(s, i)
            &&& slot_offset_of(s, i) + slot_len_of(s, i) <= s.len()
        }
    &&& total_len(slots_of(s)) <= s.len() - free_end_of(s)
}

/// Whether `s` starts with an all-zero slotted-page header, as a page that
/// was never written does; such a page reads as an empty page.
pub open spec fn fresh_header(s: Seq<u8>) -> bool {
    &&& SLOTTED_HEADER_SIZE <= s.len() <= MAX_SLOTTED_SIZE
    &&& slot_count_of(s) == 0
    &&& free_start_of(s) == 0
    &&& free_end_of(s) == 0
}

/// The image of an empty page: `s` with a header for no slots.
pub open spec fn empty_image(s: Seq<u8>) -> Seq<u8> {
    put_u16(put_u16(put_u16(s, 0, 0), 2, SLOTTED_HEADER_SIZE as u16), 4, s.len() as u16)
}

// ---------------------------------------------------------------------------
// Lemmas on record lengths.
// ---------------------------------------------------------------------------

/// Free space after inserting a record that costs `cost` bytes (its length,
/// plus a directory entry when a new slot is made) into a page with `free`
/// bytes free and room for `capacity` after compaction: the page is compacted
/// first when the free area is too small.
pub open spec fn free_after(free: int, capacity: int, cost: int) -> int {
    if cost <= free {
        free - cost
    } else {
        capacity - cost
    }
}

/// The image of an empty page is consistent, holds no slots and has all but
/// its header free.
pub proof fn lemma_empty_image(s: Seq<u8>)
    requires
        SLOTTED_HEADER_SIZE <= s.len() <= MAX_SLOTTED_SIZE,
    ensures
        well_formed(empty_image(s)),
        slots_of(empty_image(s)) == Seq::<Option<Seq<u8>>>::empty(),
        empty_image(s).len() == s.len(),
        free_start_of(empty_image(s)) == SLOTTED_HEADER_SIZE,
        free_end_of(empty_image(s)) == s.len(),
{
    let e = empty_image(s);
    assert(slots_of(e) =~= Seq::<Option<Seq<u8>>>::empty());
    assert(total_len(slots_of(e)) == 0);
}

/// Appending a slot adds its record length to the total.
pub proof fn lemma_total_push(v: Seq<Option<Seq<u8>>>, x: Option<Seq<u8>>)
    ensures
        total_len(v.push(x)) == total_len(v) + opt_len(x),
{
    assert(v.push(x).drop_last() =~= v);
}

/// The total of a prefix grows by the length of the next slot.
pub proof fn lemma_total_take_step(v: Seq<Option<Seq<u8>>>, i: int)
    requires
        0 <= i < v.len(),
    ensures
        total_len(v.take(i + 1)) == total_len(v.take(i)) + opt_len(v[i]),
{
    assert(v.take(i + 1).drop_last() =~= v.take(i));
}

/// Sequences holding records of the same lengths hold the same total.
pub proof fn lemma_total_same_lengths(a: Seq<Option<Seq<u8>>>, b: Seq<Option<Seq<u8>>>)
    requires
        a.len() == b.len(),
        forall|i: int| 0 <= i < a.len() ==> opt_len(#[trigger] a[i]) == opt_len(b[i]),
    ensures
        total_len(a) == total_len(b),
    decreases a.len(),
{
    if a.len() > 0 {
        assert forall|i: int| 0 <= i < a.drop_last().len() implies opt_len(
            #[trigger] a.drop_last()[i],
        ) == opt_len(b.drop_last()[i]) by {
            assert(opt_len(a[i]) == opt_len(b[i]));
        }
        lemma_total_same_lengths(a.drop_last(), b.drop_last());
        assert(opt_len(a[a.len() - 1]) == opt_len(b[b.len() - 1]));
    }
}

/// Changing one slot changes the total by the difference of lengths.
pub proof fn lemma_total_update(v: Seq<Option<Seq<u8>>>, i: int, x: Option<Seq<u8>>)
    requires
        0 <= i < v.len(),
    ensures
        total_len(v.update(i, x)) + opt_len(v[i]) == total_len(v) + opt_len(x),
    decreases v.len(),
{
    let w = v.update(i, x);
    if i == v.len() - 1 {
        assert(w.drop_last() =~= v.drop_last());
    } else {
        assert(w.drop_last() =~= v.drop_last().update(i, x));
        lemma_total_update(v.drop_last(), i, x);
    }
}

/// The total of a prefix is at most the total.
pub proof fn lemma_total_take_le(v: Seq<Option<Seq<u8>>>, i: int)
    requires
        0 <= i <= v.len(),
    ensures
        total_len(v.take(i)) <= total_len(v),
    decreases v.len() - i,
{
    if i < v.len() {
        lemma_total_take_step(v, i);
        lemma_total_take_le(v, i + 1);
    } else {
        assert(v.take(i) =~= v);
    }
}

/// The slot found is empty and every slot before it holds a record.
pub proof fn lemma_first_deleted_from(v: Seq<Option<Seq<u8>>>, i: int)
    requires
        0 <= i <= v.len(),
    ensures
        match first_deleted_from(v, i) {
            Some(k) => i <= k < v.len() && v[k] is None && forall|j: int| i <= j < k ==> v[j] is Some,
            None => forall|j: int| i <= j < v.len() ==> v[j] is Some,
        },
    decreases v.len() - i,
{
    if i < v.len() {
        lemma_first_deleted_from(v, i + 1);
    }
}

/// A record fits into a page exactly when the page has room for it after
/// compaction.
pub proof fn lemma_capacity_bound(s: Seq<u8>)
    requires
        well_formed(s),
    ensures
        free_end_of(s) - free_start_of(s) <= capacity_of(slots_of(s), s.len() as int),
        capacity_of(slots_of(s), s.len() as int) >= 0,
{
}

// ---------------------------------------------------------------------------
// The page.
// ---------------------------------------------------------------------------

/// A page that stores variable-length records in numbered slots.
///
/// Records are addressed by slot number; the directory maps slots to payload
/// positions, so compaction moves payloads without changing slot numbers.
pub struct SlottedPage {
    data: Vec<u8>,
}

impl View for SlottedPage {
    type V = Seq<Option<Seq<u8>>>;

    closed spec fn view(&self) -> Seq<Option<Seq<u8>>> {
        slots_of(self.data@)
    }
}

impl SlottedPage {
    /// The page image.
    pub closed spec fn bytes(&self) -> Seq<u8> {
        self.data@
    }

    /// Size in bytes of the page image.
    pub closed spec fn size(&self) -> int {
        self.data@.len() as int
    }

    /// Whether the page image is consistent, or a never-written image whose
    /// header is all zero, which holds no slots.
    pub closed spec fn wf(&self) -> bool {
        well_formed(self.data@) || fresh_header(self.data@)
    }

    /// Bytes available for payloads and directory entries after compaction.
    pub open spec fn capacity(&self) -> int {
        capacity_of(self@, self.size())
    }

    /// Bytes between the directory and the payloads, as the header gives
    /// them: none when the header puts the end of the free area before its
    /// start.
    pub closed spec fn spec_free_space(&self) -> int {
        free_space_of(self.data@)
    }

    /// The view is read off the page image.
    pub proof fn lemma_view_of_bytes(&self)
        ensures
            self@ == slots_of(self.bytes()),
            self.size() == self.bytes().len(),
            self.wf() == (well_formed(self.bytes()) || fresh_header(self.bytes())),
            self.spec_free_space() == free_space_of(self.bytes()),
    {
    }

    fn read_u16(&self, offset: usize) -> (v: u16)
        requires
            offset + 1 < self.data@.len(),
            offset < MAX_SLOTTED_SIZE,
        ensures
            v as int == u16_at(self.data@, offset as int),
    {
        let lo = self.data[offset] as u16;
        let hi = self.data[offset + 1] as u16;
        lo + hi * 256
    }

    fn write_u16(&mut self, offset: usize, value: u16)
        requires
            offset + 1 < old(self).data@.len(),
            offset < MAX_SLOTTED_SIZE,
        ensures
            final(self).data@ == put_u16(old(self).data@, offset as int, value),
            u16_at(final(self).data@, offset as int) == value,
    {
        self.data.set(offset, (value % 256) as u8);
        self.data.set(offset + 1, (value / 256) as u8);
    }

    /// An empty page of `PAGE_SIZE` bytes.
    pub fn new() -> (page: Self)
        ensures
            page.wf(),
            page@ == Seq::<Option<Seq<u8>>>::empty(),
            page.size() == PAGE_SIZE,
            page.spec_free_space() == PAGE_SIZE - SLOTTED_HEADER_SIZE,
    {
        Self::with_size(PAGE_SIZE)
    }

    /// An empty page of `size` bytes.
    pub fn with_size(size: usize) -> (page: Self)
        requires
            SLOTTED_HEADER_SIZE <= size <= MAX_SLOTTED_SIZE,
        ensures
            page.wf(),
            page@ == Seq::<Option<Seq<u8>>>::empty(),
            page.size() == size,
            page.spec_free_space() == size - SLOTTED_HEADER_SIZE,
    {
        let mut page = SlottedPage { data: vec![0u8; size] };
        page.write_u16(0, 0);
        page.write_u16(2, SLOTTED_HEADER_SIZE as u16);
        page.write_u16(4, size as u16);
        assert(page@ =~= Seq::<Option<Seq<u8>>>::empty());
        assert(total_len(page@) == 0);
        page
    }

    /// Reads a page image; the page keeps every byte it is given, whatever
    /// they hold.
    ///
    /// Reading, writing and compacting records ask for a consistent image,
    /// which `is_consistent` tells. An image whose header is all zero counts
    /// as consistent: it holds no slots and no free space, and the first
    /// insertion gives it an empty page's header.
    pub fn from_bytes(data: Vec<u8>) -> (page: Self)
        requires
            SLOTTED_HEADER_SIZE <= data@.len() <= MAX_SLOTTED_SIZE,
        ensures
            page.bytes() == data@,
            page.size() == data@.len(),
            page.wf() == (well_formed(data@) || fresh_header(data@)),
            fresh_header(data@) ==> page@ == Seq::<Option<Seq<u8>>>::empty(),
    {
        let page = SlottedPage { data };
        proof {
            if fresh_header(page.data@) {
                assert(page@ =~= Seq::<Option<Seq<u8>>>::empty());
            }
        }
        page
    }

    /// Whether the image is a consistent slotted page, or one whose header is
    /// all zero.
    pub fn is_consistent(&self) -> (consistent: bool)
        requires
            SLOTTED_HEADER_SIZE <= self.size() <= MAX_SLOTTED_SIZE,
        ensures
            consistent == self.wf(),
    {
        self.is_fresh() || self.layout_is_valid()
    }

    /// Whether the header of the image is all zero.
    fn is_fresh(&self) -> (fresh: bool)
        requires
            SLOTTED_HEADER_SIZE <= self.data@.len() <= MAX_SLOTTED_SIZE,
        ensures
            fresh == fresh_header(self.data@),
    {
        self.read_u16(0) == 0 && self.read_u16(2) == 0 && self.read_u16(4) == 0
    }

    /// Gives a never-written image an empty page's header, with the free
    /// area from the end of the header to the end of the page; a consistent
    /// image is left as it is.
    fn settle_fresh(&mut self)
        requires
            old(self).wf(),
        ensures
            well_formed(final(self).data@),
            fresh_header(old(self).data@) ==> final(self).data@ == empty_image(old(self).data@),
            !fresh_header(old(self).data@) ==> final(self).data@ == old(self).data@,
            final(self)@ == old(self)@,
    {
        if self.is_fresh() {
            let ghost given = self.data@;
            let size = self.data.len();
            self.write_u16(2, SLOTTED_HEADER_SIZE as u16);
            self.write_u16(4, size as u16);
            proof {
                assert(put_u16(given, 0, 0) =~= given);
                assert(self.data@ =~= empty_image(given));
                lemma_empty_image(given);
                assert(self@ =~= Seq::<Option<Seq<u8>>>::empty());
            }
        }
    }

    /// Checks the layout of an image that is not fresh.
    fn layout_is_valid(&self) -> (valid: bool)
        requires
            SLOTTED_HEADER_SIZE <= self.data@.len() <= MAX_SLOTTED_SIZE,
        ensures
            valid == well_formed(self.data@),
    {
        let size = self.data.len();
        let ghost s = self.data@;
        let count = self.read_u16(0);
        let start = self.read_u16(2);
        let end = self.read_u16(4);
        if start as usize != SLOTTED_HEADER_SIZE + SLOT_SIZE * (count as usize) || start > end
            || end as usize > size {
            return false;
        }
        let mut total: usize = 0;
        let mut i: u16 = 0;
        while i < count
            invariant
                self.data@ == s,
                s.len() == size,
                SLOTTED_HEADER_SIZE <= size <= MAX_SLOTTED_SIZE,
                count as int == slot_count_of(s),
                start as int == free_start_of(s),
                end as int == free_end_of(s),
                start as int == entry_pos(count as int),
                start <= end <= size,
                0 <= i <= count,
                total as int == total_len(slots_of(s).take(i as int)),
                total <= (i as int) * 65535,
                forall|j: int|
                    0 <= j < i && #[trigger] slot_len_of(s, j) != 0 ==> {
                        &&& free_end_of(s) <= slot_offset_of(s, j)
                        &&& slot_offset_of(s, j) + slot_len_of(s, j) <= s.len()
                    },
            decreases count - i,
        {
            let pos = SLOTTED_HEADER_SIZE + SLOT_SIZE * (i as usize);
            let offset = self.read_u16(pos);
            let len = self.read_u16(pos + 2);
            assert(slot_len_of(s, i as int) == len);
            assert(slot_offset_of(s, i as int) == offset);
            if len != 0 && (offset < end || offset as usize + len as usize > size) {
                return false;
            }
            proof {
                lemma_total_take_step(slots_of(s), i as int);
            }
            total = total + len as usize;
            i = i + 1;
        }
        proof {
            assert(slots_of(s).take(count as int) =~= slots_of(s));
        }
        total <= size - end as usize
    }

    /// The page image.
    pub fn as_bytes(&self) -> (bytes: &[u8])
        ensures
            bytes@ == self.bytes(),
    {
        self.data.as_slice()
    }

    /// Number of slots, holding a record or not.
    pub fn slot_count(&self) -> (count: SlotId)
        requires
            SLOTTED_HEADER_SIZE <= self.size() <= MAX_SLOTTED_SIZE,
        ensures
            count == self@.len(),
            count == slot_count_of(self.bytes()),
    {
        self.read_u16(0)
    }

    /// Bytes between the slot directory and the payloads, as the header
    /// gives them; none when the header puts the end before the start.
    pub fn free_space(&self) -> (free: usize)
        requires
            SLOTTED_HEADER_SIZE <= self.size() <= MAX_SLOTTED_SIZE,
        ensures
            free == self.spec_free_space(),
            self.wf() ==> free <= self.capacity(),
    {
        let start = self.read_u16(2);
        let end = self.read_u16(4);
        if end >= start {
            (end - start) as usize
        } else {
            0
        }
    }

    fn find_deleted_slot(&self) -> (slot: Option<SlotId>)
        requires
            self.wf(),
        ensures
            match slot {
                Some(i) => first_deleted(self@) == Some(i as int),
                None => first_deleted(self@) is None,
            },
    {
        let count = self.read_u16(0);
        let mut i: u16 = 0;
        while i < count
            invariant
                self.wf(),
                count == self@.len(),
                0 <= i <= count,
                first_deleted(self@) == first_deleted_from(self@, i as int),
            decreases count - i,
        {
            let len = self.read_u16(SLOTTED_HEADER_SIZE + SLOT_SIZE * (i as usize) + 2);
            if len == 0 {
                return Some(i);
            }
            i = i + 1;
        }
        None
    }

    /// Copies `record` right below the payload area and lowers the end of the
    /// free area to its start.
    fn allocate_payload(&mut self, record: &[u8]) -> (offset: u16)
        requires
            old(self).wf(),
            record@.len() <= old(self).spec_free_space(),
        ensures
            offset == free_end_of(old(self).data@) - record@.len(),
            final(self).data@ == put_u16(
                overwrite(old(self).data@, offset as int, record@),
                4,
                offset,
            ),
    {
        let end = self.read_u16(4) as usize;
        let start = end - record.len();
        let ghost before = self.data@;
        let mut k: usize = 0;
        while k < record.len()
            invariant
                0 <= k <= record@.len(),
                start + record@.len() == end,
                end <= before.len(),
                self.data@.len() == before.len(),
                forall|j: int| 0 <= j < start ==> self.data@[j] == before[j],
                forall|j: int| start + k <= j < before.len() ==> self.data@[j] == before[j],
                forall|j: int| 0 <= j < k ==> self.data@[start + j] == record@[j],
            decreases record@.len() - k,
        {
            self.data.set(start + k, record[k]);
            k = k + 1;
        }
        assert(self.data@ =~= overwrite(before, start as int, record@));
        self.write_u16(4, start as u16);
        start as u16
    }

    /// Stores `record` in the first slot that holds no record, or else in a
    /// new slot, compacting the page first when the free area is too small.
    ///
    /// A never-written image (all-zero header) is first given an empty page's
    /// header, so its free area starts right after the header: payloads never
    /// overlap the header or the directory, and a record longer than the page
    /// size less the header and one directory entry (4086 bytes on a page of
    /// `PAGE_SIZE`) gets `NoSpace`.
    pub fn insert(&mut self, record: &[u8]) -> (result: Result<SlotId, SlottedPageError>)
        requires
            old(self).wf(),
        ensures
            final(self).wf(),
            final(self).size() == old(self).size(),
            match result {
                Ok(slot) => {
                    &&& record@.len() <= u16::MAX
                    &&& insert_fits(old(self)@, old(self).size(), record@.len() as int)
                    &&& final(self).spec_free_space() == free_after(
                        old(self).spec_free_space(),
                        old(self).capacity(),
                        if first_deleted(old(self)@) is Some {
                            record@.len() as int
                        } else {
                            record@.len() + SLOT_SIZE
                        },
                    )
                    &&& match first_deleted(old(self)@) {
                        Some(i) => slot == i && final(self)@ == old(self)@.update(
                            i,
                            record_slot(record@),
                        ),
                        None => slot == old(self)@.len() && final(self)@ == old(self)@.push(
                            record_slot(record@),
                        ),
                    }
                },
                Err(SlottedPageError::RecordTooLarge) => {
                    &&& record@.len() > u16::MAX
                    &&& final(self).bytes() == old(self).bytes()
                },
                Err(SlottedPageError::NoSpace) => {
                    &&& record@.len() <= u16::MAX
                    &&& !insert_fits(old(self)@, old(self).size(), record@.len() as int)
                    &&& final(self)@ == old(self)@
                },
                Err(_) => false,
            },
    {
        if record.len() > u16::MAX as usize {
            return Err(SlottedPageError::RecordTooLarge);
        }
        self.settle_fresh();
        proof {
            lemma_first_deleted_from(self@, 0);
        }
        match self.find_deleted_slot() {
            Some(slot_id) => self.insert_reusing(record, slot_id),
            None => self.insert_appending(record),
        }
    }

    #[verifier::spinoff_prover]
    #[verifier::rlimit(40)]
    fn insert_reusing(&mut self, record: &[u8], slot_id: SlotId) -> (result: Result<
        SlotId,
        SlottedPageError,
    >)
        requires
            well_formed(old(self).data@),
            record@.len() <= u16::MAX,
            first_deleted(old(self)@) == Some(slot_id as int),
        ensures
            final(self).wf(),
            final(self).size() == old(self).size(),
            match result {
                Ok(slot) => {
                    &&& slot == slot_id
                    &&& record@.len() <= capacity_of(old(self)@, old(self).size())
                    &&& final(self)@ == old(self)@.update(slot_id as int, record_slot(record@))
                    &&& final(self).spec_free_space() == free_after(
                        old(self).spec_free_space(),
                        old(self).capacity(),
                        record@.len() as int,
                    )
                },
                Err(SlottedPageError::NoSpace) => {
                    &&& record@.len() > capacity_of(old(self)@, old(self).size())
                    &&& final(self)@ == old(self)@
                },
                Err(_) => false,
            },
    {
        proof {
            lemma_capacity_bound(self.data@);
            lemma_first_deleted_from(self@, 0);
        }
        if record.len() > self.free_space() {
            self.compact();
        }
        if record.len() > self.free_space() {
            return Err(SlottedPageError::NoSpace);
        }
        proof {
            lemma_capacity_bound(self.data@);
        }
        let ghost s1 = self.data@;
        let offset = self.allocate_payload(record);
        let ghost s2 = self.data@;
        self.write_slot(slot_id, offset, record.len() as u16);
        proof {
            self.lemma_after_payload(s1, s2, record@, offset as int, slot_id as int);
        }
        Ok(slot_id)
    }

    #[verifier::spinoff_prover]
    #[verifier::rlimit(40)]
    fn insert_appending(&mut self, record: &[u8]) -> (result: Result<SlotId, SlottedPageError>)
        requires
            well_formed(old(self).data@),
            record@.len() <= u16::MAX,
            first_deleted(old(self)@) is None,
        ensures
            final(self).wf(),
            final(self).size() == old(self).size(),
            match result {
                Ok(slot) => {
                    &&& slot == old(self)@.len()
                    &&& record@.len() + SLOT_SIZE <= capacity_of(old(self)@, old(self).size())
                    &&& final(self)@ == old(self)@.push(record_slot(record@))
                    &&& final(self).spec_free_space() == free_after(
                        old(self).spec_free_space(),
                        old(self).capacity(),
                        record@.len() + SLOT_SIZE,
                    )
                },
                Err(SlottedPageError::NoSpace) => {
                    &&& record@.len() + SLOT_SIZE > capacity_of(old(self)@, old(self).size())
                    &&& final(self)@ == old(self)@
                },
                Err(_) => false,
            },
    {
        proof {
            lemma_capacity_bound(self.data@);
        }
        let required = record.len() + SLOT_SIZE;
        if required > self.free_space() {
            self.compact();
        }
        if required > self.free_space() {
            return Err(SlottedPageError::NoSpace);
        }
        proof {
            lemma_capacity_bound(self.data@);
        }
        let slot_id = self.read_u16(0);
        let ghost s1 = self.data@;
        let offset = self.allocate_payload(record);
        let ghost s2 = self.data@;
        self.write_u16(0, slot_id + 1);
        let ghost s3 = self.data@;
        self.write_u16(2, (SLOTTED_HEADER_SIZE + SLOT_SIZE * (slot_id as usize + 1)) as u16);
        let ghost s4 = self.data@;
        self.write_slot(slot_id, offset, record.len() as u16);
        proof {
            self.lemma_after_append(s1, s2, s3, s4, record@, offset as int);
        }
        Ok(slot_id)
    }

    proof fn lemma_after_payload(
        &self,
        s1: Seq<u8>,
        s2: Seq<u8>,
        record: Seq<u8>,
        offset: int,
        slot: int,
    )
        requires
            well_formed(s1),
            0 <= slot < slot_count_of(s1),
            slots_of(s1)[slot] is None,
            record.len() <= free_end_of(s1) - free_start_of(s1),
            offset == free_end_of(s1) - record.len(),
            s2 == put_u16(overwrite(s1, offset, record), 4, offset as u16),
            self.data@ == put_u16(put_u16(s2, entry_pos(slot), offset as u16), entry_pos(slot) + 2, record.len() as u16),
        ensures
            well_formed(self.data@),
            slots_of(self.data@) == slots_of(s1).update(slot, record_slot(record)),
            free_start_of(self.data@) == free_start_of(s1),
            free_end_of(self.data@) == offset,
    {
        let s = self.data@;
        let v1 = slots_of(s1);
        assert(slot_count_of(s) == slot_count_of(s1));
        assert(free_start_of(s) == free_start_of(s1));
        assert(free_end_of(s) == offset);
        assert(slot_offset_of(s, slot) == offset);
        assert(slot_len_of(s, slot) == record.len());
        assert forall|i: int| 0 <= i < slot_count_of(s1) && i != slot implies
            slot_offset_of(s, i) == slot_offset_of(s1, i) && slot_len_of(s, i) == slot_len_of(s1, i)
        by {
        }
        assert forall|i: int| 0 <= i < slot_count_of(s1) && i != slot implies
            #[trigger] slot_of(s, i) == slot_of(s1, i)
        by {
            if slot_len_of(s1, i) != 0 {
                assert(s.subrange(slot_offset_of(s1, i), slot_offset_of(s1, i) + slot_len_of(s1, i))
                    =~= s1.subrange(slot_offset_of(s1, i), slot_offset_of(s1, i) + slot_len_of(s1, i)));
            }
        }
        if record.len() != 0 {
            assert(s.subrange(offset, offset + record.len()) =~= record);
        }
        assert(slots_of(s) =~= v1.update(slot, record_slot(record)));
        lemma_total_update(v1, slot, record_slot(record));
    }

    #[verifier::spinoff_prover]
    #[verifier::rlimit(40)]
    proof fn lemma_after_append(
        &self,
        s1: Seq<u8>,
        s2: Seq<u8>,
        s3: Seq<u8>,
        s4: Seq<u8>,
        record: Seq<u8>,
        offset: int,
    )
        requires
            well_formed(s1),
            slot_count_of(s1) < u16::MAX,
            record.len() + SLOT_SIZE <= free_end_of(s1) - free_start_of(s1),
            offset == free_end_of(s1) - record.len(),
            s2 == put_u16(overwrite(s1, offset, record), 4, offset as u16),
            s3 == put_u16(s2, 0, (slot_count_of(s1) + 1) as u16),
            s4 == put_u16(s3, 2, (entry_pos(slot_count_of(s1) + 1)) as u16),
            self.data@ == put_u16(
                put_u16(s4, entry_pos(slot_count_of(s1)), offset as u16),
                entry_pos(slot_count_of(s1)) + 2,
                record.len() as u16,
            ),
        ensures
            well_formed(self.data@),
            slots_of(self.data@) == slots_of(s1).push(record_slot(record)),
            free_start_of(self.data@) == free_start_of(s1) + SLOT_SIZE,
            free_end_of(self.data@) == offset,
    {
        let s = self.data@;
        let n = slot_count_of(s1);
        let v1 = slots_of(s1);
        assert(slot_count_of(s) == n + 1);
        assert(free_start_of(s) == entry_pos(n + 1));
        assert(free_end_of(s) == offset);
        assert(slot_offset_of(s, n) == offset);
        assert(slot_len_of(s, n) == record.len());
        assert forall|i: int| 0 <= i < n implies
            slot_offset_of(s, i) == slot_offset_of(s1, i) && slot_len_of(s, i) == slot_len_of(s1, i)
        by {
        }
        assert forall|i: int| 0 <= i < n implies #[trigger] slot_of(s, i) == slot_of(s1, i) by {
            if slot_len_of(s1, i) != 0 {
                assert(s.subrange(slot_offset_of(s1, i), slot_offset_of(s1, i) + slot_len_of(s1, i))
                    =~= s1.subrange(slot_offset_of(s1, i), slot_offset_of(s1, i) + slot_len_of(s1, i)));
            }
        }
        if record.len() != 0 {
            assert(s.subrange(offset, offset + record.len()) =~= record);
        }
        assert(slots_of(s) =~= v1.push(record_slot(record)));
        lemma_total_push(v1, record_slot(record));
    }

    fn write_slot(&mut self, slot_id: SlotId, offset: u16, len: u16)
        requires
            entry_pos(slot_id as int) + SLOT_SIZE <= old(self).data@.len(),
            old(self).data@.len() <= MAX_SLOTTED_SIZE,
        ensures
            final(self).data@ == put_u16(
                put_u16(old(self).data@, entry_pos(slot_id as int), offset),
                entry_pos(slot_id as int) + 2,
                len,
            ),
    {
        let pos = SLOTTED_HEADER_SIZE + SLOT_SIZE * (slot_id as usize);
        self.write_u16(pos, offset);
        self.write_u16(pos + 2, len);
    }

    /// The record held by `slot_id`.
    pub fn get(&self, slot_id: SlotId) -> (result: Result<&[u8], SlottedPageError>)
        requires
            self.wf(),
        ensures
            match result {
                Ok(bytes) => slot_id < self@.len() && self@[slot_id as int] == Some(bytes@),
                Err(SlottedPageError::InvalidSlot) => slot_id >= self@.len(),
                Err(SlottedPageError::Deleted) => slot_id < self@.len() && self@[slot_id
                    as int] is None,
                Err(_) => false,
            },
    {
        let count = self.read_u16(0);
        if slot_id >= count {
            return Err(SlottedPageError::InvalidSlot);
        }
        let pos = SLOTTED_HEADER_SIZE + SLOT_SIZE * (slot_id as usize);
        let offset = self.read_u16(pos) as usize;
        let len = self.read_u16(pos + 2) as usize;
        if len == 0 {
            return Err(SlottedPageError::Deleted);
        }
        assert(slot_len_of(self.data@, slot_id as int) != 0);
        Ok(slice_subrange(self.data.as_slice(), offset, offset + len))
    }

    /// Removes the record held by `slot_id`; the slot stays, holding nothing.
    pub fn delete(&mut self, slot_id: SlotId) -> (result: Result<(), SlottedPageError>)
        requires
            old(self).wf(),
        ensures
            final(self).wf(),
            final(self).size() == old(self).size(),
            match result {
                Ok(()) => slot_id < old(self)@.len() && old(self)@[slot_id as int] is Some
                    && final(self)@ == old(self)@.update(slot_id as int, None),
                Err(SlottedPageError::InvalidSlot) => slot_id >= old(self)@.len()
                    && final(self).bytes() == old(self).bytes(),
                Err(SlottedPageError::Deleted) => slot_id < old(self)@.len() && old(
                    self,
                )@[slot_id as int] is None && final(self).bytes() == old(self).bytes(),
                Err(_) => false,
            },
    {
        let count = self.read_u16(0);
        if slot_id >= count {
            return Err(SlottedPageError::InvalidSlot);
        }
        let pos = SLOTTED_HEADER_SIZE + SLOT_SIZE * (slot_id as usize);
        let len = self.read_u16(pos + 2);
        if len == 0 {
            return Err(SlottedPageError::Deleted);
        }
        let ghost s1 = self.data@;
        self.write_u16(pos + 2, 0);
        proof {
            let s = self.data@;
            let v1 = slots_of(s1);
            let i0 = slot_id as int;
            assert forall|i: int| 0 <= i < slot_count_of(s1) && i != i0 implies
                slot_offset_of(s, i) == slot_offset_of(s1, i) && slot_len_of(s, i)
                    == slot_len_of(s1, i)
            by {
            }
            assert forall|i: int| 0 <= i < slot_count_of(s1) && i != i0 implies #[trigger] slot_of(
                s,
                i,
            ) == slot_of(s1, i) by {
                if slot_len_of(s1, i) != 0 {
                    assert(s.subrange(
                        slot_offset_of(s1, i),
                        slot_offset_of(s1, i) + slot_len_of(s1, i),
                    ) =~= s1.subrange(
                        slot_offset_of(s1, i),
                        slot_offset_of(s1, i) + slot_len_of(s1, i),
                    ));
                }
            }
            assert(slots_of(s) =~= v1.update(i0, None));
            lemma_total_update(v1, i0, None);
        }
        Ok(())
    }

    /// Overwrites the record held by `slot_id` with `record` of the same
    /// length, in place; the slot keeps its number and position.
    ///
    /// A record of another length does not fit the slot: `NoSpace`.
    pub fn replace(&mut self, slot_id: SlotId, record: &[u8]) -> (result: Result<
        (),
        SlottedPageError,
    >)
        requires
            old(self).wf(),
        ensures
            final(self).wf(),
            final(self).size() == old(self).size(),
            match result {
                Ok(()) => {
                    &&& slot_id < old(self)@.len()
                    &&& old(self)@[slot_id as int] matches Some(previous) && previous.len()
                        == record@.len()
                    &&& final(self).bytes() == overwrite(
                        old(self).bytes(),
                        slot_offset_of(old(self).bytes(), slot_id as int),
                        record@,
                    )
                    &&& final(self)@.len() == old(self)@.len()
                    &&& final(self)@[slot_id as int] == Some(record@)
                    &&& forall|i: int|
                        0 <= i < final(self)@.len() ==> opt_len(#[trigger] final(self)@[i])
                            == opt_len(old(self)@[i])
                },
                Err(SlottedPageError::InvalidSlot) => slot_id >= old(self)@.len()
                    && final(self).bytes() == old(self).bytes(),
                Err(SlottedPageError::Deleted) => slot_id < old(self)@.len() && old(
                    self,
                )@[slot_id as int] is None && final(self).bytes() == old(self).bytes(),
                Err(SlottedPageError::NoSpace) => {
                    &&& slot_id < old(self)@.len()
                    &&& old(self)@[slot_id as int] matches Some(previous) && previous.len()
                        != record@.len()
                    &&& final(self).bytes() == old(self).bytes()
                },
                Err(_) => false,
            },
    {
        let count = self.read_u16(0);
        if slot_id >= count {
            return Err(SlottedPageError::InvalidSlot);
        }
        let pos = SLOTTED_HEADER_SIZE + SLOT_SIZE * (slot_id as usize);
        let offset = self.read_u16(pos) as usize;
        let len = self.read_u16(pos + 2) as usize;
        if len == 0 {
            return Err(SlottedPageError::Deleted);
        }
        if len != record.len() {
            return Err(SlottedPageError::NoSpace);
        }
        let ghost s1 = self.data@;
        proof {
            assert(slot_len_of(s1, slot_id as int) != 0);
        }
        let mut k: usize = 0;
        while k < len
            invariant
                k <= len,
                len == record@.len(),
                offset + len <= s1.len(),
                s1.len() <= MAX_SLOTTED_SIZE,
                self.data@.len() == s1.len(),
                forall|j: int| 0 <= j < offset ==> self.data@[j] == s1[j],
                forall|j: int| offset + k <= j < s1.len() ==> self.data@[j] == s1[j],
                forall|j: int| 0 <= j < k ==> self.data@[offset + j] == record@[j],
            decreases len - k,
        {
            self.data.set(offset + k, record[k]);
            k = k + 1;
        }
        proof {
            let s = self.data@;
            assert(s =~= overwrite(s1, offset as int, record@));
            let n = slot_count_of(s1);
            assert(free_end_of(s1) <= offset);
            assert(u16_at(s, 0) == u16_at(s1, 0));
            assert(u16_at(s, 2) == u16_at(s1, 2));
            assert(u16_at(s, 4) == u16_at(s1, 4));
            assert forall|i: int| 0 <= i < n implies slot_offset_of(s, i) == slot_offset_of(s1, i)
                && slot_len_of(s, i) == slot_len_of(s1, i) by {
                assert(entry_pos(i) + 3 < free_start_of(s1));
            }
            assert forall|i: int| 0 <= i < n implies opt_len(#[trigger] slots_of(s)[i]) == opt_len(
                slots_of(s1)[i],
            ) by {
                assert(slot_len_of(s, i) == slot_len_of(s1, i));
            }
            lemma_total_same_lengths(slots_of(s), slots_of(s1));
            assert(s.subrange(offset as int, offset + len) =~= record@);
        }
        Ok(())
    }

    /// Moves every record to the end of the page so that the free area is
    /// as large as the records allow. Slot numbers and contents are kept.
    ///
    /// Records are packed from the end of the page in slot order, so that
    /// the image becomes `compacted` of the old one; a never-written image
    /// gets an empty page's header.
    pub fn compact(&mut self)
        requires
            old(self).wf(),
        ensures
            final(self).wf(),
            final(self).size() == old(self).size(),
            final(self)@ == old(self)@,
            final(self).spec_free_space() == final(self).capacity(),
            final(self).bytes() == compacted(old(self).bytes()),
            is_compact(final(self).bytes()),
    {
        if self.is_fresh() {
            let ghost given = self.data@;
            self.settle_fresh();
            proof {
                lemma_empty_image(given);
                assert(self.data@ == compacted(given));
                let e = self.data@;
                assert(slots_of(e) =~= Seq::<Option<Seq<u8>>>::empty());
                assert(is_compact(e));
            }
            return;
        }
        let ghost s0 = self.data@;
        let ghost v0 = slots_of(s0);
        let count = self.read_u16(0);
        let snapshot = slice_to_vec(self.data.as_slice());
        let size = self.data.len();
        let mut end: usize = size;
        proof {
            lemma_total_take_le(v0, 0);
            assert(v0.take(0) =~= Seq::<Option<Seq<u8>>>::empty());
        }
        let mut i: u16 = 0;
        while i < count
            invariant
                snapshot@ == s0,
                well_formed(s0),
                v0 == slots_of(s0),
                count as int == slot_count_of(s0),
                size == s0.len(),
                0 <= i <= count,
                end as int == size - total_len(v0.take(i as int)),
                free_start_of(s0) <= end <= size,
                compact_inv(self.data@, s0, i as int, end as int),
                self.data@ == compact_prefix(s0, i as int),
                forall|j: int|
                    0 <= j < i && slot_len_of(s0, j) != 0 ==> #[trigger] slot_offset_of(
                        self.data@,
                        j,
                    ) == size - total_len(v0.take(j + 1)),
            decreases count - i,
        {
            let pos = SLOTTED_HEADER_SIZE + SLOT_SIZE * (i as usize);
            let len = self.read_u16(pos + 2) as usize;
            proof {
                lemma_total_take_step(v0, i as int);
                lemma_total_take_le(v0, i as int + 1);
                assert(slot_len_of(self.data@, i as int) == len);
                assert(slot_len_of(s0, i as int) == len);
                assert(v0[i as int] == slot_of(s0, i as int));
            }
            if len != 0 {
                let offset = self.read_u16(pos) as usize;
                proof {
                    assert(slot_offset_of(self.data@, i as int) == offset);
                    assert(slot_offset_of(s0, i as int) == offset);
                    assert(opt_len(v0[i as int]) == len);
                }
                let new_end = end - len;
                let ghost before = self.data@;
                let mut k: usize = 0;
                while k < len
                    invariant
                        snapshot@ == s0,
                        0 <= k <= len,
                        new_end + len == end,
                        end <= size,
                        offset + len <= size,
                        size == s0.len(),
                        self.data@.len() == size,
                        before.len() == size,
                        forall|j: int| 0 <= j < new_end ==> self.data@[j] == before[j],
                        forall|j: int| new_end + k <= j < size ==> self.data@[j] == before[j],
                        forall|j: int|
                            new_end <= j < new_end + k ==> #[trigger] self.data@[j] == s0[offset
                                + (j - new_end)],
                    decreases len - k,
                {
                    self.data.set(new_end + k, snapshot[offset + k]);
                    k = k + 1;
                }
                let ghost mid = self.data@;
                proof {
                    assert(mid =~= overwrite(
                        before,
                        new_end as int,
                        s0.subrange(offset as int, offset + len),
                    ));
                }
                self.write_slot(i, new_end as u16, len as u16);
                proof {
                    lemma_compact_step(
                        before,
                        mid,
                        self.data@,
                        s0,
                        i as int,
                        end as int,
                        new_end as int,
                        offset as int,
                        len as int,
                    );
                    let n = slot_count_of(s0);
                    assert(entry_pos(n) == free_start_of(s0));
                    lemma_entries_kept(
                        before,
                        mid,
                        self.data@,
                        i as int,
                        n,
                        new_end as int,
                        new_end as u16,
                        len as u16,
                    );
                    assert forall|j: int|
                        0 <= j < i + 1 && slot_len_of(s0, j) != 0 implies #[trigger] slot_offset_of(
                        self.data@,
                        j,
                    ) == size - total_len(v0.take(j + 1)) by {
                        if j < i {
                            assert(slot_offset_of(self.data@, j) == slot_offset_of(before, j));
                        }
                    }
                }
                end = new_end;
            } else {
                proof {
                    assert(opt_len(v0[i as int]) == 0);
                    lemma_compact_skip(self.data@, s0, i as int, end as int);
                }
            }
            i = i + 1;
        }
        let ghost s_last = self.data@;
        self.write_u16(4, end as u16);
        proof {
            assert(v0.take(count as int) =~= v0);
            lemma_compact_done(s_last, self.data@, s0, end as int);
            assert(self.data@ == compacted(s0));
            let s = self.data@;
            assert forall|j: int|
                0 <= j < slot_count_of(s) && slot_len_of(s, j) != 0 implies #[trigger] slot_offset_of(
                s,
                j,
            ) == s.len() - total_len(slots_of(s).take(j + 1)) by {
                assert(slot_len_of(s_last, j) == slot_len_of(s0, j));
                assert(slot_offset_of(s, j) == slot_offset_of(s_last, j));
                assert(slot_len_of(s, j) == slot_len_of(s_last, j));
            }
            assert(is_compact(s));
        }
    }
}

/// The image after packing the payloads of the first `i` slots of `s0` from
/// the end of the page, in slot order.
pub open spec fn compact_prefix(s0: Seq<u8>, i: int) -> Seq<u8>
    decreases i,
{
    if i <= 0 {
        s0
    } else {
        let prev = compact_prefix(s0, i - 1);
        let len = slot_len_of(s0, i - 1);
        if len == 0 {
            prev
        } else {
            let new_end = s0.len() - total_len(slots_of(s0).take(i - 1)) - len;
            let off = slot_offset_of(s0, i - 1);
            put_u16(
                put_u16(
                    overwrite(prev, new_end, s0.subrange(off, off + len)),
                    entry_pos(i - 1),
                    new_end as u16,
                ),
                entry_pos(i - 1) + 2,
                len as u16,
            )
        }
    }
}

/// The image that compaction makes of `s`: each record is moved, in slot
/// order, right below the previous one, starting from the end of the page;
/// its directory entry points there, empty slots keep their entries, other
/// bytes stay, and the free area ends at the last record placed. A
/// never-written image gets an empty page's header.
pub open spec fn compacted(s: Seq<u8>) -> Seq<u8> {
    if fresh_header(s) {
        empty_image(s)
    } else {
        put_u16(
            compact_prefix(s, slot_count_of(s)),
            4,
            (s.len() - total_len(slots_of(s))) as u16,
        )
    }
}

/// Whether the records of `s` are packed at the end of the page in slot
/// order, as compaction leaves them.
pub open spec fn is_compact(s: Seq<u8>) -> bool {
    &&& well_formed(s)
    &&& free_end_of(s) == s.len() - total_len(slots_of(s))
    &&& forall|j: int|
        0 <= j < slot_count_of(s) && slot_len_of(s, j) != 0 ==> #[trigger] slot_offset_of(s, j)
            == s.len() - total_len(slots_of(s).take(j + 1))
}

/// Storing the value a position already holds changes nothing.
proof fn lemma_put_u16_same(s: Seq<u8>, o: int, v: u16)
    requires
        0 <= o,
        o + 1 < s.len(),
        u16_at(s, o) == v,
    ensures
        put_u16(s, o, v) == s,
{
    let a = s[o] as int;
    let b = s[o + 1] as int;
    assert(0 <= a < 256 && 0 <= b < 256);
    assert((a + 256 * b) % 256 == a && (a + 256 * b) / 256 == b) by (nonlinear_arith)
        requires
            0 <= a < 256,
            0 <= b < 256,
    ;
    assert(put_u16(s, o, v) =~= s);
}

proof fn lemma_compact_prefix_fixed(s: Seq<u8>, i: int)
    requires
        is_compact(s),
        0 <= i <= slot_count_of(s),
    ensures
        compact_prefix(s, i) == s,
    decreases i,
{
    if i > 0 {
        lemma_compact_prefix_fixed(s, i - 1);
        let len = slot_len_of(s, i - 1);
        if len != 0 {
            let v = slots_of(s);
            lemma_total_take_step(v, i - 1);
            assert(v[i - 1] == slot_of(s, i - 1));
            let off = slot_offset_of(s, i - 1);
            assert(opt_len(v[i - 1]) == len);
            let new_end = s.len() - total_len(v.take(i - 1)) - len;
            assert(new_end == off);
            assert(overwrite(s, new_end, s.subrange(off, off + len)) =~= s);
            assert(entry_pos(i - 1) + 3 < free_start_of(s));
            lemma_put_u16_same(s, entry_pos(i - 1), new_end as u16);
            lemma_put_u16_same(s, entry_pos(i - 1) + 2, len as u16);
        }
    }
}

/// Compaction is idempotent: an image that compaction left, or any image
/// whose records are already packed in slot order at the end of the page,
/// is left exactly as it is by compacting again.
pub proof fn lemma_compacted_fixed(s: Seq<u8>)
    requires
        is_compact(s),
    ensures
        compacted(s) == s,
{
    lemma_compact_prefix_fixed(s, slot_count_of(s));
    lemma_put_u16_same(s, 4, (s.len() - total_len(slots_of(s))) as u16);
}

/// What compaction has established after handling the slots below `i`, with
/// the payloads placed so far starting at `end`.
pub open spec fn compact_inv(s: Seq<u8>, s0: Seq<u8>, i: int, end: int) -> bool {
    &&& s.len() == s0.len()
    &&& forall|k: int| 0 <= k < SLOTTED_HEADER_SIZE ==> #[trigger] s[k] == s0[k]
    &&& forall|j: int|
        0 <= j < slot_count_of(s0) ==> #[trigger] slot_len_of(s, j) == slot_len_of(s0, j)
    &&& forall|j: int|
        i <= j < slot_count_of(s0) ==> #[trigger] slot_offset_of(s, j) == slot_offset_of(s0, j)
    &&& forall|j: int| 0 <= j < i ==> #[trigger] slot_of(s, j) == slot_of(s0, j)
    &&& forall|j: int|
        0 <= j < i && slot_len_of(s0, j) != 0 ==> end <= #[trigger] slot_offset_of(s, j)
            && slot_offset_of(s, j) + slot_len_of(s0, j) <= s.len()
}

proof fn lemma_compact_skip(s: Seq<u8>, s0: Seq<u8>, i: int, end: int)
    requires
        well_formed(s0),
        0 <= i < slot_count_of(s0),
        slot_len_of(s0, i) == 0,
        compact_inv(s, s0, i, end),
    ensures
        compact_inv(s, s0, i + 1, end),
{
    assert(slot_len_of(s, i) == slot_len_of(s0, i));
    assert(slot_of(s, i) == slot_of(s0, i));
}

proof fn lemma_entries_kept(before: Seq<u8>, mid: Seq<u8>, s: Seq<u8>, i: int, n: int, low: int, off: u16, len: u16)
    requires
        0 <= i < n,
        entry_pos(n) <= low,
        low <= mid.len(),
        mid.len() == before.len(),
        forall|j: int| 0 <= j < low ==> mid[j] == before[j],
        s == put_u16(put_u16(mid, entry_pos(i), off), entry_pos(i) + 2, len),
    ensures
        forall|j: int|
            0 <= j < n && j != i ==> #[trigger] slot_offset_of(s, j) == slot_offset_of(before, j)
                && slot_len_of(s, j) == slot_len_of(before, j),
        forall|j: int|
            0 <= j < n && j != i ==> #[trigger] slot_len_of(s, j) == slot_len_of(before, j),
        slot_offset_of(s, i) == off,
        slot_len_of(s, i) == len,
        forall|k: int| 0 <= k < SLOTTED_HEADER_SIZE ==> #[trigger] s[k] == before[k],
{
    assert forall|j: int| 0 <= j < n && j != i implies #[trigger] slot_offset_of(s, j)
        == slot_offset_of(before, j) && slot_len_of(s, j) == slot_len_of(before, j) by {
        assert(entry_pos(j) + 4 <= entry_pos(n));
    }
    assert forall|j: int| 0 <= j < n && j != i implies #[trigger] slot_len_of(s, j)
        == slot_len_of(before, j) by {
        assert(entry_pos(j) + 4 <= entry_pos(n));
    }
}

proof fn lemma_compact_step(
    before: Seq<u8>,
    mid: Seq<u8>,
    s: Seq<u8>,
    s0: Seq<u8>,
    i: int,
    end: int,
    new_end: int,
    offset: int,
    len: int,
)
    requires
        well_formed(s0),
        0 <= i < slot_count_of(s0),
        compact_inv(before, s0, i, end),
        len == slot_len_of(s0, i),
        len != 0,
        offset == slot_offset_of(s0, i),
        offset + len <= s0.len(),
        new_end + len == end,
        free_start_of(s0) <= new_end,
        end <= s0.len(),
        mid.len() == s0.len(),
        forall|j: int| 0 <= j < new_end ==> mid[j] == before[j],
        forall|j: int| end <= j < s0.len() ==> mid[j] == before[j],
        forall|j: int| new_end <= j < end ==> #[trigger] mid[j] == s0[offset + (j - new_end)],
        s == put_u16(put_u16(mid, entry_pos(i), new_end as u16), entry_pos(i) + 2, len as u16),
    ensures
        compact_inv(s, s0, i + 1, new_end),
{
    let n = slot_count_of(s0);
    assert(entry_pos(n) == free_start_of(s0));
    lemma_entries_kept(before, mid, s, i, n, new_end, new_end as u16, len as u16);
    assert forall|k: int| 0 <= k < SLOTTED_HEADER_SIZE implies #[trigger] s[k] == s0[k] by {
        assert(before[k] == s0[k]);
    }
    assert forall|j: int| 0 <= j < n implies #[trigger] slot_len_of(s, j) == slot_len_of(s0, j) by {
        assert(slot_len_of(before, j) == slot_len_of(s0, j));
    }
    assert forall|j: int| i + 1 <= j < n implies #[trigger] slot_offset_of(s, j) == slot_offset_of(
        s0,
        j,
    ) by {
        assert(slot_offset_of(before, j) == slot_offset_of(s0, j));
        assert(slot_offset_of(s, j) == slot_offset_of(before, j));
    }
    assert(s.subrange(new_end, new_end + len) =~= s0.subrange(offset, offset + len));
    assert(slot_of(s, i) == slot_of(s0, i));
    assert forall|j: int| 0 <= j < i + 1 implies #[trigger] slot_of(s, j) == slot_of(s0, j) by {
        if j < i {
            assert(slot_of(before, j) == slot_of(s0, j));
            assert(slot_len_of(s, j) == slot_len_of(before, j));
            assert(slot_offset_of(s, j) == slot_offset_of(before, j));
            if slot_len_of(s0, j) != 0 {
                assert(end <= slot_offset_of(before, j));
                assert(s.subrange(slot_offset_of(s, j), slot_offset_of(s, j) + slot_len_of(s, j))
                    =~= before.subrange(
                    slot_offset_of(before, j),
                    slot_offset_of(before, j) + slot_len_of(before, j),
                ));
            }
        }
    }
    assert forall|j: int| 0 <= j < i + 1 && slot_len_of(s0, j) != 0 implies new_end
        <= #[trigger] slot_offset_of(s, j) && slot_offset_of(s, j) + slot_len_of(s0, j)
        <= s.len() by {
        if j < i {
            assert(slot_offset_of(s, j) == slot_offset_of(before, j));
            assert(end <= slot_offset_of(before, j));
        }
    }
}

proof fn lemma_compact_done(s_last: Seq<u8>, s: Seq<u8>, s0: Seq<u8>, end: int)
    requires
        well_formed(s0),
        compact_inv(s_last, s0, slot_count_of(s0), end),
        end == s0.len() - total_len(slots_of(s0)),
        free_start_of(s0) <= end <= s0.len(),
        s == put_u16(s_last, 4, end as u16),
    ensures
        well_formed(s),
        slots_of(s) == slots_of(s0),
        free_end_of(s) == end,
        free_start_of(s) == free_start_of(s0),
{
    let n = slot_count_of(s0);
    assert(s_last[0] == s0[0] && s_last[1] == s0[1] && s_last[2] == s0[2] && s_last[3] == s0[3]);
    assert(slot_count_of(s) == n);
    assert(free_start_of(s) == free_start_of(s0));
    assert(free_end_of(s) == end);
    assert forall|j: int| 0 <= j < n implies #[trigger] slot_of(s, j) == slot_of(s0, j) by {
        assert(slot_of(s_last, j) == slot_of(s0, j));
        assert(slot_len_of(s_last, j) == slot_len_of(s0, j));
        assert(slot_len_of(s, j) == slot_len_of(s_last, j));
        assert(slot_offset_of(s, j) == slot_offset_of(s_last, j));
        if slot_len_of(s0, j) != 0 {
            assert(end <= slot_offset_of(s_last, j));
            assert(s.subrange(slot_offset_of(s, j), slot_offset_of(s, j) + slot_len_of(s, j))
                =~= s_last.subrange(
                slot_offset_of(s_last, j),
                slot_offset_of(s_last, j) + slot_len_of(s_last, j),
            ));
        }
    }
    assert(slots_of(s) =~= slots_of(s0));
    assert forall|j: int| 0 <= j < n && #[trigger] slot_len_of(s, j) != 0 implies {
        &&& free_end_of(s) <= slot_offset_of(s, j)
        &&& slot_offset_of(s, j) + slot_len_of(s, j) <= s.len()
    } by {
        assert(slot_len_of(s_last, j) == slot_len_of(s0, j));
        assert(slot_offset_of(s, j) == slot_offset_of(s_last, j));
        assert(slot_len_of(s, j) == slot_len_of(s0, j));
    }
}


impl Default for SlottedPage {
    fn default() -> (page: Self)
        ensures
            page.wf(),
            page@ == Seq::<Option<Seq<u8>>>::empty(),
            page.size() == PAGE_SIZE,
    {
        Self::new()
    }
}

} // verus!
