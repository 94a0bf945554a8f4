use vstd::bytes::*;
use vstd::prelude::*;
use vstd::slice::*;

use crate::recovery::Lsn;
use crate::{PageId, PAGE_SIZE};

verus! {

/// Bytes at the start of every page that hold the page header.
///
/// Bytes `0..8` hold the page LSN in little-endian order and byte `8` is `1`
/// when a page LSN is present. The header is not writable through
/// [`Page::write`].
pub const PAGE_HEADER_SIZE: usize = 16;

/// Offset of the byte that says whether a page LSN is present.
pub const PAGE_LSN_FLAG_OFFSET: usize = 8;

/// A fixed-size page image together with its identifier and dirty flag.
pub struct Page {
    id: PageId,
    data: Vec<u8>,
    dirty: bool,
}

/// Errors of page access.
#[derive(Debug, Clone, Copy, PartialEq, Eq, Structural)]
pub enum PageError {
    /// The requested byte range lies outside the writable or readable area.
    OutOfBounds,
}

/// The bytes of `s` with `bytes` written over them from `offset` on.
pub open spec fn overwrite(s: Seq<u8>, offset: int, bytes: Seq<u8>) -> Seq<u8> {
    Seq::new(
        s.len(),
        |k: int|
            if offset <= k < offset + bytes.len() {
                bytes[k - offset]
            } else {
                s[k]
            },
    )
}

/// Reading back the range just written gives the bytes written, and the
/// bytes outside it are untouched.
pub proof fn lemma_read_after_write(s: Seq<u8>, offset: int, bytes: Seq<u8>)
    requires
        0 <= offset,
        offset + bytes.len() <= s.len(),
    ensures
        overwrite(s, offset, bytes).subrange(offset, offset + bytes.len()) == bytes,
        forall|k: int|
            0 <= k < s.len() && !(offset <= k < offset + bytes.len()) ==> #[trigger] overwrite(
                s,
                offset,
                bytes,
            )[k] == s[k],
{
    assert(overwrite(s, offset, bytes).subrange(offset, offset + bytes.len()) =~= bytes);
}

/// The page LSN that a page image records, if any.
pub open spec fn lsn_of_bytes(bytes: Seq<u8>) -> Option<Lsn> {
    if bytes[PAGE_LSN_FLAG_OFFSET as int] == 1 {
        Some(spec_u64_from_le_bytes(bytes.subrange(0, 8)))
    } else {
        None
    }
}

/// The page image `bytes` with its header recording `lsn`.
pub open spec fn with_lsn(bytes: Seq<u8>, lsn: Lsn) -> Seq<u8> {
    spec_u64_to_le_bytes(lsn) + seq![1u8] + bytes.skip(PAGE_LSN_FLAG_OFFSET + 1)
}

/// An all-zero page image.
pub open spec fn zero_page() -> Seq<u8> {
    Seq::new(PAGE_SIZE as nat, |i: int| 0u8)
}

impl Page {
    /// Well-formedness: the image has exactly `PAGE_SIZE` bytes.
    pub closed spec fn wf(&self) -> bool {
        self.data@.len() == PAGE_SIZE
    }

    /// The identifier of the page.
    pub closed spec fn spec_id(&self) -> PageId {
        self.id
    }

    /// The page image.
    pub closed spec fn bytes(&self) -> Seq<u8> {
        self.data@
    }

    /// Whether the page was modified since it was last marked clean.
    pub closed spec fn spec_dirty(&self) -> bool {
        self.dirty
    }

    /// A clean all-zero page with identifier `id`.
    pub fn new(id: PageId) -> (page: Self)
        ensures
            page.spec_id() == id,
            page.bytes() == zero_page(),
            page.wf(),
            !page.spec_dirty(),
    {
        let data = vec![0u8; PAGE_SIZE];
        Page { id, data, dirty: false }
    }

    /// A clean page with identifier `id` holding the image `data`, as read
    /// from a database file.
    pub fn from_bytes(id: PageId, data: Vec<u8>) -> (page: Self)
        requires
            data@.len() == PAGE_SIZE,
        ensures
            page.spec_id() == id,
            page.bytes() == data@,
            page.wf(),
            !page.spec_dirty(),
    {
        Page { id, data, dirty: false }
    }

    pub fn id(&self) -> (id: PageId)
        ensures
            id == self.spec_id(),
    {
        self.id
    }

    /// The whole page image, header included.
    pub fn data(&self) -> (data: &[u8])
        requires
            self.wf(),
        ensures
            data@ == self.bytes(),
            data@.len() == PAGE_SIZE,
    {
        self.data.as_slice()
    }

    /// Whether `length` bytes at `offset` lie within the page body, so that
    /// [`Page::write`] accepts them.
    pub fn writable(offset: usize, length: usize) -> (ok: bool)
        ensures
            ok == (PAGE_HEADER_SIZE <= offset && offset + length <= PAGE_SIZE),
    {
        PAGE_HEADER_SIZE <= offset && offset <= PAGE_SIZE && length <= PAGE_SIZE - offset
    }

    /// Writes `bytes` at `offset` in the page body and marks the page dirty.
    ///
    /// Fails, leaving the page unchanged, when the range starts inside the
    /// header or ends past the page.
    pub fn write(&mut self, offset: usize, bytes: &[u8]) -> (result: Result<(), PageError>)
        requires
            old(self).wf(),
        ensures
            final(self).wf(),
            final(self).spec_id() == old(self).spec_id(),
            match result {
                Ok(()) => {
                    &&& PAGE_HEADER_SIZE <= offset
                    &&& offset + bytes@.len() <= PAGE_SIZE
                    &&& final(self).bytes() == overwrite(old(self).bytes(), offset as int, bytes@)
                    &&& final(self).spec_dirty()
                },
                Err(e) => {
                    &&& e == PageError::OutOfBounds
                    &&& (offset < PAGE_HEADER_SIZE || offset + bytes@.len() > PAGE_SIZE)
                    &&& *final(self) == *old(self)
                },
            },
    {
        if offset < PAGE_HEADER_SIZE || offset > PAGE_SIZE || bytes.len() > PAGE_SIZE - offset {
            return Err(PageError::OutOfBounds);
        }
        let ghost before = self.data@;
        let mut i: usize = 0;
        while i < bytes.len()
            invariant
                0 <= i <= bytes@.len(),
                offset + bytes@.len() <= PAGE_SIZE,
                self.data@.len() == PAGE_SIZE,
                before.len() == PAGE_SIZE,
                forall|k: int| 0 <= k < offset ==> self.data@[k] == before[k],
                forall|k: int| offset + i <= k < PAGE_SIZE ==> self.data@[k] == before[k],
                forall|k: int| 0 <= k < i ==> self.data@[offset + k] == bytes@[k],
                self.id == old(self).id,
                self.dirty == old(self).dirty,
            decreases bytes@.len() - i,
        {
            self.data.set(offset + i, bytes[i]);
            i = i + 1;
        }
        self.dirty = true;
        assert(self.data@ =~= overwrite(before, offset as int, bytes@));
        Ok(())
    }

    /// Reads `length` bytes starting at `offset`.
    pub fn read(&self, offset: usize, length: usize) -> (result: Result<&[u8], PageError>)
        requires
            self.wf(),
        ensures
            match result {
                Ok(slice) => {
                    &&& offset + length <= PAGE_SIZE
                    &&& slice@ == self.bytes().subrange(offset as int, offset + length)
                },
                Err(e) => e == PageError::OutOfBounds && offset + length > PAGE_SIZE,
            },
    {
        if offset > PAGE_SIZE || length > PAGE_SIZE - offset {
            return Err(PageError::OutOfBounds);
        }
        Ok(slice_subrange(self.data.as_slice(), offset, offset + length))
    }

    pub fn is_dirty(&self) -> (dirty: bool)
        ensures
            dirty == self.spec_dirty(),
    {
        self.dirty
    }

    /// Marks the page as clean, for instance after it was written to disk.
    pub fn mark_clean(&mut self)
        ensures
            final(self).wf() == old(self).wf(),
            final(self).spec_id() == old(self).spec_id(),
            final(self).bytes() == old(self).bytes(),
            !final(self).spec_dirty(),
    {
        self.dirty = false;
    }

    /// The LSN of the latest log record reflected in this page, if any.
    pub fn page_lsn(&self) -> (lsn: Option<Lsn>)
        requires
            self.wf(),
        ensures
            lsn == lsn_of_bytes(self.bytes()),
    {
        if self.data[PAGE_LSN_FLAG_OFFSET] == 1 {
            Some(u64_from_le_bytes(slice_subrange(self.data.as_slice(), 0, 8)))
        } else {
            None
        }
    }

    /// Records `lsn` as the page LSN and marks the page dirty.
    pub fn set_page_lsn(&mut self, lsn: Lsn)
        requires
            old(self).wf(),
        ensures
            final(self).wf(),
            final(self).spec_id() == old(self).spec_id(),
            final(self).bytes() == with_lsn(old(self).bytes(), lsn),
            final(self).spec_dirty(),
            lsn_of_bytes(final(self).bytes()) == Some(lsn),
    {
        proof {
            lemma_auto_spec_u64_to_from_le_bytes();
        }
        let encoded = u64_to_le_bytes(lsn);
        let ghost before = self.data@;
        let mut i: usize = 0;
        while i < 8
            invariant
                0 <= i <= 8,
                encoded@ == spec_u64_to_le_bytes(lsn),
                encoded@.len() == 8,
                self.data@.len() == PAGE_SIZE,
                before.len() == PAGE_SIZE,
                forall|k: int| i <= k < PAGE_SIZE ==> self.data@[k] == before[k],
                forall|k: int| 0 <= k < i ==> self.data@[k] == encoded@[k],
                self.id == old(self).id,
            decreases 8 - i,
        {
            self.data.set(i, encoded[i]);
            i = i + 1;
        }
        self.data.set(PAGE_LSN_FLAG_OFFSET, 1);
        self.dirty = true;
        assert(self.data@ =~= with_lsn(before, lsn));
        assert(self.data@.subrange(0, 8) =~= spec_u64_to_le_bytes(lsn));
    }
}

} // verus!
