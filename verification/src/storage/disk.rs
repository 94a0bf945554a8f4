use vstd::prelude::*;

use crate::{PageId, PAGE_SIZE};

use super::page::Page;

verus! {

/// Number of pages in a database file of `length` bytes, or `None` when the
/// length is not a whole number of pages.
pub fn page_count_for_length(length: u64) -> (count: Option<PageId>)
    ensures
        match count {
            Some(n) => length % (PAGE_SIZE as u64) == 0 && n == length / (PAGE_SIZE as u64),
            None => length % (PAGE_SIZE as u64) != 0,
        },
{
    if length % (PAGE_SIZE as u64) != 0 {
        None
    } else {
        Some(length / (PAGE_SIZE as u64))
    }
}

/// Byte offset of page `id` in a database file, or `None` when it does not
/// fit in 64 bits.
pub fn page_offset(id: PageId) -> (offset: Option<u64>)
    ensures
        match offset {
            Some(o) => o == id * PAGE_SIZE,
            None => id * PAGE_SIZE > u64::MAX,
        },
{
    id.checked_mul(PAGE_SIZE as u64)
}

/// Why a page cannot be read from a database file.
#[derive(Debug, Clone, Copy, PartialEq, Eq, Structural)]
pub enum PageReadRefusal {
    /// The file holds no page with that identifier.
    Missing,
    /// The page's byte offset does not fit in 64 bits.
    OffsetOverflow,
}

/// Byte offset at which to read page `id` from a file of `page_count` pages.
pub fn read_offset(id: PageId, page_count: PageId) -> (result: Result<u64, PageReadRefusal>)
    ensures
        match result {
            Ok(o) => id < page_count && o == id * PAGE_SIZE,
            Err(PageReadRefusal::Missing) => id >= page_count,
            Err(PageReadRefusal::OffsetOverflow) => id < page_count && id * PAGE_SIZE
                > u64::MAX,
        },
{
    if id >= page_count {
        return Err(PageReadRefusal::Missing);
    }
    match page_offset(id) {
        Some(o) => Ok(o),
        None => Err(PageReadRefusal::OffsetOverflow),
    }
}

/// Whether the page at `index` of a list whose first `known` pages were read
/// from the file must be written back: it is new, or it was changed.
pub open spec fn needs_write_back(index: int, known: int, dirty: bool) -> bool {
    index >= known || dirty
}

/// Indices, in order, of the pages of `pages` that must be written back when
/// the first `known` of them were read from the file.
pub fn write_back_indices(pages: &[Page], known: usize) -> (indices: Vec<usize>)
    ensures
        forall|k: int| 0 <= k < indices@.len() ==> #[trigger] indices@[k] < pages@.len(),
        forall|k: int, l: int| 0 <= k < l < indices@.len() ==> indices@[k] < indices@[l],
        forall|i: int|
            0 <= i < pages@.len() ==> (needs_write_back(i, known as int, pages@[i].spec_dirty())
                <==> indices@.contains(i as usize)),
{
    let mut indices: Vec<usize> = Vec::new();
    let mut i: usize = 0;
    while i < pages.len()
        invariant
            i <= pages@.len(),
            forall|k: int| 0 <= k < indices@.len() ==> #[trigger] indices@[k] < i,
            forall|k: int, l: int| 0 <= k < l < indices@.len() ==> indices@[k] < indices@[l],
            forall|j: int|
                0 <= j < i ==> (needs_write_back(j, known as int, pages@[j].spec_dirty())
                    <==> indices@.contains(j as usize)),
        decreases pages@.len() - i,
    {
        let ghost before = indices@;
        if i >= known || pages[i].is_dirty() {
            indices.push(i);
            proof {
                assert(indices@[before.len() as int] == i);
                assert forall|j: int| 0 <= j < i implies (needs_write_back(
                    j,
                    known as int,
                    pages@[j].spec_dirty(),
                ) <==> indices@.contains(j as usize)) by {
                    if before.contains(j as usize) {
                        let k = choose|k: int| 0 <= k < before.len() && before[k] == j as usize;
                        assert(indices@[k] == j as usize);
                    }
                    if indices@.contains(j as usize) {
                        let k = choose|k: int| 0 <= k < indices@.len() && indices@[k] == j as usize;
                        assert(k < before.len());
                        assert(before[k] == j as usize);
                    }
                }
            }
        } else {
            proof {
                assert(!indices@.contains(i));
            }
        }
        i = i + 1;
    }
    indices
}

} // verus!
