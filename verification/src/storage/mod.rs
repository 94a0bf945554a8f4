pub mod buffer;
pub mod disk;
pub mod heap;
pub mod mvcc_page;
pub mod page;
pub mod record;
pub mod slotted;

pub use buffer::{BufferPool, BufferPoolError, FrameChoice, FrameId};
pub use disk::{
    page_count_for_length, page_offset, read_offset, write_back_indices, PageReadRefusal,
};
pub use heap::{place_in_new_page, place_version, BufferedHeapError, HeapFileError};
pub use mvcc_page::{MvccPage, MvccPageError};
pub use page::{Page, PageError, PAGE_HEADER_SIZE};
pub use record::RecordId;
pub use slotted::{SlotId, SlottedPage, SlottedPageError};
