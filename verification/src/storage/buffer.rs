use std::collections::HashMap;
use vstd::prelude::*;
use vstd::std_specs::iter::IteratorSpec;

use crate::recovery::Lsn;
use crate::PageId;

use super::page::{lsn_of_bytes, overwrite, with_lsn, Page, PageError, PAGE_HEADER_SIZE};

verus! {

/// Index of a frame of the buffer pool.
pub type FrameId = usize;

/// Errors of the buffer pool.
#[derive(Debug, Clone, PartialEq, Eq)]
pub enum BufferPoolError {
    /// Every frame holds a pinned page.
    NoFrameAvailable,
    /// The page is not in the buffer pool.
    PageNotResident,
    /// The page is not pinned.
    PinCountUnderflow,
    /// Reading or writing the database or the log failed.
    Io(String),
    /// A logged write was asked of a pool that has no write-ahead log.
    WalNotConfigured,
}

/// Mathematical model of a frame.
pub struct FrameView {
    pub page: Option<Page>,
    pub pin_count: nat,
    pub dirty: bool,
    pub last_access: u64,
}

/// Whether frame `f` holds a page that may be evicted.
pub open spec fn evictable(f: FrameView) -> bool {
    f.page is Some && f.pin_count == 0
}

/// Whether frame `f` of `frames` is the victim that least-recently-used
/// replacement picks: an evictable frame whose last access is the earliest,
/// the first of them on a tie.
pub open spec fn lru_victim(frames: Seq<FrameView>, f: int) -> bool {
    &&& 0 <= f < frames.len()
    &&& evictable(frames[f])
    &&& forall|j: int|
        0 <= j < frames.len() && #[trigger] evictable(frames[j]) ==> frames[f].last_access
            <= frames[j].last_access
    &&& forall|j: int|
        0 <= j < f && #[trigger] evictable(frames[j]) ==> frames[f].last_access
            < frames[j].last_access
}

/// Where a page to be brought in will go.
#[derive(Debug, Clone, Copy, PartialEq, Eq, Structural)]
pub enum FrameChoice {
    /// An empty frame.
    Free(FrameId),
    /// A frame whose page must be evicted first.
    Victim(FrameId),
}

/// Whether `table` and `frames` agree: each resident page is in the frame the
/// table names, and empty frames are unpinned and clean.
pub open spec fn pool_wf(frames: Seq<FrameView>, table: Map<PageId, FrameId>) -> bool {
    &&& frames.len() > 0
    &&& forall|p: PageId| #[trigger]
        table.contains_key(p) ==> {
            &&& table[p] < frames.len()
            &&& frames[table[p] as int].page matches Some(page) && page.spec_id() == p
        }
    &&& forall|f: int|
        0 <= f < frames.len() ==> match #[trigger] frames[f].page {
            Some(page) => page.wf() && table.contains_key(page.spec_id()) && table[page.spec_id()]
                == f,
            None => frames[f].pin_count == 0 && !frames[f].dirty,
        }
}

/// Replacing the page of an occupied frame by a well-formed page with the
/// same identifier keeps the pool well-formed.
pub proof fn lemma_page_replaced(
    frames: Seq<FrameView>,
    table: Map<PageId, FrameId>,
    f: int,
    page: Page,
)
    requires
        pool_wf(frames, table),
        0 <= f < frames.len(),
        frames[f].page matches Some(p) && p.spec_id() == page.spec_id(),
        page.wf(),
    ensures
        pool_wf(frames.update(f, FrameView { page: Some(page), ..frames[f] }), table),
{
    let g = frames.update(f, FrameView { page: Some(page), ..frames[f] });
    assert forall|q: PageId| #[trigger] table.contains_key(q) implies {
        &&& table[q] < g.len()
        &&& g[table[q] as int].page matches Some(pg) && pg.spec_id() == q
    } by {
        assert(frames[table[q] as int].page is Some);
    }
    assert forall|k: int| 0 <= k < g.len() implies match #[trigger] g[k].page {
        Some(pg) => pg.wf() && table.contains_key(pg.spec_id()) && table[pg.spec_id()] == k,
        None => g[k].pin_count == 0 && !g[k].dirty,
    } by {
        assert(frames[k].page == frames[k].page);
    }
}

/// The LSN through which the log must be flushed before a page whose LSN is
/// `page_lsn` may be written, when the log is durable through `durable`.
pub open spec fn flush_needed(page_lsn: Option<Lsn>, durable: Option<Lsn>) -> Option<Lsn> {
    match page_lsn {
        None => None,
        Some(l) => match durable {
            Some(d) => if d >= l {
                None
            } else {
                Some(l)
            },
            None => Some(l),
        },
    }
}

/// Whether a page whose LSN is `page_lsn` may be written while the log is
/// durable through `durable`: every change it holds is logged durably.
pub open spec fn write_ahead_safe(page_lsn: Option<Lsn>, durable: Option<Lsn>) -> bool {
    match page_lsn {
        None => true,
        Some(l) => durable matches Some(d) && d >= l,
    }
}

/// Write-ahead logging: a page needs no log flush exactly when writing it is
/// already safe, and flushing the log through the LSN asked for makes it
/// safe.
pub proof fn lemma_write_ahead(page_lsn: Option<Lsn>, durable: Option<Lsn>, flushed: Lsn)
    ensures
        flush_needed(page_lsn, durable) is None <==> write_ahead_safe(page_lsn, durable),
        flush_needed(page_lsn, durable) matches Some(l) && flushed >= l ==> write_ahead_safe(
            page_lsn,
            Some(flushed),
        ),
{
}

struct Frame {
    page: Option<Page>,
    pin_count: usize,
    dirty: bool,
    last_access: u64,
}

impl Frame {
    spec fn view(&self) -> FrameView {
        FrameView {
            page: self.page,
            pin_count: self.pin_count as nat,
            dirty: self.dirty,
            last_access: self.last_access,
        }
    }

    fn empty() -> (f: Self)
        ensures
            f.view() == (FrameView { page: None, pin_count: 0, dirty: false, last_access: 0 }),
    {
        Frame { page: None, pin_count: 0, dirty: false, last_access: 0 }
    }
}

/// The frames and page table of a buffer pool: which page each frame holds,
/// how often it is pinned, whether it is dirty and when it was last used.
/// Reading and writing pages on disk is the caller's part.
pub struct BufferPool {
    frames: Vec<Frame>,
    page_table: HashMap<PageId, FrameId>,
    clock: u64,
}

impl BufferPool {
    /// The frames, in order.
    pub closed spec fn frames(&self) -> Seq<FrameView> {
        self.frames@.map_values(|f: Frame| f.view())
    }

    /// The frame holding each resident page.
    pub closed spec fn table(&self) -> Map<PageId, FrameId> {
        self.page_table@
    }

    /// The logical time of the latest access.
    pub closed spec fn clock(&self) -> u64 {
        self.clock
    }

    /// Well-formedness: the page table and the frames agree, and empty frames
    /// are unpinned and clean.
    pub open spec fn wf(&self) -> bool {
        pool_wf(self.frames(), self.table())
    }

    /// A pool of `pool_size` empty frames.
    pub fn new(pool_size: usize) -> (pool: Self)
        requires
            pool_size > 0,
        ensures
            pool.wf(),
            pool.frames().len() == pool_size,
            forall|f: int| 0 <= f < pool_size ==> #[trigger] pool.frames()[f] == (FrameView {
                page: None,
                pin_count: 0,
                dirty: false,
                last_access: 0,
            }),
            pool.table() == Map::<PageId, FrameId>::empty(),
            pool.clock() == 0,
    {
        let mut frames: Vec<Frame> = Vec::new();
        let mut i: usize = 0;
        while i < pool_size
            invariant
                i <= pool_size,
                frames@.len() == i,
                forall|f: int| 0 <= f < i ==> #[trigger] frames@[f].view() == (FrameView {
                    page: None,
                    pin_count: 0,
                    dirty: false,
                    last_access: 0,
                }),
            decreases pool_size - i,
        {
            frames.push(Frame::empty());
            i = i + 1;
        }
        let pool = BufferPool { frames, page_table: HashMap::new(), clock: 0 };
        assert(pool.frames().len() == pool_size);
        pool
    }

    pub fn pool_size(&self) -> (n: usize)
        ensures
            n == self.frames().len(),
    {
        self.frames.len()
    }

    /// Number of pages held in frames.
    pub fn resident_pages(&self) -> (n: usize)
        ensures
            n == self.table().len(),
    {
        self.page_table.len()
    }

    /// The frame holding page `page_id`, if it is resident.
    pub fn frame_of(&self, page_id: PageId) -> (f: Option<FrameId>)
        ensures
            f == (if self.table().contains_key(page_id) {
                Some(self.table()[page_id])
            } else {
                None
            }),
    {
        match self.page_table.get(&page_id) {
            Some(f) => Some(*f),
            None => None,
        }
    }

    pub fn is_resident(&self, page_id: PageId) -> (r: bool)
        ensures
            r == self.table().contains_key(page_id),
    {
        self.page_table.contains_key(&page_id)
    }

    /// How often page `page_id` is pinned, if it is resident.
    pub fn pin_count(&self, page_id: PageId) -> (n: Option<usize>)
        requires
            self.wf(),
        ensures
            n == (if self.table().contains_key(page_id) {
                Some(self.frames()[self.table()[page_id] as int].pin_count as usize)
            } else {
                None
            }),
    {
        match self.page_table.get(&page_id) {
            Some(f) => Some(self.frames[*f].pin_count),
            None => None,
        }
    }

    /// The page held by frame `frame_id`.
    pub fn frame_page(&self, frame_id: FrameId) -> (page: Option<&Page>)
        requires
            frame_id < self.frames().len(),
        ensures
            page == match self.frames()[frame_id as int].page {
                Some(p) => Some(&p),
                None => None::<&Page>,
            },
    {
        match &self.frames[frame_id].page {
            Some(p) => Some(p),
            None => None,
        }
    }

    /// Whether the page in frame `frame_id` must be written back: the frame
    /// or the page itself is marked dirty.
    pub fn needs_write_back(&self, frame_id: FrameId) -> (r: bool)
        requires
            frame_id < self.frames().len(),
        ensures
            r == match self.frames()[frame_id as int].page {
                Some(p) => self.frames()[frame_id as int].dirty || p.spec_dirty(),
                None => false,
            },
    {
        match &self.frames[frame_id].page {
            Some(p) => self.frames[frame_id].dirty || p.is_dirty(),
            None => false,
        }
    }

    /// Picks the frame for a page to be brought in: the first empty frame,
    /// else the least recently used unpinned one.
    pub fn choose_frame(&self) -> (choice: Result<FrameChoice, BufferPoolError>)
        ensures
            match choice {
                Ok(FrameChoice::Free(f)) => {
                    &&& f < self.frames().len()
                    &&& self.frames()[f as int].page is None
                    &&& forall|j: int| 0 <= j < f ==> #[trigger] self.frames()[j].page is Some
                },
                Ok(FrameChoice::Victim(f)) => {
                    &&& forall|j: int|
                        0 <= j < self.frames().len() ==> #[trigger] self.frames()[j].page is Some
                    &&& lru_victim(self.frames(), f as int)
                },
                Err(e) => {
                    &&& e == BufferPoolError::NoFrameAvailable
                    &&& forall|j: int|
                        0 <= j < self.frames().len() ==> #[trigger] self.frames()[j].page is Some
                    &&& forall|j: int|
                        0 <= j < self.frames().len() ==> !evictable(#[trigger] self.frames()[j])
                },
            },
    {
        let frames = Ghost(self.frames());
        let mut i: usize = 0;
        while i < self.frames.len()
            invariant
                i <= self.frames@.len(),
                frames@ == self.frames(),
                forall|j: int| 0 <= j < i ==> #[trigger] frames@[j].page is Some,
            decreases self.frames@.len() - i,
        {
            if self.frames[i].page.is_none() {
                return Ok(FrameChoice::Free(i));
            }
            i = i + 1;
        }
        let mut best: Option<FrameId> = None;
        let mut k: usize = 0;
        while k < self.frames.len()
            invariant
                k <= self.frames@.len(),
                frames@ == self.frames(),
                match best {
                    Some(b) => {
                        &&& b < k
                        &&& evictable(frames@[b as int])
                        &&& forall|j: int|
                            0 <= j < k && #[trigger] evictable(frames@[j])
                                ==> frames@[b as int].last_access <= frames@[j].last_access
                        &&& forall|j: int|
                            0 <= j < b && #[trigger] evictable(frames@[j])
                                ==> frames@[b as int].last_access < frames@[j].last_access
                    },
                    None => forall|j: int| 0 <= j < k ==> !evictable(#[trigger] frames@[j]),
                },
            decreases self.frames@.len() - k,
        {
            let frame = &self.frames[k];
            if frame.page.is_some() && frame.pin_count == 0 {
                match best {
                    None => {
                        best = Some(k);
                    },
                    Some(b) => {
                        if frame.last_access < self.frames[b].last_access {
                            best = Some(k);
                        }
                    },
                }
            }
            k = k + 1;
        }
        match best {
            Some(b) => Ok(FrameChoice::Victim(b)),
            None => Err(BufferPoolError::NoFrameAvailable),
        }
    }

    /// Empties frame `frame_id`, whose page has been written back if it
    /// needed to be, and drops the page from the page table.
    pub fn clear_frame(&mut self, frame_id: FrameId)
        requires
            old(self).wf(),
            frame_id < old(self).frames().len(),
        ensures
            final(self).wf(),
            final(self).clock() == old(self).clock(),
            final(self).frames() == old(self).frames().update(
                frame_id as int,
                FrameView { page: None, pin_count: 0, dirty: false, last_access: 0 },
            ),
            final(self).table() == match old(self).frames()[frame_id as int].page {
                Some(p) => old(self).table().remove(p.spec_id()),
                None => old(self).table(),
            },
    {
        let ghost before = self.frames();
        let page_id = match &self.frames[frame_id].page {
            Some(p) => Some(p.id()),
            None => None,
        };
        match page_id {
            Some(id) => {
                self.page_table.remove(&id);
            },
            None => {},
        }
        self.frames.set(frame_id, Frame::empty());
        proof {
            assert(self.frames() =~= before.update(
                frame_id as int,
                FrameView { page: None, pin_count: 0, dirty: false, last_access: 0 },
            ));
        }
    }

    /// Puts `page`, just read or allocated, into the empty frame `frame_id`,
    /// pinned once and clean.
    pub fn install(&mut self, frame_id: FrameId, page: Page)
        requires
            old(self).wf(),
            frame_id < old(self).frames().len(),
            old(self).frames()[frame_id as int].page is None,
            !old(self).table().contains_key(page.spec_id()),
            page.wf(),
            old(self).clock() < u64::MAX,
        ensures
            final(self).wf(),
            final(self).clock() == old(self).clock() + 1,
            final(self).frames() == old(self).frames().update(
                frame_id as int,
                FrameView {
                    page: Some(page),
                    pin_count: 1,
                    dirty: false,
                    last_access: final(self).clock(),
                },
            ),
            final(self).table() == old(self).table().insert(page.spec_id(), frame_id),
    {
        let ghost before = self.frames();
        let page_id = page.id();
        self.clock = self.clock + 1;
        self.frames.set(
            frame_id,
            Frame { page: Some(page), pin_count: 1, dirty: false, last_access: self.clock },
        );
        self.page_table.insert(page_id, frame_id);
        proof {
            assert(self.frames() =~= before.update(
                frame_id as int,
                FrameView {
                    page: Some(page),
                    pin_count: 1,
                    dirty: false,
                    last_access: self.clock,
                },
            ));
        }
    }

    /// Pins the page in frame `frame_id` once more and records the access;
    /// a pin for writing also marks the frame dirty.
    pub fn pin(&mut self, frame_id: FrameId, for_write: bool)
        requires
            old(self).wf(),
            frame_id < old(self).frames().len(),
            old(self).frames()[frame_id as int].page is Some,
            old(self).frames()[frame_id as int].pin_count < usize::MAX,
            old(self).clock() < u64::MAX,
        ensures
            final(self).wf(),
            final(self).table() == old(self).table(),
            final(self).clock() == old(self).clock() + 1,
            final(self).frames() == old(self).frames().update(
                frame_id as int,
                FrameView {
                    page: old(self).frames()[frame_id as int].page,
                    pin_count: old(self).frames()[frame_id as int].pin_count + 1,
                    dirty: old(self).frames()[frame_id as int].dirty || for_write,
                    last_access: final(self).clock(),
                },
            ),
    {
        let ghost before = self.frames();
        self.clock = self.clock + 1;
        let clock = self.clock;
        let frame = &mut self.frames[frame_id];
        frame.pin_count = frame.pin_count + 1;
        frame.last_access = clock;
        if for_write {
            frame.dirty = true;
        }
        proof {
            assert(self.frames() =~= before.update(
                frame_id as int,
                FrameView {
                    page: before[frame_id as int].page,
                    pin_count: before[frame_id as int].pin_count + 1,
                    dirty: before[frame_id as int].dirty || for_write,
                    last_access: self.clock,
                },
            ));
        }
    }

    /// Releases one pin of page `page_id`; `dirty` marks it modified.
    pub fn unpin(&mut self, page_id: PageId, dirty: bool) -> (result: Result<(), BufferPoolError>)
        requires
            old(self).wf(),
        ensures
            final(self).wf(),
            final(self).table() == old(self).table(),
            final(self).clock() == old(self).clock(),
            match result {
                Ok(()) => {
                    let f = old(self).table()[page_id] as int;
                    let frame = old(self).frames()[f];
                    &&& old(self).table().contains_key(page_id)
                    &&& frame.pin_count > 0
                    &&& final(self).frames() == old(self).frames().update(
                        f,
                        FrameView {
                            page: frame.page,
                            pin_count: (frame.pin_count - 1) as nat,
                            dirty: frame.dirty || dirty,
                            last_access: frame.last_access,
                        },
                    )
                },
                Err(e) => {
                    &&& final(self).frames() == old(self).frames()
                    &&& (e == BufferPoolError::PageNotResident && !old(self).table().contains_key(
                        page_id,
                    )) || (e == BufferPoolError::PinCountUnderflow && old(self).table().contains_key(
                        page_id,
                    ) && old(self).frames()[old(self).table()[page_id] as int].pin_count == 0)
                },
            },
    {
        let frame_id = match self.page_table.get(&page_id) {
            Some(f) => *f,
            None => {
                return Err(BufferPoolError::PageNotResident);
            },
        };
        if self.frames[frame_id].pin_count == 0 {
            return Err(BufferPoolError::PinCountUnderflow);
        }
        let ghost before = self.frames();
        let frame = &mut self.frames[frame_id];
        frame.pin_count = frame.pin_count - 1;
        if dirty {
            frame.dirty = true;
        }
        proof {
            let old_frame = before[frame_id as int];
            assert(self.frames() =~= before.update(
                frame_id as int,
                FrameView {
                    page: old_frame.page,
                    pin_count: (old_frame.pin_count - 1) as nat,
                    dirty: old_frame.dirty || dirty,
                    last_access: old_frame.last_access,
                },
            ));
        }
        Ok(())
    }

    /// Records that the page in frame `frame_id` was written back.
    pub fn mark_written(&mut self, frame_id: FrameId)
        requires
            old(self).wf(),
            frame_id < old(self).frames().len(),
            old(self).frames()[frame_id as int].page is Some,
        ensures
            final(self).wf(),
            final(self).table() == old(self).table(),
            final(self).clock() == old(self).clock(),
            final(self).frames() == old(self).frames().update(
                frame_id as int,
                FrameView { dirty: false, ..old(self).frames()[frame_id as int] },
            ),
    {
        let ghost before = self.frames();
        let frame = &mut self.frames[frame_id];
        frame.dirty = false;
        proof {
            assert(self.frames() =~= before.update(
                frame_id as int,
                FrameView { dirty: false, ..before[frame_id as int] },
            ));
        }
    }

    /// The page LSN of page `page_id`, when it is resident and has one.
    pub fn page_lsn(&self, page_id: PageId) -> (lsn: Option<Lsn>)
        requires
            self.wf(),
        ensures
            lsn == (if self.table().contains_key(page_id) {
                lsn_of_bytes(self.frames()[self.table()[page_id] as int].page->Some_0.bytes())
            } else {
                None
            }),
    {
        match self.page_table.get(&page_id) {
            Some(f) => match &self.frames[*f].page {
                Some(p) => p.page_lsn(),
                None => None,
            },
            None => None,
        }
    }

    /// Writes `bytes` at `offset` in the page of frame `frame_id`, stamps it
    /// with `lsn`, the LSN of the log record of that write, and marks the
    /// frame dirty. Fails, changing nothing, when the range leaves the page
    /// body.
    pub fn apply_logged_write(
        &mut self,
        frame_id: FrameId,
        offset: usize,
        bytes: &[u8],
        lsn: Lsn,
    ) -> (result: Result<(), PageError>)
        requires
            old(self).wf(),
            frame_id < old(self).frames().len(),
            old(self).frames()[frame_id as int].page is Some,
        ensures
            final(self).wf(),
            final(self).table() == old(self).table(),
            final(self).clock() == old(self).clock(),
            final(self).frames().len() == old(self).frames().len(),
            forall|j: int|
                0 <= j < old(self).frames().len() && j != frame_id ==> #[trigger] old(
                self).frames()[j] == final(self).frames()[j],
            ({
                let before = old(self).frames()[frame_id as int];
                let after = final(self).frames()[frame_id as int];
                match result {
                    Ok(()) => {
                        &&& PAGE_HEADER_SIZE <= offset
                        &&& offset + bytes@.len() <= crate::PAGE_SIZE
                        &&& after.page matches Some(p) && p.bytes() == with_lsn(
                            overwrite(before.page->Some_0.bytes(), offset as int, bytes@),
                            lsn,
                        ) && p.spec_id() == before.page->Some_0.spec_id()
                        &&& after.dirty
                        &&& after.pin_count == before.pin_count
                        &&& after.last_access == before.last_access
                    },
                    Err(e) => {
                        &&& e == PageError::OutOfBounds
                        &&& (offset < PAGE_HEADER_SIZE || offset + bytes@.len() > crate::PAGE_SIZE)
                        &&& after == before
                    },
                }
            }),
    {
        let ghost before = self.frames();
        let frame = &mut self.frames[frame_id];
        let mut page = match frame.page.take() {
            Some(p) => p,
            None => {
                return Err(PageError::OutOfBounds);
            },
        };
        let result = page.write(offset, bytes);
        match result {
            Ok(()) => {
                page.set_page_lsn(lsn);
                frame.dirty = true;
            },
            Err(_) => {},
        }
        frame.page = Some(page);
        proof {
            assert forall|j: int|
                0 <= j < before.len() && j != frame_id implies #[trigger] self.frames()[j]
                == before[j] by {}
        }
        result
    }

    /// The page in frame `frame_id`, for the caller to modify in place. The
    /// pool stays well-formed as long as the page keeps its identifier and
    /// size (see `lemma_page_replaced`).
    pub fn frame_page_mut(&mut self, frame_id: FrameId) -> (page: &mut Page)
        requires
            old(self).wf(),
            frame_id < old(self).frames().len(),
            old(self).frames()[frame_id as int].page is Some,
        ensures
            *page == old(self).frames()[frame_id as int].page->Some_0,
            final(self).frames() == old(self).frames().update(
                frame_id as int,
                FrameView { page: Some(*final(page)), ..old(self).frames()[frame_id as int] },
            ),
            final(self).table() == old(self).table(),
            final(self).clock() == old(self).clock(),
    {
        let frame = &mut self.frames[frame_id];
        frame.page.as_mut().unwrap()
    }

    /// The LSN through which the log must be made durable before the page
    /// in frame `frame_id` may be written to disk, given that the log is
    /// durable through `durable`; `None` when the page may be written now.
    pub fn log_flush_before_write(&self, frame_id: FrameId, durable: Option<Lsn>) -> (lsn: Option<
        Lsn,
    >)
        requires
            self.wf(),
            frame_id < self.frames().len(),
        ensures
            lsn == match self.frames()[frame_id as int].page {
                Some(p) => flush_needed(lsn_of_bytes(p.bytes()), durable),
                None => None,
            },
    {
        match &self.frames[frame_id].page {
            Some(p) => match p.page_lsn() {
                Some(page_lsn) => match durable {
                    Some(d) => if d >= page_lsn {
                        None
                    } else {
                        Some(page_lsn)
                    },
                    None => Some(page_lsn),
                },
                None => None,
            },
            None => None,
        }
    }

    /// The pages held by the pool.
    pub fn resident_page_ids(&self) -> (ids: Vec<PageId>)
        ensures
            ids@.to_set() == self.table().dom(),
            ids@.no_duplicates(),
    {
        broadcast use vstd::std_specs::hash::group_hash_axioms;

        let mut ids: Vec<PageId> = Vec::new();
        for k in it: self.page_table.keys()
            invariant
                it.seq().unref().to_set() == self.table().dom(),
                it.seq().no_duplicates(),
                ids@ == it.seq().unref().take(it.index()),
                ids@.no_duplicates(),
                it.index() < it.seq().len() || ids@.to_set() == self.table().dom(),
        {
            let ghost i = it.index();
            let ghost before = ids@;
            proof {
                assert(it.seq().unref()[i] == *k);
                assert(!before.contains(*k)) by {
                    if before.contains(*k) {
                        let j = choose|j: int| 0 <= j < before.len() && before[j] == *k;
                        assert(it.seq()[j] == it.seq()[i as int]);
                    }
                }
            }
            ids.push(*k);
            proof {
                assert(ids@ =~= it.seq().unref().take(i + 1));
                assert(i + 1 == it.seq().len() ==> it.seq().unref().take(i + 1) =~= it.seq().unref());
            }
        }
        proof {
            if self.table().dom().len() == 0 {
                assert(self.table().dom() =~= Set::<PageId>::empty());
                assert(ids@.to_set() =~= Set::<PageId>::empty());
            }
        }
        ids
    }
}

} // verus!
