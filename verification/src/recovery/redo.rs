use vstd::prelude::*;

use crate::storage::page::{lsn_of_bytes, overwrite, with_lsn, zero_page, Page, PageError};
use crate::storage::PAGE_HEADER_SIZE;
use crate::PAGE_SIZE;

use super::log::{records_after, records_after_spec, LogRecord, LogRecordType, LogRecordView, Lsn};

verus! {

/// Errors of crash recovery.
#[derive(Debug, Clone, PartialEq, Eq)]
pub enum RecoveryError {
    /// Reading or writing the database or the log failed.
    Io(String),
    /// A logged write reaches past the end of its page.
    PageBoundary,
    /// A logged write could not be applied to its page.
    Page(PageError),
}

/// What a recovery pass did.
#[derive(Debug, Clone, Copy, PartialEq, Eq, Structural)]
pub struct RecoveryStats {
    /// Log records examined.
    pub records_seen: usize,
    /// Page writes applied because their page did not reflect them yet.
    pub records_redone: usize,
}

/// Replays logged page writes onto page images.
pub struct RecoveryManager;

/// The images of the pages `pages`, in order.
pub open spec fn images(pages: Seq<Page>) -> Seq<Seq<u8>> {
    pages.map_values(|p: Page| p.bytes())
}

/// Whether `pages` are well-formed pages whose identifiers are their
/// positions, as the pages of a database file are.
pub open spec fn file_pages(pages: Seq<Page>) -> bool {
    forall|i: int| 0 <= i < pages.len() ==> #[trigger] pages[i].wf() && pages[i].spec_id() == i
}

/// `ps` extended with all-zero pages until it holds at least `k` pages.
pub open spec fn grow(ps: Seq<Seq<u8>>, k: int) -> Seq<Seq<u8>> {
    if ps.len() >= k {
        ps
    } else {
        ps + Seq::new((k - ps.len()) as nat, |i: int| zero_page())
    }
}

/// Whether an image whose page LSN is `lsn` already reflects the record
/// with LSN `record_lsn`.
pub open spec fn reflects(lsn: Option<Lsn>, record_lsn: Lsn) -> bool {
    match lsn {
        Some(l) => l >= record_lsn,
        None => false,
    }
}

/// The page images and count of applied writes after replaying record `r`
/// onto `ps`, of which `n` writes were applied before.
pub open spec fn redo_step(ps: Seq<Seq<u8>>, n: nat, r: LogRecordView) -> Result<
    (Seq<Seq<u8>>, nat),
    RecoveryError,
> {
    if r.record_type != LogRecordType::PageWrite {
        Ok((ps, n))
    } else if r.offset + r.payload.len() > PAGE_SIZE {
        Err(RecoveryError::PageBoundary)
    } else {
        let grown = grow(ps, r.page_id + 1);
        let image = grown[r.page_id as int];
        if reflects(lsn_of_bytes(image), r.lsn) {
            Ok((grown, n))
        } else if r.offset < PAGE_HEADER_SIZE {
            Err(RecoveryError::Page(PageError::OutOfBounds))
        } else {
            Ok(
                (
                    grown.update(
                        r.page_id as int,
                        with_lsn(overwrite(image, r.offset as int, r.payload), r.lsn),
                    ),
                    n + 1,
                ),
            )
        }
    }
}

/// The page images and count of applied writes after replaying `rs` in
/// order onto `ps`, or the error that stops the replay.
pub open spec fn redo_spec(ps: Seq<Seq<u8>>, rs: Seq<LogRecordView>) -> Result<
    (Seq<Seq<u8>>, nat),
    RecoveryError,
>
    decreases rs.len(),
{
    if rs.len() == 0 {
        Ok((ps, 0))
    } else {
        match redo_spec(ps, rs.drop_last()) {
            Err(e) => Err(e),
            Ok((qs, n)) => redo_step(qs, n, rs.last()),
        }
    }
}

/// Once a replay fails, replaying more records fails the same way.
proof fn lemma_redo_error_persists(ps: Seq<Seq<u8>>, rs: Seq<LogRecordView>, k: int)
    requires
        0 <= k <= rs.len(),
        redo_spec(ps, rs.take(k)) is Err,
    ensures
        redo_spec(ps, rs) == redo_spec(ps, rs.take(k)),
    decreases rs.len() - k,
{
    if k < rs.len() {
        assert(rs.take(k + 1).drop_last() =~= rs.take(k));
        lemma_redo_error_persists(ps, rs, k + 1);
    } else {
        assert(rs.take(k) =~= rs);
    }
}

impl RecoveryManager {
    /// Replays the page writes of `records`, in order, onto the pages of a
    /// database file: a write that its page already reflects (page LSN at
    /// least the record's LSN) is skipped; any other is applied and stamps
    /// the page with the record's LSN. Pages the log mentions beyond the end
    /// of the file are added as zero pages. Every changed page is left dirty.
    pub fn redo_pages(records: &[LogRecord], pages: &mut Vec<Page>) -> (result: Result<
        RecoveryStats,
        RecoveryError,
    >)
        requires
            file_pages(old(pages)@),
        ensures
            file_pages(final(pages)@),
            match redo_spec(images(old(pages)@), records@.map_values(|r: LogRecord| r@)) {
                Ok((ps, n)) => {
                    &&& result == Ok::<RecoveryStats, RecoveryError>(
                        RecoveryStats { records_seen: records@.len() as usize, records_redone: n as usize },
                    )
                    &&& images(final(pages)@) == ps
                    &&& file_pages(final(pages)@)
                    &&& forall|i: int|
                        0 <= i < final(pages)@.len() && !#[trigger] final(pages)@[i].spec_dirty() ==> (
                        if i < old(pages)@.len() {
                            final(pages)@[i].bytes() == old(pages)@[i].bytes()
                        } else {
                            final(pages)@[i].bytes() == zero_page()
                        })
                },
                Err(e) => result == Err::<RecoveryStats, RecoveryError>(e),
            },
    {
        let ghost all = records@.map_values(|r: LogRecord| r@);
        let ghost start = old(pages)@;
        let mut redone: usize = 0;
        let mut i: usize = 0;
        proof {
            assert(all.take(0) =~= Seq::<LogRecordView>::empty());
        }
        while i < records.len()
            invariant
                i <= records@.len(),
                redone <= i,
                start == old(pages)@,
                all == records@.map_values(|r: LogRecord| r@),
                file_pages(pages@),
                pages@.len() >= start.len(),
                redo_spec(images(start), all.take(i as int)) == Ok::<
                    (Seq<Seq<u8>>, nat),
                    RecoveryError,
                >((images(pages@), redone as nat)),
                forall|k: int|
                    0 <= k < pages@.len() && !#[trigger] pages@[k].spec_dirty() ==> (if k
                        < start.len() {
                        pages@[k].bytes() == start[k].bytes()
                    } else {
                        pages@[k].bytes() == zero_page()
                    }),
            decreases records@.len() - i,
        {
            proof {
                assert(all.take(i + 1).drop_last() =~= all.take(i as int));
                assert(all.take(i + 1).last() == records@[i as int]@);
            }
            let record = &records[i];
            if record.record_type == LogRecordType::PageWrite {
                if record.payload.len() > PAGE_SIZE || (record.offset as usize) > PAGE_SIZE
                    - record.payload.len() {
                    proof {
                        let r = all[i as int];
                        assert(r.offset + r.payload.len() > PAGE_SIZE);
                        assert(redo_step(images(pages@), redone as nat, r) == Err::<
                            (Seq<Seq<u8>>, nat),
                            RecoveryError,
                        >(RecoveryError::PageBoundary));
                        assert(redo_spec(images(start), all.take(i + 1)) == Err::<
                            (Seq<Seq<u8>>, nat),
                            RecoveryError,
                        >(RecoveryError::PageBoundary));
                        lemma_redo_error_persists(images(start), all, i + 1);
                    }
                    return Err(RecoveryError::PageBoundary);
                }
                let ghost before = pages@;
                while (pages.len() as u64) <= record.page_id
                    invariant
                        file_pages(pages@),
                        before.len() <= pages@.len(),
                        forall|k: int| 0 <= k < before.len() ==> pages@[k] == before[k],
                        forall|k: int|
                            before.len() <= k < pages@.len() ==> #[trigger] pages@[k].bytes()
                                == zero_page() && !pages@[k].spec_dirty(),
                        pages@.len() <= before.len() || pages@.len() <= record.page_id + 1,
                    decreases record.page_id + 1 - pages@.len(),
                {
                    let id = pages.len() as u64;
                    pages.push(Page::new(id));
                }
                proof {
                    assert(images(pages@) =~= grow(images(before), record.page_id + 1));
                    assert forall|k: int|
                        0 <= k < pages@.len() && !#[trigger] pages@[k].spec_dirty() implies (if k
                        < start.len() {
                        pages@[k].bytes() == start[k].bytes()
                    } else {
                        pages@[k].bytes() == zero_page()
                    }) by {
                        if k < before.len() {
                            assert(pages@[k] == before[k]);
                        }
                    }
                }
                let index = record.page_id as usize;
                let reflected = match pages[index].page_lsn() {
                    Some(page_lsn) => page_lsn >= record.lsn,
                    None => false,
                };
                if !reflected {
                    let ghost grown = pages@;
                    assert(grown[index as int].wf());
                    let page = &mut pages[index];
                    match page.write(record.offset as usize, record.payload.as_slice()) {
                        Ok(()) => {},
                        Err(e) => {
                            proof {
                                let r = all[i as int];
                                assert(redo_step(images(grown), redone as nat, r) == Err::<
                                    (Seq<Seq<u8>>, nat),
                                    RecoveryError,
                                >(RecoveryError::Page(e)));
                                assert(redo_spec(images(start), all.take(i + 1)) == Err::<
                                    (Seq<Seq<u8>>, nat),
                                    RecoveryError,
                                >(RecoveryError::Page(e)));
                                lemma_redo_error_persists(images(start), all, i + 1);
                            }
                            return Err(RecoveryError::Page(e));
                        },
                    }
                    page.set_page_lsn(record.lsn);
                    proof {
                        assert forall|k: int| 0 <= k < pages@.len() && k != index implies pages@[k]
                            == grown[k] by {}
                        assert forall|k: int| 0 <= k < pages@.len() implies #[trigger] pages@[k].wf()
                            && pages@[k].spec_id() == k by {
                            if k != index {
                                assert(pages@[k] == grown[k]);
                            } else {
                                assert(grown[k].wf() && grown[k].spec_id() == k);
                            }
                        }
                        assert forall|k: int|
                            0 <= k < pages@.len() && !#[trigger] pages@[k].spec_dirty() implies (if k
                            < start.len() {
                            pages@[k].bytes() == start[k].bytes()
                        } else {
                            pages@[k].bytes() == zero_page()
                        }) by {
                            assert(pages@[k] == grown[k]);
                        }
                        assert(images(pages@) =~= images(grown).update(
                            index as int,
                            with_lsn(
                                overwrite(grown[index as int].bytes(), record.offset as int, record.payload@),
                                record.lsn,
                            ),
                        ));
                    }
                    redone = redone + 1;
                }
            }
            i = i + 1;
        }
        proof {
            assert(all.take(records@.len() as int) =~= all);
        }
        Ok(RecoveryStats { records_seen: records.len(), records_redone: redone })
    }
}

impl RecoveryManager {
    /// Replays only the records after a checkpoint taken at `lsn`; the
    /// earlier ones are already reflected on disk.
    pub fn redo_pages_after(records: &[LogRecord], lsn: Lsn, pages: &mut Vec<Page>) -> (result:
        Result<RecoveryStats, RecoveryError>)
        requires
            file_pages(old(pages)@),
        ensures
            file_pages(final(pages)@),
            match redo_spec(
                images(old(pages)@),
                records_after_spec(records@.map_values(|r: LogRecord| r@), lsn),
            ) {
                Ok((ps, n)) => {
                    &&& result == Ok::<RecoveryStats, RecoveryError>(
                        RecoveryStats {
                            records_seen: records_after_spec(
                                records@.map_values(|r: LogRecord| r@),
                                lsn,
                            ).len() as usize,
                            records_redone: n as usize,
                        },
                    )
                    &&& images(final(pages)@) == ps
                    &&& file_pages(final(pages)@)
                },
                Err(e) => result == Err::<RecoveryStats, RecoveryError>(e),
            },
    {
        let after = records_after(records, lsn);
        proof {
            assert(after@.map_values(|r: LogRecord| r@).len() == after@.len());
        }
        Self::redo_pages(after.as_slice(), pages)
    }
}

/// Whether the page images `ps` already reflect every page write of `rs`.
pub open spec fn covers(ps: Seq<Seq<u8>>, rs: Seq<LogRecordView>) -> bool {
    forall|i: int|
        0 <= i < rs.len() && #[trigger] rs[i].record_type == LogRecordType::PageWrite ==> {
            &&& rs[i].offset + rs[i].payload.len() <= PAGE_SIZE
            &&& rs[i].page_id < ps.len()
            &&& reflects(lsn_of_bytes(ps[rs[i].page_id as int]), rs[i].lsn)
        }
}

/// Whether image `a` records a page LSN at least that of image `b`.
pub open spec fn lsn_at_least(a: Seq<u8>, b: Seq<u8>) -> bool {
    match lsn_of_bytes(b) {
        None => true,
        Some(l) => reflects(lsn_of_bytes(a), l),
    }
}

proof fn lemma_with_lsn(bytes: Seq<u8>, lsn: Lsn)
    ensures
        lsn_of_bytes(with_lsn(bytes, lsn)) == Some(lsn),
{
    vstd::bytes::lemma_auto_spec_u64_to_from_le_bytes();
    let w = with_lsn(bytes, lsn);
    assert(w[8] == 1);
    assert(w.subrange(0, 8) =~= vstd::bytes::spec_u64_to_le_bytes(lsn));
}

proof fn lemma_step_keeps_lsns(qs: Seq<Seq<u8>>, n: nat, r: LogRecordView)
    requires
        redo_step(qs, n, r) is Ok,
    ensures
        ({
            let qs2 = redo_step(qs, n, r)->Ok_0.0;
            &&& qs2.len() >= qs.len()
            &&& forall|j: int| 0 <= j < qs.len() ==> lsn_at_least(#[trigger] qs2[j], qs[j])
            &&& r.record_type == LogRecordType::PageWrite ==> {
                &&& r.offset + r.payload.len() <= PAGE_SIZE
                &&& r.page_id < qs2.len()
                &&& reflects(lsn_of_bytes(qs2[r.page_id as int]), r.lsn)
            }
        }),
{
    if r.record_type == LogRecordType::PageWrite {
        let grown = grow(qs, r.page_id + 1);
        assert forall|j: int| 0 <= j < qs.len() implies grown[j] == qs[j] by {}
        let image = grown[r.page_id as int];
        if !reflects(lsn_of_bytes(image), r.lsn) {
            lemma_with_lsn(overwrite(image, r.offset as int, r.payload), r.lsn);
        }
    }
}

/// After a replay every logged page write is reflected in its page (the
/// page exists and its LSN is at least the record's), and no page LSN went
/// backwards.
pub proof fn lemma_redo_covers(ps: Seq<Seq<u8>>, rs: Seq<LogRecordView>)
    requires
        redo_spec(ps, rs) is Ok,
    ensures
        ({
            let qs = redo_spec(ps, rs)->Ok_0.0;
            &&& covers(qs, rs)
            &&& qs.len() >= ps.len()
            &&& forall|j: int| 0 <= j < ps.len() ==> lsn_at_least(#[trigger] qs[j], ps[j])
        }),
    decreases rs.len(),
{
    if rs.len() > 0 {
        let front = rs.drop_last();
        lemma_redo_covers(ps, front);
        let (q1, n1) = redo_spec(ps, front)->Ok_0;
        let q2 = redo_spec(ps, rs)->Ok_0.0;
        lemma_step_keeps_lsns(q1, n1, rs.last());
        assert forall|i: int|
            0 <= i < rs.len() && #[trigger] rs[i].record_type == LogRecordType::PageWrite implies {
            &&& rs[i].offset + rs[i].payload.len() <= PAGE_SIZE
            &&& rs[i].page_id < q2.len()
            &&& reflects(lsn_of_bytes(q2[rs[i].page_id as int]), rs[i].lsn)
        } by {
            if i < rs.len() - 1 {
                assert(front[i] == rs[i]);
                assert(front[i].record_type == LogRecordType::PageWrite);
                let p = rs[i].page_id as int;
                assert(lsn_at_least(q2[p], q1[p]));
            }
        }
        assert forall|j: int| 0 <= j < ps.len() implies lsn_at_least(#[trigger] q2[j], ps[j]) by {
            assert(lsn_at_least(q1[j], ps[j]));
            assert(lsn_at_least(q2[j], q1[j]));
        }
    }
}

/// Replaying a log whose every page write the pages already reflect (its
/// page exists, it lies within the page and the page's LSN is at least its
/// own) succeeds, applies nothing and changes no page.
pub proof fn lemma_redo_covered_noop(ps: Seq<Seq<u8>>, rs: Seq<LogRecordView>)
    requires
        covers(ps, rs),
    ensures
        redo_spec(ps, rs) == Ok::<(Seq<Seq<u8>>, nat), RecoveryError>((ps, 0)),
    decreases rs.len(),
{
    if rs.len() > 0 {
        let front = rs.drop_last();
        assert forall|i: int|
            0 <= i < front.len() && #[trigger] front[i].record_type == LogRecordType::PageWrite implies {
            &&& front[i].offset + front[i].payload.len() <= PAGE_SIZE
            &&& front[i].page_id < ps.len()
            &&& reflects(lsn_of_bytes(ps[front[i].page_id as int]), front[i].lsn)
        } by {
            assert(front[i] == rs[i]);
            assert(rs[i].record_type == LogRecordType::PageWrite);
        }
        lemma_redo_covered_noop(ps, front);
        let r = rs.last();
        if r.record_type == LogRecordType::PageWrite {
            assert(rs[rs.len() - 1].record_type == LogRecordType::PageWrite);
            assert(grow(ps, r.page_id + 1) == ps);
        }
    }
}

/// Recovery is idempotent: replaying the same log onto the pages a replay
/// produced succeeds, applies nothing and leaves the pages as they are.
pub proof fn lemma_redo_idempotent(ps: Seq<Seq<u8>>, rs: Seq<LogRecordView>)
    requires
        redo_spec(ps, rs) is Ok,
    ensures
        redo_spec(redo_spec(ps, rs)->Ok_0.0, rs) == Ok::<(Seq<Seq<u8>>, nat), RecoveryError>(
            (redo_spec(ps, rs)->Ok_0.0, 0),
        ),
{
    lemma_redo_covers(ps, rs);
    lemma_redo_covered_noop(redo_spec(ps, rs)->Ok_0.0, rs);
}

} // verus!
