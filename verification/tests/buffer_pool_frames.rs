use chronosdb::storage::{BufferPool, BufferPoolError, FrameChoice, Page};

fn bring_in(pool: &mut BufferPool, page_id: u64) -> usize {
    let frame = match pool.choose_frame().unwrap() {
        FrameChoice::Free(frame) => frame,
        FrameChoice::Victim(frame) => {
            pool.clear_frame(frame);
            frame
        }
    };
    pool.install(frame, Page::new(page_id));
    frame
}

#[test]
fn installed_page_is_resident_and_pinned_once() {
    let mut pool = BufferPool::new(2);

    assert_eq!(pool.choose_frame(), Ok(FrameChoice::Free(0)));

    let frame = bring_in(&mut pool, 5);

    assert_eq!(frame, 0);

    assert!(pool.is_resident(5));

    assert_eq!(pool.pin_count(5), Some(1));

    assert_eq!(pool.frame_of(5), Some(0));

    assert_eq!(pool.resident_pages(), 1);

    assert_eq!(pool.pool_size(), 2);
}

#[test]
fn unpin_below_zero_is_rejected() {
    let mut pool = BufferPool::new(2);

    bring_in(&mut pool, 1);

    pool.unpin(1, false).unwrap();

    assert_eq!(pool.pin_count(1), Some(0));

    assert_eq!(pool.unpin(1, false), Err(BufferPoolError::PinCountUnderflow));

    assert_eq!(pool.unpin(9, false), Err(BufferPoolError::PageNotResident));
}

#[test]
fn pinned_frames_are_never_victims() {
    let mut pool = BufferPool::new(2);

    bring_in(&mut pool, 0);

    bring_in(&mut pool, 1);

    assert_eq!(pool.choose_frame(), Err(BufferPoolError::NoFrameAvailable));
}

#[test]
fn least_recently_used_unpinned_frame_is_the_victim() {
    let mut pool = BufferPool::new(2);

    let first = bring_in(&mut pool, 0);

    let second = bring_in(&mut pool, 1);

    pool.unpin(0, false).unwrap();

    pool.unpin(1, false).unwrap();

    pool.pin(first, false);

    pool.unpin(0, false).unwrap();

    assert_eq!(pool.choose_frame(), Ok(FrameChoice::Victim(second)));

    bring_in(&mut pool, 2);

    assert!(!pool.is_resident(1));

    assert!(pool.is_resident(0));

    assert!(pool.is_resident(2));
}

#[test]
fn dirty_frames_need_write_back() {
    let mut pool = BufferPool::new(1);

    let frame = bring_in(&mut pool, 0);

    assert!(!pool.needs_write_back(frame));

    pool.unpin(0, true).unwrap();

    assert!(pool.needs_write_back(frame));

    pool.mark_written(frame);

    assert!(!pool.needs_write_back(frame));
}

#[test]
fn logged_write_stamps_the_cached_page() {
    let mut pool = BufferPool::new(1);

    let frame = bring_in(&mut pool, 0);

    pool.apply_logged_write(frame, 64, b"chronos", 7).unwrap();

    assert_eq!(pool.page_lsn(0), Some(7));

    assert!(pool.needs_write_back(frame));

    assert_eq!(pool.frame_page(frame).unwrap().read(64, 7).unwrap(), b"chronos");

    assert!(pool.apply_logged_write(frame, 0, b"header", 8).is_err());

    assert_eq!(pool.page_lsn(0), Some(7));
}

#[test]
fn resident_page_ids_lists_every_cached_page() {
    let mut pool = BufferPool::new(3);

    bring_in(&mut pool, 4);

    bring_in(&mut pool, 2);

    let mut ids = pool.resident_page_ids();

    ids.sort();

    assert_eq!(ids, vec![2, 4]);
}

#[test]
fn page_is_written_only_after_its_log_records_are_durable() {
    let mut pool = BufferPool::new(1);

    let frame = bring_in(&mut pool, 0);

    assert_eq!(pool.log_flush_before_write(frame, None), None);

    pool.apply_logged_write(frame, 32, b"wal", 5).unwrap();

    assert_eq!(pool.log_flush_before_write(frame, None), Some(5));

    assert_eq!(pool.log_flush_before_write(frame, Some(4)), Some(5));

    assert_eq!(pool.log_flush_before_write(frame, Some(5)), None);
}
