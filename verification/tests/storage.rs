use chronosdb::storage::{page_count_for_length, page_offset, Page, PageError};
use chronosdb::PAGE_SIZE;

#[test]
fn page_starts_clean() {
    let page = Page::new(7);

    assert_eq!(page.id(), 7);
    assert!(!page.is_dirty());
}

#[test]
fn page_write_marks_dirty() {
    let mut page = Page::new(0);

    page.write(32, b"chronos").unwrap();

    assert!(page.is_dirty());

    assert_eq!(page.read(32, 7).unwrap(), b"chronos",);
}

#[test]
fn page_rejects_out_of_bounds_write() {
    let mut page = Page::new(0);

    assert!(page.write(PAGE_SIZE - 1, &[1, 2],).is_err());
}

#[test]
fn page_rejects_out_of_bounds_read() {
    let page = Page::new(0);

    assert!(page.read(PAGE_SIZE - 1, 2,).is_err());
}

#[test]
fn failed_write_leaves_page_unchanged() {
    let mut page = Page::new(0);

    assert_eq!(page.write(10, b"x"), Err(PageError::OutOfBounds));

    assert!(!page.is_dirty());

    assert_eq!(page.data(), &vec![0_u8; PAGE_SIZE][..]);
}

#[test]
fn page_image_round_trips_through_bytes() {
    let mut page = Page::new(3);

    page.write(100, b"stored").unwrap();

    let restored = Page::from_bytes(3, page.data().to_vec());

    assert!(!restored.is_dirty());

    assert_eq!(restored.read(100, 6).unwrap(), b"stored");
}

#[test]
fn database_file_length_gives_page_count() {
    assert_eq!(page_count_for_length(0), Some(0));

    assert_eq!(page_count_for_length(3 * PAGE_SIZE as u64), Some(3));

    assert_eq!(page_count_for_length(PAGE_SIZE as u64 + 1), None);

    assert_eq!(page_offset(2), Some(2 * PAGE_SIZE as u64));

    assert_eq!(page_offset(u64::MAX), None);
}
