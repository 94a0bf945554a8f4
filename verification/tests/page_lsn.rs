use chronosdb::storage::Page;
use chronosdb::PAGE_SIZE;

#[test]
fn new_page_has_no_lsn() {
    let page = Page::new(0);

    assert_eq!(page.page_lsn(), None);
}

#[test]
fn page_header_is_not_user_writable() {
    let mut page = Page::new(0);

    assert!(page.write(0, b"header",).is_err());

    assert!(page.write(8, b"header",).is_err());
}

#[test]
fn user_payload_still_has_expected_capacity() {
    let mut page = Page::new(0);

    let payload = vec![7_u8; PAGE_SIZE - 16];

    page.write(16, &payload).unwrap();

    assert_eq!(page.read(16, payload.len(),).unwrap(), payload);
}

#[test]
fn page_lsn_is_stored_in_the_header() {
    let mut page = Page::new(0);

    page.set_page_lsn(0x0102_0304);

    assert_eq!(page.page_lsn(), Some(0x0102_0304));

    assert!(page.is_dirty());

    assert_eq!(&page.data()[0..9], &[4, 3, 2, 1, 0, 0, 0, 0, 1]);
}
