use chronosdb::storage::{SlottedPage, SlottedPageError};
use chronosdb::PAGE_SIZE;

#[test]
fn new_page_is_empty() {
    let page = SlottedPage::new();

    assert_eq!(page.slot_count(), 0);

    assert_eq!(page.free_space(), PAGE_SIZE - 6);
}

#[test]
fn insert_and_read_record() {
    let mut page = SlottedPage::new();

    let slot = page.insert(b"hello").unwrap();

    assert_eq!(slot, 0);

    assert_eq!(page.get(slot).unwrap(), b"hello");
}

#[test]
fn multiple_records_have_stable_slots() {
    let mut page = SlottedPage::new();

    let first = page.insert(b"alpha").unwrap();

    let second = page.insert(b"beta").unwrap();

    assert_eq!(first, 0);
    assert_eq!(second, 1);

    assert_eq!(page.get(first).unwrap(), b"alpha");

    assert_eq!(page.get(second).unwrap(), b"beta");
}

#[test]
fn delete_marks_slot_deleted() {
    let mut page = SlottedPage::new();

    let slot = page.insert(b"hello").unwrap();

    page.delete(slot).unwrap();

    assert_eq!(page.get(slot), Err(SlottedPageError::Deleted));
}

#[test]
fn deleted_slot_is_reused() {
    let mut page = SlottedPage::new();

    let first = page.insert(b"alpha").unwrap();

    let second = page.insert(b"beta").unwrap();

    page.delete(first).unwrap();

    let replacement = page.insert(b"gamma").unwrap();

    assert_eq!(replacement, first);

    assert_eq!(page.get(replacement).unwrap(), b"gamma");

    assert_eq!(page.get(second).unwrap(), b"beta");
}

#[test]
fn invalid_slot_fails() {
    let page = SlottedPage::new();

    assert_eq!(page.get(99), Err(SlottedPageError::InvalidSlot));
}

#[test]
fn compaction_preserves_live_records() {
    let mut page = SlottedPage::new();

    let first = page.insert(&vec![1; 500]).unwrap();

    let second = page.insert(&vec![2; 500]).unwrap();

    let third = page.insert(&vec![3; 500]).unwrap();

    page.delete(second).unwrap();

    let before = page.free_space();

    page.compact();

    let after = page.free_space();

    assert!(after > before);

    assert_eq!(page.get(first).unwrap(), vec![1; 500]);

    assert_eq!(page.get(third).unwrap(), vec![3; 500]);
}

#[test]
fn page_round_trip_preserves_slots() {
    let mut page = SlottedPage::new();

    let first = page.insert(b"chronos").unwrap();

    let second = page.insert(b"database").unwrap();

    let bytes = page.as_bytes().to_vec();

    let restored = SlottedPage::from_bytes(bytes);

    assert_eq!(restored.get(first).unwrap(), b"chronos");

    assert_eq!(restored.get(second).unwrap(), b"database");
}

#[test]
fn fills_page_until_no_space() {
    let mut page = SlottedPage::new();

    let record = vec![7_u8; 128];

    let mut inserted = 0;

    loop {
        match page.insert(&record) {
            Ok(_) => {
                inserted += 1;
            }
            Err(SlottedPageError::NoSpace) => {
                break;
            }
            Err(error) => {
                panic!("unexpected error: {error:?}");
            }
        }
    }

    assert!(inserted > 20);
}

#[test]
fn replace_overwrites_record_of_same_length() {
    let mut page = SlottedPage::new();

    let first = page.insert(b"alpha").unwrap();

    let second = page.insert(b"beta").unwrap();

    page.replace(first, b"omega").unwrap();

    assert_eq!(page.get(first).unwrap(), b"omega");

    assert_eq!(page.get(second).unwrap(), b"beta");

    assert_eq!(page.replace(first, b"longer"), Err(SlottedPageError::NoSpace));

    assert_eq!(page.replace(7, b"omega"), Err(SlottedPageError::InvalidSlot));

    page.delete(second).unwrap();

    assert_eq!(page.replace(second, b"beta"), Err(SlottedPageError::Deleted));
}

#[test]
fn oversized_record_is_rejected() {
    let mut page = SlottedPage::new();

    assert_eq!(
        page.insert(&vec![1_u8; 70_000]),
        Err(SlottedPageError::RecordTooLarge)
    );

    assert_eq!(
        page.insert(&vec![1_u8; PAGE_SIZE]),
        Err(SlottedPageError::NoSpace)
    );
}

#[test]
fn zeroed_image_reads_as_empty_page_and_garbage_is_kept() {
    let mut empty = SlottedPage::from_bytes(vec![0_u8; PAGE_SIZE]);

    assert!(empty.is_consistent());

    assert_eq!(empty.slot_count(), 0);

    assert_eq!(empty.free_space(), 0);

    assert_eq!(empty.as_bytes(), &vec![0_u8; PAGE_SIZE][..]);

    assert_eq!(empty.insert(b"first").unwrap(), 0);

    assert_eq!(empty.get(0).unwrap(), b"first");

    assert_eq!(empty.free_space(), PAGE_SIZE - 6 - 4 - 5);

    let mut garbage = vec![0_u8; PAGE_SIZE];

    garbage[0] = 5;

    let loaded = SlottedPage::from_bytes(garbage.clone());

    assert!(!loaded.is_consistent());

    assert_eq!(loaded.as_bytes(), &garbage[..]);

    assert_eq!(loaded.slot_count(), 5);

    assert_eq!(loaded.free_space(), 0);
}

#[test]
fn any_page_image_is_kept_byte_for_byte() {
    let ones = vec![0xFF_u8; PAGE_SIZE];

    let loaded = SlottedPage::from_bytes(ones.clone());

    assert_eq!(loaded.as_bytes(), &ones[..]);

    assert_eq!(loaded.slot_count(), 0xFFFF);

    assert_eq!(loaded.free_space(), 0);

    assert!(!loaded.is_consistent());

    let mut header = vec![0_u8; PAGE_SIZE];

    header[2] = 10;

    header[4] = 40;

    let inverted = SlottedPage::from_bytes(header.clone());

    assert_eq!(inverted.free_space(), 30);

    assert_eq!(inverted.as_bytes(), &header[..]);

    header[2] = 50;

    assert_eq!(SlottedPage::from_bytes(header).free_space(), 0);
}

#[test]
fn compaction_is_idempotent_on_bytes() {
    let mut page = SlottedPage::new();

    page.insert(&vec![1; 300]).unwrap();

    let middle = page.insert(&vec![2; 300]).unwrap();

    page.insert(&vec![3; 300]).unwrap();

    page.delete(middle).unwrap();

    page.compact();

    let once = page.as_bytes().to_vec();

    assert_eq!(page.free_space(), PAGE_SIZE - 6 - 3 * 4 - 600);

    assert_eq!(&once[PAGE_SIZE - 300..], &vec![1_u8; 300][..]);

    assert_eq!(&once[PAGE_SIZE - 600..PAGE_SIZE - 300], &vec![3_u8; 300][..]);

    page.compact();

    assert_eq!(page.as_bytes(), &once[..]);
}

#[test]
fn new_record_costs_its_length_and_one_slot_entry() {
    let mut page = SlottedPage::new();

    let before = page.free_space();

    page.insert(b"seven b").unwrap();

    assert_eq!(page.free_space(), before - 7 - 4);

    let reopened = SlottedPage::from_bytes(page.as_bytes().to_vec());

    assert_eq!(reopened.free_space(), page.free_space());

    assert_eq!(reopened.as_bytes(), page.as_bytes());
}
