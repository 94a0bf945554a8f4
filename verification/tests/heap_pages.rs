use chronosdb::engine::{ensure_active, plan_delete, plan_update, WriteRejection};
use chronosdb::storage::{
    place_in_new_page, place_version, HeapFileError, MvccPage, MvccPageError, Page,
    SlottedPageError,
};
use chronosdb::transaction::{TransactionManager, TransactionState, TupleVersion};

#[test]
fn version_lands_in_a_fresh_heap_page() {
    let page = Page::new(4);

    let version = TupleVersion::new(1, b"row".to_vec());

    let (record_id, mvcc) = place_version(&page, &version).unwrap().unwrap();

    assert_eq!(record_id.page_id(), 4);

    assert_eq!(record_id.slot_id(), 0);

    assert_eq!(mvcc.get_version(0).unwrap(), version);

    let mut stored = Page::new(4);

    mvcc.write_to_page(&mut stored).unwrap();

    let reread = MvccPage::from_page(&stored).unwrap();

    assert_eq!(reread.get_version(0).unwrap(), version);
}

#[test]
fn full_heap_page_has_no_room() {
    let big = TupleVersion::new(1, vec![7_u8; 3000]);

    let (_, mvcc) = place_in_new_page(0, &big).unwrap();

    let mut page = Page::new(0);

    mvcc.write_to_page(&mut page).unwrap();

    assert!(place_version(&page, &big).unwrap().is_none());

    let small = TupleVersion::new(1, vec![1_u8; 10]);

    let (record_id, _) = place_version(&page, &small).unwrap().unwrap();

    assert_eq!(record_id.slot_id(), 1);
}

#[test]
fn oversized_tuple_is_rejected_by_a_new_page() {
    let huge = TupleVersion::new(1, vec![0_u8; 5000]);

    assert_eq!(place_in_new_page(0, &huge).err(), Some(HeapFileError::TupleTooLarge));

    let enormous = TupleVersion::new(1, vec![0_u8; 70_000]);

    assert_eq!(
        place_in_new_page(0, &enormous).err(),
        Some(HeapFileError::Mvcc(MvccPageError::Slotted(SlottedPageError::RecordTooLarge)))
    );
}

#[test]
fn replaced_version_keeps_its_slot() {
    let mut mvcc = MvccPage::new_heap_page(0);

    let mut version = TupleVersion::new(1, b"value".to_vec());

    let record_id = mvcc.insert_version(&version).unwrap();

    version.mark_deleted(2);

    mvcc.replace_version(record_id.slot_id(), &version).unwrap();

    assert_eq!(mvcc.get_version(record_id.slot_id()).unwrap().xmax(), Some(2));

    let longer = TupleVersion::new(1, b"longer value".to_vec());

    assert_eq!(
        mvcc.replace_version(record_id.slot_id(), &longer),
        Err(MvccPageError::Slotted(SlottedPageError::NoSpace))
    );
}

#[test]
fn vacuum_empties_only_reclaimable_slots() {
    let mut manager = TransactionManager::new();

    let aborted = manager.begin();

    let committed = manager.begin();

    manager.abort(aborted.id()).unwrap();

    manager.commit(committed.id()).unwrap();

    let mut mvcc = MvccPage::new_heap_page(0);

    mvcc.insert_version(&TupleVersion::new(aborted.id(), b"dead".to_vec()))
        .unwrap();

    mvcc.insert_version(&TupleVersion::new(committed.id(), b"live".to_vec()))
        .unwrap();

    let horizon = manager.vacuum_horizon();

    let removed = mvcc.vacuum(horizon, |t| manager.state(t)).unwrap();

    assert_eq!(removed, 1);

    assert_eq!(
        mvcc.get_version(0),
        Err(MvccPageError::Slotted(SlottedPageError::Deleted))
    );

    assert_eq!(mvcc.get_version(1).unwrap().payload(), b"live");

    let slot = mvcc
        .insert_version(&TupleVersion::new(committed.id(), b"reuse".to_vec()))
        .unwrap();

    assert_eq!(slot.slot_id(), 0);
}

#[test]
fn concurrent_writers_conflict() {
    let mut manager = TransactionManager::new();

    let creator = manager.begin();

    let base = TupleVersion::new(creator.id(), b"base".to_vec());

    manager.commit(creator.id()).unwrap();

    let first = manager.begin();

    let second = manager.begin();

    let (replaced, created) =
        plan_update(&base, &first, b"first".to_vec(), |t| manager.state(t)).unwrap();

    assert_eq!(replaced.xmax(), Some(first.id()));

    assert_eq!(created.xmin(), first.id());

    assert_eq!(created.payload(), b"first");

    assert_eq!(
        plan_delete(&replaced, &second, |t| manager.state(t)).err(),
        Some(WriteRejection::Conflict(first.id()))
    );

    manager.abort(first.id()).unwrap();

    let retry = plan_delete(&replaced, &second, |t| manager.state(t)).unwrap();

    assert_eq!(retry.xmax(), Some(second.id()));
}

#[test]
fn invisible_version_cannot_be_written() {
    let mut manager = TransactionManager::new();

    let writer = manager.begin();

    let reader = manager.begin();

    let draft = TupleVersion::new(writer.id(), b"draft".to_vec());

    assert_eq!(
        plan_delete(&draft, &reader, |t| manager.state(t)).err(),
        Some(WriteRejection::NotVisible)
    );
}

#[test]
fn only_active_transactions_may_write() {
    assert!(ensure_active(Some(TransactionState::Active)));

    assert!(!ensure_active(Some(TransactionState::Committed)));

    assert!(!ensure_active(None));
}

#[test]
fn unreadable_heap_page_is_reported_corrupt() {
    let mut page = Page::new(2);

    page.write(16, &[0xFF_u8; 6]).unwrap();

    assert_eq!(
        MvccPage::from_page(&page).err(),
        Some(MvccPageError::Slotted(SlottedPageError::Corrupt))
    );

    let version = TupleVersion::new(1, b"row".to_vec());

    assert_eq!(
        place_version(&page, &version).err(),
        Some(MvccPageError::Slotted(SlottedPageError::Corrupt))
    );
}
