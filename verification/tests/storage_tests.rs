use database::storage::buffer_pool::BufferPool;
use database::storage::disk_manager::DiskManager;
use database::storage::error::DatabaseError;
use database::storage::page::{Page, PageHeader};
use database::storage::slotted_page::{Slot, SlottedPage};

#[test]
fn buffer_pool_tests_test_buffer_pool_basic_operations() {
    let disk_manager = DiskManager::new(Vec::new());
    let mut buffer_pool = BufferPool::new(15, disk_manager);

    let page1 = buffer_pool.new_page().unwrap();
    assert_eq!(page1.header.page_id, 0);

    let mut write_page = Page::new(0);
    write_page.data = vec![1, 2, 3, 4];
    buffer_pool.write_page(0, write_page).unwrap();

    let read_page = buffer_pool.get_page(0).unwrap();
    assert_eq!(read_page.data, vec![1, 2, 3, 4]);
}

#[test]
fn tests_test_buffer_pool_basic_operations() {
    let disk_manager = DiskManager::new(Vec::new());
    let mut buffer_pool = BufferPool::new(15, disk_manager);

    let page1 = buffer_pool.new_page().unwrap();
    assert_eq!(page1.header.page_id, 0);

    let mut write_page = Page::new(0);
    write_page.data = vec![1, 2, 3, 4];
    buffer_pool.write_page(0, write_page).unwrap();

    let read_page = buffer_pool.get_page(0).unwrap();
    assert_eq!(read_page.data, vec![1, 2, 3, 4]);

    for _ in 1..15 {
        let _ = buffer_pool.new_page().unwrap();
    }
    let reloaded_page = buffer_pool.get_page(0).unwrap();
    assert_eq!(reloaded_page.data, vec![1, 2, 3, 4]);
}

#[test]
fn buffer_pool_tests_test_buffer_pool_full() {
    let disk_manager = DiskManager::new(Vec::new());
    let mut buffer_pool = BufferPool::new(2, disk_manager);

    let _page1 = buffer_pool.new_page().unwrap();
    let _page2 = buffer_pool.new_page().unwrap();
    let page3 = buffer_pool.new_page();

    assert!(page3.is_err());
}

#[test]
fn tests_test_buffer_pool_full() {
    let disk_manager = DiskManager::new(Vec::new());
    let mut buffer_pool = BufferPool::new(2, disk_manager);

    let _page1 = buffer_pool.new_page().unwrap();
    let _page2 = buffer_pool.new_page().unwrap();
    let page3 = buffer_pool.new_page();

    assert!(page3.is_err());
    assert!(matches!(page3, Err(DatabaseError::BufferPoolFull)));
    // A page that is not in the cache cannot be read in either.
    let mut other = BufferPool::new(2, DiskManager::new(vec![0u8; 4096 * 3]));
    other.get_page(0).unwrap();
    other.get_page(1).unwrap();
    assert!(matches!(other.get_page(2), Err(DatabaseError::BufferPoolFull)));
    // A page that is in the cache is still handed out.
    assert_eq!(other.get_page(1).unwrap().header.page_id, 0);
}

#[test]
fn test_slotted_page() {
    let mut page = SlottedPage::new(Page::new(0));

    let record1 = vec![1, 2, 3];
    let record2 = vec![4, 5, 6];
    let slot1 = page.insert_record(&record1).unwrap();
    let slot2 = page.insert_record(&record2).unwrap();
    assert_eq!(page.get_record(slot1).unwrap(), record1);
    assert_eq!(page.get_record(slot2).unwrap(), record2);
}

#[test]
fn test_record_operations() {
    let page = Page::new(0);
    let mut slotted_page = SlottedPage::new(page);

    let record1 = b"Hello, World!";
    let slot1 = slotted_page.insert_record(record1).unwrap();

    let retrieved = slotted_page.get_record(slot1).unwrap();
    assert_eq!(retrieved, record1);

    slotted_page.delete_record(slot1).unwrap();

    assert!(slotted_page.get_record(slot1).is_err());
}

#[test]
fn slotted_page_layout_and_errors() {
    let mut slotted = SlottedPage::new(Page::new(9));
    assert_eq!(slotted.insert_record(&[0xaa, 0xbb, 0xcc]).unwrap(), 0);
    assert_eq!(slotted.insert_record(&[0xdd]).unwrap(), 1);
    {
        let page = slotted.page();
        assert!(page.is_dirty());
        assert_eq!(page.header.record_count, 2);
        // The first record ends below the payload's last byte, 4087.
        assert_eq!(&page.data[4084..4087], &[0xaa, 0xbb, 0xcc]);
        assert_eq!(page.data[4083], 0xdd);
        // Slot 0: offset 4084, length 3; slot 1: offset 4083, length 1.
        assert_eq!(&page.data[0..4], &[0xf4, 0x0f, 0x03, 0x00]);
        assert_eq!(&page.data[4..8], &[0xf3, 0x0f, 0x01, 0x00]);
    }
    assert!(matches!(slotted.get_record(2), Err(DatabaseError::InvalidSlot)));
    assert!(matches!(slotted.delete_record(2), Err(DatabaseError::InvalidSlot)));
    slotted.delete_record(0).unwrap();
    assert!(matches!(slotted.get_record(0), Err(DatabaseError::DeletedRecord)));
    assert_eq!(slotted.get_record(1).unwrap(), vec![0xdd]);
    // 4083 bytes are left below the records, 8 of them taken by the two
    // slots: a record of 4071 bytes and its slot fit, one of 4072 does not.
    assert!(matches!(slotted.insert_record(&vec![1u8; 4072]), Err(DatabaseError::PageFull)));
    assert_eq!(slotted.insert_record(&vec![1u8; 4071]).unwrap(), 2);
    assert!(matches!(slotted.insert_record(&[]), Err(DatabaseError::PageFull)));
    assert!(matches!(
        slotted.insert_record(&vec![0u8; 70000]),
        Err(DatabaseError::InvalidRecord)
    ));
}

#[test]
fn slot_bytes() {
    let slot = Slot::new(0x1234, 0x0056);
    assert_eq!(slot.serialize(), [0x34, 0x12, 0x56, 0x00]);
    let back = Slot::deserialize(&[0x34, 0x12, 0x56, 0x00, 0xff]).unwrap();
    assert_eq!((back.offset, back.length), (0x1234, 0x0056));
    assert!(matches!(Slot::deserialize(&[1, 2, 3]), Err(DatabaseError::InvalidRecord)));
}

#[test]
fn page_round_trip() {
    let mut page = Page::new(0x0102_0304);
    page.header.record_count = 7;
    page.data[0] = 0xab;
    page.data[4087] = 0xcd;
    page.mark_dirty();
    page.pin();
    let bytes = page.serialize();
    assert_eq!(bytes.len(), 4096);
    assert_eq!(&bytes[0..8], &[4, 3, 2, 1, 7, 0, 0, 0]);
    assert_eq!(bytes[8], 0xab);
    assert_eq!(bytes[4095], 0xcd);
    let back = Page::deserialize(&bytes).unwrap();
    assert_eq!(back.header.page_id, 0x0102_0304);
    assert_eq!(back.header.record_count, 7);
    assert_eq!(back.data, page.data);
    assert!(!back.is_dirty());
    assert!(matches!(Page::deserialize(&bytes[0..7]), Err(DatabaseError::InvalidPage)));
    assert!(matches!(PageHeader::deserialize(&[0; 7]), Err(DatabaseError::InvalidPage)));
    let header = PageHeader::deserialize(&bytes[0..8]).unwrap();
    assert_eq!(header.serialize(), vec![4, 3, 2, 1, 7, 0, 0, 0]);
    assert_eq!(header.clone().page_id, 0x0102_0304);
}

#[test]
fn page_flags_and_pins() {
    let mut page = Page::new(1);
    assert!(!page.is_dirty());
    assert_eq!(page.data, vec![0u8; 4088]);
    assert!(matches!(page.unpin(), Err(DatabaseError::InvalidOperation(_))));
    page.pin();
    page.pin();
    page.unpin().unwrap();
    page.unpin().unwrap();
    assert!(page.unpin().is_err());
    page.write().unwrap();
    assert!(page.is_dirty());
    let copy = page.clone();
    assert!(copy.is_dirty());
    assert_eq!(copy.header.page_id, 1);
}

#[test]
fn disk_manager_allocation_is_dense() {
    let mut disk = DiskManager::new(Vec::new());
    for k in 0..10u32 {
        assert_eq!(disk.allocate_page().unwrap(), k);
        assert!(disk.contents().len() >= (k as usize + 1) * 4096);
    }
    assert_eq!(disk.contents().len(), 10 * 4096);
}

#[test]
fn disk_manager_reads_writes_and_frees() {
    let mut disk = DiskManager::new(Vec::new());
    assert!(matches!(disk.read_page(0), Err(DatabaseError::PageNotFound(0))));
    assert!(matches!(disk.free_page(0), Err(DatabaseError::InvalidPage)));
    assert_eq!(disk.allocate_page().unwrap(), 0);
    assert_eq!(disk.allocate_page().unwrap(), 1);
    let mut page = Page::new(1);
    page.data[5] = 42;
    disk.write_page(&page).unwrap();
    assert_eq!(disk.contents()[4096 + 8 + 5], 42);
    let back = disk.read_page(1).unwrap();
    assert_eq!(back.header.page_id, 1);
    assert_eq!(back.data[5], 42);
    assert!(matches!(disk.read_page(2), Err(DatabaseError::PageNotFound(2))));
    // A payload that is short is followed by zeros; one that is long is
    // refused.
    let mut short = Page::new(0);
    short.data = vec![9, 9];
    disk.write_page(&short).unwrap();
    assert_eq!(&disk.contents()[8..12], &[9, 9, 0, 0]);
    let mut long = Page::new(0);
    long.data = vec![0; 4089];
    assert!(matches!(disk.write_page(&long), Err(DatabaseError::InvalidPage)));
    disk.free_page(1).unwrap();
    assert_eq!(&disk.contents()[4096..8192], &vec![0u8; 4096][..]);
    assert!(matches!(disk.free_page(2), Err(DatabaseError::InvalidPage)));
    // The id of a freed page is not given out again.
    assert_eq!(disk.allocate_page().unwrap(), 2);
}

#[test]
fn buffer_pool_writes_through_and_frees() {
    let mut pool = BufferPool::new(4, DiskManager::new(Vec::new()));
    let id = pool.new_page().unwrap().header.page_id;
    let mut page = Page::new(id);
    page.data[0] = 77;
    pool.write_page(id, page).unwrap();
    assert_eq!(pool.disk_manager().contents()[8], 77);
    pool.free_page(id).unwrap();
    assert_eq!(pool.disk_manager().contents()[8], 0);
    // The page is read from disk again, as zeros.
    assert_eq!(pool.get_page(id).unwrap().data[0], 0);
    assert!(matches!(pool.free_page(5), Err(DatabaseError::InvalidPage)));
    assert!(matches!(pool.get_page(9), Err(DatabaseError::InvalidOperation(_))));
}

#[test]
fn buffer_pool_flush_writes_dirty_pages() {
    let mut pool = BufferPool::new(4, DiskManager::new(vec![0u8; 8192]));
    // A dirty page in the cache whose place on disk another page took.
    let mut dirty = Page::new(1);
    dirty.data[3] = 5;
    dirty.mark_dirty();
    pool.write_page(0, dirty).unwrap();
    assert_eq!(pool.disk_manager().contents()[4096 + 8 + 3], 5);
    pool.write_page(1, Page::new(1)).unwrap();
    assert_eq!(pool.disk_manager().contents()[4096 + 8 + 3], 0);
    pool.flush().unwrap();
    assert_eq!(pool.disk_manager().contents()[4096 + 8 + 3], 5);
    // Clean pages are not written.
    let mut clean = BufferPool::new(4, DiskManager::new(vec![7u8; 8192]));
    clean.get_page(0).unwrap();
    clean.get_page(1).unwrap();
    clean.flush().unwrap();
    assert_eq!(clean.disk_manager().contents(), &vec![7u8; 8192]);
}

#[test]
fn the_pages_of_a_file_count_as_allocated() {
    let mut disk = DiskManager::new(vec![1u8; 4096 * 2 + 5]);
    assert_eq!(disk.allocate_page().unwrap(), 2);
    assert_eq!(disk.contents().len(), 4096 * 3);
    assert_eq!(&disk.contents()[..8192], &vec![1u8; 8192][..]);
    assert_eq!(&disk.contents()[8192..], &vec![0u8; 4096][..]);
    assert!(disk.free_page(1).is_ok());
    assert_eq!(&disk.contents()[4096..8192], &vec![0u8; 4096][..]);
    assert!(matches!(disk.free_page(3), Err(DatabaseError::InvalidPage)));
    // A new file has none.
    let mut fresh = DiskManager::new(Vec::new());
    assert!(matches!(fresh.free_page(0), Err(DatabaseError::InvalidPage)));
    assert_eq!(fresh.allocate_page().unwrap(), 0);
}
