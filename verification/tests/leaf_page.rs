use data::database::Database;
use data::disk::MemDisk;
use data::error::Error;
use data::page::leaf_page::LeafPage;
use data::page::leaf_page::LeafPageEntry;
use data::page::Page;

fn reload(offset: u64, db: &mut Database<MemDisk>) -> LeafPage {
    match Page::load(offset, db).unwrap() {
        Page::Leaf(page) => page,
        Page::Internal(_) => panic!("read as an internal page"),
    }
}

#[test]
fn leaf_page_test_leaf_page_a_bit() {
    let mut db = Database::initialize(MemDisk::new()).unwrap();
    let mut page = LeafPage::init(&mut db).unwrap();
    for i in 0..5 {
        page.upsert_value(i, &[0, 1, 2, 3], &mut db).unwrap();
    }
    for i in 2..4 {
        let mut buf = vec![];
        page.lookup_value(i, &mut buf, &mut db.disk).unwrap();
        assert_eq!(buf, &[0, 1, 2, 3]);
    }
    for i in 3..5 {
        assert!(page.delete_value(i, &mut db.disk).unwrap());
    }
}

#[test]
fn page_test_leaf_page_a_bit() {
    let mut db = Database::initialize(MemDisk::new()).unwrap();
    let mut page = LeafPage::init(&mut db).unwrap();
    for i in 0..5 {
        page.upsert_value(i, &[0, 1, 2, 3], &mut db).unwrap();
    }
    for i in 2..4 {
        let mut buf = vec![];
        page.lookup_value(i, &mut buf, &mut db.disk).unwrap();
        assert_eq!(buf, &[0, 1, 2, 3]);
    }
    for i in 3..5 {
        assert!(page.delete_value(i, &mut db.disk).unwrap());
    }
}

#[test]
fn leaf_page_test_upsert() {
    let mut db = Database::initialize(MemDisk::new()).unwrap();
    let mut page = LeafPage::init(&mut db).unwrap();
    page.upsert_value(0, &[0, 1, 2, 3], &mut db).unwrap();
    page.upsert_value(0, &[1, 2], &mut db).unwrap();

    let mut buf = vec![];
    page.lookup_value(0, &mut buf, &mut db.disk).unwrap();
    assert_eq!(buf, &[1, 2]);

    page.upsert_value(0, &[2, 3, 4, 5], &mut db).unwrap();

    page.lookup_value(0, &mut buf, &mut db.disk).unwrap();
    assert_eq!(buf, &[2, 3, 4, 5]);
}

#[test]
fn page_test_upsert() {
    let mut db = Database::initialize(MemDisk::new()).unwrap();
    let mut page = LeafPage::init(&mut db).unwrap();
    page.upsert_value(0, &[0, 1, 2, 3], &mut db).unwrap();
    page.upsert_value(0, &[1, 2], &mut db).unwrap();

    let mut buf = vec![];
    page.lookup_value(0, &mut buf, &mut db.disk).unwrap();
    assert_eq!(buf, &[1, 2]);

    page.upsert_value(0, &[2, 3, 4, 5], &mut db).unwrap();

    page.lookup_value(0, &mut buf, &mut db.disk).unwrap();
    assert_eq!(buf, &[2, 3, 4, 5]);
}

#[test]
fn test_split() {
    let mut db = Database::initialize(MemDisk::new()).unwrap();
    let mut page = LeafPage::init(&mut db).unwrap();
    for i in 0..100 {
        page.upsert_value(i, &[0, 1, 2, 3], &mut db).unwrap();
    }
    let new_right_sibling = page.split_in_half(&mut db).unwrap();
    let page = reload(page.offset(), &mut db);
    assert_eq!(page.keys().len(), 50);

    let new_right_sibling = reload(new_right_sibling.offset(), &mut db);
    assert_eq!(new_right_sibling.keys().len(), 50);
}

#[test]
fn split_of_an_odd_count_keeps_the_extra_slot_on_the_left() {
    let mut db = Database::initialize(MemDisk::new()).unwrap();
    let mut page = LeafPage::init(&mut db).unwrap();
    for i in 0..7u128 {
        page.upsert_value(i * 2, &[i as u8, 1], &mut db).unwrap();
    }
    let right = page.split_in_half(&mut db).unwrap();
    let keys: Vec<u128> = page.keys().iter().map(|e| e.key).collect();
    let right_keys: Vec<u128> = right.keys().iter().map(|e| e.key).collect();
    assert_eq!(keys, vec![0, 2, 4, 6]);
    assert_eq!(right_keys, vec![8, 10, 12]);
    for i in 0..4u128 {
        assert_eq!(page.lookup_value_alloc(i * 2, &mut db.disk).unwrap(), Some(vec![i as u8, 1]));
        assert_eq!(right.lookup_value_alloc(i * 2, &mut db.disk).unwrap(), None);
    }
    for i in 4..7u128 {
        assert_eq!(right.lookup_value_alloc(i * 2, &mut db.disk).unwrap(), Some(vec![i as u8, 1]));
        assert_eq!(page.lookup_value_alloc(i * 2, &mut db.disk).unwrap(), None);
    }
    assert_eq!(right.offset(), 2 * 8192);
}

#[test]
fn leaf_page_on_disk_format() {
    let mut db = Database::initialize(MemDisk::new()).unwrap();
    let mut page = LeafPage::init(&mut db).unwrap();
    assert_eq!(page.offset(), 8192);
    assert_eq!(db.disk.bytes.len(), 2 * 8192);
    assert_eq!(db.disk.bytes[8192], 1);
    assert!(db.disk.bytes[8193..].iter().all(|b| *b == 0));
    page.upsert_value(0x0102_0304_0506_0708_090a_0b0c_0d0e_0f10, &[7, 8, 9], &mut db).unwrap();
    page.upsert_value(3, &[4, 5], &mut db).unwrap();
    let bytes = &db.disk.bytes[8192..];
    assert_eq!(bytes[0], 1);
    assert_eq!(&bytes[1..9], &[0, 0, 0, 0, 0, 0, 0, 2]);
    // slots are sorted by key: key 3 first
    assert_eq!(&bytes[9..25], &[0, 0, 0, 0, 0, 0, 0, 0, 0, 0, 0, 0, 0, 0, 0, 3]);
    assert_eq!(&bytes[25..33], &[0, 0, 0, 0, 0, 0, 0x1f, 0xfb]);
    assert_eq!(&bytes[33..41], &[0, 0, 0, 0, 0, 0, 0, 2]);
    assert_eq!(&bytes[41..57], &[1, 2, 3, 4, 5, 6, 7, 8, 9, 10, 11, 12, 13, 14, 15, 16]);
    assert_eq!(&bytes[57..65], &[0, 0, 0, 0, 0, 0, 0x1f, 0xfd]);
    assert_eq!(&bytes[65..73], &[0, 0, 0, 0, 0, 0, 0, 3]);
    // values grow from the end of the page
    assert_eq!(&bytes[8189..8192], &[7, 8, 9]);
    assert_eq!(&bytes[8187..8189], &[4, 5]);
    let read = reload(8192, &mut db);
    let expected = vec![
        LeafPageEntry { key: 3, offset: 8187, value_len: 2 },
        LeafPageEntry {
            key: 0x0102_0304_0506_0708_090a_0b0c_0d0e_0f10,
            offset: 8189,
            value_len: 3,
        },
    ];
    assert_eq!(read.keys(), &expected[..]);
    assert_eq!(LeafPageEntry::size_of_entry(), 32);
}

#[test]
fn defragmentation() {
    let mut db = Database::initialize(MemDisk::new()).unwrap();
    let mut page = LeafPage::init(&mut db).unwrap();
    for i in 0..50u128 {
        page.upsert_value(i, &[i as u8; 20], &mut db).unwrap();
    }
    for i in 0..25u128 {
        assert!(page.delete_value(2 * i, &mut db.disk).unwrap());
    }
    for i in 0..25u128 {
        page.upsert_value(100 + i, &[i as u8; 40], &mut db).unwrap();
    }
    let bytes = db.disk.bytes.clone();
    let mut db = Database::from_existing(MemDisk::from_bytes(bytes)).unwrap();
    let page = reload(8192, &mut db);
    assert_eq!(page.keys().len(), 50);
    for i in 0..25u128 {
        assert_eq!(
            page.lookup_value_alloc(2 * i + 1, &mut db.disk).unwrap(),
            Some(vec![(2 * i + 1) as u8; 20])
        );
        assert_eq!(page.lookup_value_alloc(2 * i, &mut db.disk).unwrap(), None);
        assert_eq!(page.lookup_value_alloc(100 + i, &mut db.disk).unwrap(), Some(vec![i as u8; 40]));
    }
}

#[test]
fn a_fragmented_page_is_packed_when_room_is_needed() {
    let mut db = Database::initialize(MemDisk::new()).unwrap();
    let mut page = LeafPage::init(&mut db).unwrap();
    // four values fill the page but for a little
    for i in 0..4u128 {
        page.upsert_value(i, &[i as u8; 2000], &mut db).unwrap();
    }
    assert!(!page.can_accommodate(2000, 8192));
    // the holes of two deleted values are not in one piece with the room at the header
    assert!(page.delete_value(1, &mut db.disk).unwrap());
    assert!(page.delete_value(3, &mut db.disk).unwrap());
    assert!(page.can_accommodate(3000, 8192));
    page.upsert_value(9, &[9u8; 3000], &mut db).unwrap();
    assert_eq!(page.lookup_value_alloc(0, &mut db.disk).unwrap(), Some(vec![0u8; 2000]));
    assert_eq!(page.lookup_value_alloc(2, &mut db.disk).unwrap(), Some(vec![2u8; 2000]));
    assert_eq!(page.lookup_value_alloc(9, &mut db.disk).unwrap(), Some(vec![9u8; 3000]));
    // packed against the end of the page, in the order of the keys
    let offsets: Vec<u64> = page.keys().iter().map(|e| e.offset).collect();
    assert_eq!(offsets, vec![8192 - 2000, 8192 - 4000, 8192 - 7000]);
}

#[test]
fn can_accommodate_counts_header_slots_and_values() {
    let mut db = Database::initialize(MemDisk::new()).unwrap();
    let mut page = LeafPage::init(&mut db).unwrap();
    // an empty page accommodates everything
    assert!(page.can_accommodate(1 << 40, 8192));
    page.upsert_value(1, &[0u8; 100], &mut db).unwrap();
    // 8192 - (9 + 32) - 100 = 8051 bytes are left for a value and its slot
    assert!(page.can_accommodate(8051 - 32, 8192));
    assert!(!page.can_accommodate(8051 - 31, 8192));
    assert!(!page.can_accommodate(u64::MAX, 8192));
}

#[test]
fn upsert_beyond_capacity_changes_nothing() {
    let mut db = Database::initialize(MemDisk::new()).unwrap();
    let mut page = LeafPage::init(&mut db).unwrap();
    page.upsert_value(1, &[1u8; 4000], &mut db).unwrap();
    let before = db.disk.bytes.clone();
    assert_eq!(page.upsert_value(2, &[2u8; 4200], &mut db), Err(Error::Capacity));
    assert_eq!(db.disk.bytes, before);
    assert_eq!(page.keys().len(), 1);
    // in place of the value that is there it fits
    page.upsert_value(1, &[2u8; 4200], &mut db).unwrap();
    assert_eq!(page.lookup_value_alloc(1, &mut db.disk).unwrap(), Some(vec![2u8; 4200]));
    assert_eq!(page.upsert_value(1, &[2u8; 8152], &mut db), Err(Error::Capacity));
    assert_eq!(page.lookup_value_alloc(1, &mut db.disk).unwrap(), Some(vec![2u8; 4200]));
}

#[test]
fn delete_of_a_missing_key_returns_false() {
    let mut db = Database::initialize(MemDisk::new()).unwrap();
    let mut page = LeafPage::init(&mut db).unwrap();
    assert!(!page.delete_value(1, &mut db.disk).unwrap());
    page.upsert_value(1, &[1], &mut db).unwrap();
    assert!(!page.delete_value(2, &mut db.disk).unwrap());
    assert!(page.delete_value(1, &mut db.disk).unwrap());
    assert!(!page.delete_value(1, &mut db.disk).unwrap());
    let mut buf = vec![1, 2, 3];
    assert_eq!(page.lookup_value(1, &mut buf, &mut db.disk).unwrap(), None);
    assert_eq!(buf, vec![1, 2, 3]);
}

#[test]
fn test_leaf_page_a_bit() {
    let mut db = Database::initialize(MemDisk::new()).unwrap();
    let mut page = LeafPage::init(&mut db).unwrap();
    for i in 0..5 {
        page.upsert_value(i, &[0, 1, 2, 3], &mut db).unwrap();
    }
    for i in 2..4 {
        let mut buf = vec![];
        page.lookup_value(i, &mut buf, &mut db.disk).unwrap();
        assert_eq!(buf, &[0, 1, 2, 3]);
    }
    for i in 3..5 {
        assert!(page.delete_value(i, &mut db.disk).unwrap());
    }
}

#[test]
fn test_upsert() {
    let mut db = Database::initialize(MemDisk::new()).unwrap();
    let mut page = LeafPage::init(&mut db).unwrap();
    page.upsert_value(0, &[0, 1, 2, 3], &mut db).unwrap();
    page.upsert_value(0, &[1, 2], &mut db).unwrap();

    let mut buf = vec![];
    page.lookup_value(0, &mut buf, &mut db.disk).unwrap();
    assert_eq!(buf, &[1, 2]);

    page.upsert_value(0, &[2, 3, 4, 5], &mut db).unwrap();

    page.lookup_value(0, &mut buf, &mut db.disk).unwrap();
    assert_eq!(buf, &[2, 3, 4, 5]);
}

#[test]
fn split_packs_the_values_of_the_right_sibling() {
    let mut db = Database::initialize(MemDisk::new()).unwrap();
    let mut page = LeafPage::init(&mut db).unwrap();
    // stored from the largest key down, so that the largest lies last in the page
    for i in (0..5u128).rev() {
        page.upsert_value(i, &vec![i as u8; 10 * (i as usize + 1)], &mut db).unwrap();
    }
    let before: Vec<LeafPageEntry> = page.keys().to_vec();
    assert_eq!(before[4], LeafPageEntry { key: 4, offset: 8192 - 50, value_len: 50 });
    assert_eq!(before[0], LeafPageEntry { key: 0, offset: 8192 - 150, value_len: 10 });
    let right = page.split_in_half(&mut db).unwrap();
    assert_eq!(page.keys(), &before[..3]);
    let expected = vec![
        LeafPageEntry { key: 3, offset: 8192 - 40, value_len: 40 },
        LeafPageEntry { key: 4, offset: 8192 - 90, value_len: 50 },
    ];
    assert_eq!(right.keys(), &expected[..]);
    assert_eq!(reload(right.offset(), &mut db).keys(), &expected[..]);
    assert_eq!(reload(page.offset(), &mut db).keys(), &before[..3]);
}

#[test]
fn a_hole_is_left_open_while_there_is_room_below_the_values() {
    let mut db = Database::initialize(MemDisk::new()).unwrap();
    let mut page = LeafPage::init(&mut db).unwrap();
    page.upsert_value(1, &[1u8; 10], &mut db).unwrap();
    page.upsert_value(2, &[2u8; 10], &mut db).unwrap();
    assert!(page.delete_value(1, &mut db.disk).unwrap());
    page.upsert_value(3, &[3u8; 4], &mut db).unwrap();
    let expected = vec![
        LeafPageEntry { key: 2, offset: 8192 - 20, value_len: 10 },
        LeafPageEntry { key: 3, offset: 8192 - 24, value_len: 4 },
    ];
    assert_eq!(page.keys(), &expected[..]);
    // a new value for a key goes below the others, and its old slot goes
    page.upsert_value(2, &[7u8; 6], &mut db).unwrap();
    let expected = vec![
        LeafPageEntry { key: 2, offset: 8192 - 30, value_len: 6 },
        LeafPageEntry { key: 3, offset: 8192 - 24, value_len: 4 },
    ];
    assert_eq!(page.keys(), &expected[..]);
    assert_eq!(reload(page.offset(), &mut db).keys(), &expected[..]);
    assert_eq!(page.lookup_value_alloc(2, &mut db.disk).unwrap(), Some(vec![7u8; 6]));
    assert_eq!(page.lookup_value_alloc(3, &mut db.disk).unwrap(), Some(vec![3u8; 4]));
}
