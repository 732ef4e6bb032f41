use data::database::Database;
use data::disk::MemDisk;
use data::page::btree::BTree;
use data::page::internal_page::safe_insert;
use data::page::internal_page::InternalPage;
use data::page::Page;

#[test]
fn internal_page_test_max_child_capacity() {
    assert_eq!(InternalPage::max_children_capacity(2048), 85);
    assert_eq!(InternalPage::max_children_capacity(4096), 170);
}

#[test]
fn page_test_max_child_capacity() {
    assert_eq!(InternalPage::max_children_capacity(2048), 85);
    assert_eq!(InternalPage::max_children_capacity(4096), 170);
}

#[test]
fn fanout_of_the_canonical_page() {
    assert_eq!(InternalPage::max_children_capacity(8192), 341);
    assert_eq!(InternalPage::header_size(), 9);
}

#[test]
fn safe_insert_at_the_end_and_within() {
    let mut v = vec![1, 2, 4];
    safe_insert(&mut v, 3, 5);
    assert_eq!(v, vec![1, 2, 4, 5]);
    safe_insert(&mut v, 2, 3);
    assert_eq!(v, vec![1, 2, 3, 4, 5]);
    safe_insert(&mut v, 0, 0);
    assert_eq!(v, vec![0, 1, 2, 3, 4, 5]);
}

#[test]
fn internal_page_on_disk_format() {
    let mut db = Database::initialize(MemDisk::new()).unwrap();
    let mut page = InternalPage::init(&mut db, 0x1122_3344_5566_7788).unwrap();
    assert_eq!(page.offset(), 8192);
    assert_eq!(page.keys().len(), 0);
    assert_eq!(page.pointers(), &[0x1122_3344_5566_7788]);
    page.safe_insert(0, 0x0102_0304_0506_0708_090a_0b0c_0d0e_0f10, 0xa0b0, &mut db).unwrap();
    let bytes = &db.disk.bytes[8192..];
    assert_eq!(bytes.len(), 8192);
    assert_eq!(bytes[0], 2);
    assert_eq!(&bytes[1..9], &[0, 0, 0, 0, 0, 0, 0, 1]);
    assert_eq!(&bytes[9..25], &[1, 2, 3, 4, 5, 6, 7, 8, 9, 10, 11, 12, 13, 14, 15, 16]);
    assert_eq!(&bytes[25..33], &[0x11, 0x22, 0x33, 0x44, 0x55, 0x66, 0x77, 0x88]);
    assert_eq!(&bytes[33..41], &[0, 0, 0, 0, 0, 0, 0xa0, 0xb0]);
    assert!(bytes[41..].iter().all(|b| *b == 0));
    match Page::load(8192, &mut db).unwrap() {
        Page::Internal(read) => {
            assert_eq!(read.keys(), page.keys());
            assert_eq!(read.pointers(), page.pointers());
            assert_eq!(read.key(0), 0x0102_0304_0506_0708_090a_0b0c_0d0e_0f10);
            assert_eq!(read.pointer(1), 0xa0b0);
        }
        Page::Leaf(_) => panic!("read as a leaf"),
    }
}

#[test]
fn internal_page_insert_remove_split() {
    let mut db = Database::initialize(MemDisk::new()).unwrap();
    let mut page = InternalPage::init(&mut db, 100).unwrap();
    for i in 0..10u64 {
        page.safe_insert(i as usize, (i as u128 + 1) * 10, 101 + i, &mut db).unwrap();
    }
    assert_eq!(page.keys(), &[10, 20, 30, 40, 50, 60, 70, 80, 90, 100]);
    assert_eq!(page.find_child(5), 0);
    assert_eq!(page.find_child(10), 0);
    assert_eq!(page.find_child(11), 1);
    assert_eq!(page.find_child(100), 9);
    assert_eq!(page.find_child(101), 10);
    assert!(!page.is_full(8192));
    assert!(page.can_accommodate(8192));
    page.safe_remove(0, &mut db).unwrap();
    assert_eq!(page.keys(), &[20, 30, 40, 50, 60, 70, 80, 90, 100]);
    assert_eq!(page.pointers(), &[100, 102, 103, 104, 105, 106, 107, 108, 109, 110]);
    let (right, separator) = page.split_in_half(&mut db).unwrap();
    assert_eq!(separator, 50);
    assert_eq!(page.keys(), &[20, 30, 40]);
    assert_eq!(page.pointers(), &[100, 102, 103, 104]);
    assert_eq!(right.keys(), &[60, 70, 80, 90, 100]);
    assert_eq!(right.pointers(), &[105, 106, 107, 108, 109, 110]);
    assert_eq!(right.offset(), 2 * 8192);
}

#[test]
fn a_full_internal_page() {
    let mut db = Database::initialize(MemDisk::new()).unwrap();
    let mut page = InternalPage::init(&mut db, 1).unwrap();
    for i in 0..340u64 {
        assert!(!page.is_full(8192));
        page.safe_insert(i as usize, i as u128, 2 + i, &mut db).unwrap();
    }
    assert!(page.is_full(8192));
    assert!(!page.can_accommodate(8192));
    assert_eq!(page.pointers().len(), 341);
}

#[test]
fn delete_value_under_an_internal_page() {
    let mut db = Database::initialize(MemDisk::new()).unwrap();
    let mut tree = BTree::init(&mut db).unwrap();
    for k in 0..400u128 {
        tree.insert(k, &[(k % 256) as u8; 100], &mut db).unwrap();
    }
    let mut root = match Page::load(tree.offset(), &mut db).unwrap() {
        Page::Internal(root) => root,
        Page::Leaf(_) => panic!("the root is a leaf"),
    };
    let children = root.pointers().len();
    root.delete_value(7, &mut db).unwrap();
    assert_eq!(tree.lookup(7, &mut db).unwrap(), None);
    assert_eq!(tree.lookup(8, &mut db).unwrap(), Some(vec![8u8; 100]));
    // the first leaf leaves with its separator once it is empty
    let first = match Page::load(root.pointer(0), &mut db).unwrap() {
        Page::Leaf(leaf) => leaf,
        Page::Internal(_) => panic!("two levels of internal pages"),
    };
    let second_key = root.key(1);
    let second_child = root.pointer(1);
    for entry in first.keys() {
        root.delete_value(entry.key, &mut db).unwrap();
    }
    assert_eq!(root.pointers().len(), children - 1);
    assert_eq!(root.key(0), second_key);
    assert_eq!(root.pointer(0), second_child);
    for k in 0..400u128 {
        let found = tree.lookup(k, &mut db).unwrap();
        if k == 7 || first.keys().iter().any(|e| e.key == k) {
            assert_eq!(found, None);
        } else {
            assert_eq!(found, Some(vec![(k % 256) as u8; 100]));
        }
    }
}

#[test]
fn test_max_child_capacity() {
    assert_eq!(InternalPage::max_children_capacity(2048), 85);
    assert_eq!(InternalPage::max_children_capacity(4096), 170);
}
