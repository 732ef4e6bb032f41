use data::database::Database;
use data::disk::MemDisk;
use data::error::Error;
use data::page::btree::BTree;
use data::tree::TreeEntry;
use std::collections::BTreeMap;
use data::tree::read_be_u64;
use data::tree::TreeEntryValue;

#[test]
fn test_tree() {
    let mut db = Database::initialize(MemDisk::new()).unwrap();
    const USERS: u128 = 10;
    const USERNAME: u128 = 40;
    let expected_value = &[1, 2, 3, 4];

    let user_id = 40;
    db.lookup()
        .unwrap()
        .get(USERS, &mut db)
        .unwrap()
        .get(user_id, &mut db)
        .unwrap()
        .set_value(USERNAME, expected_value, &mut db)
        .unwrap();
    let value = db
        .lookup()
        .unwrap()
        .get(USERS, &mut db)
        .unwrap()
        .get(user_id, &mut db)
        .unwrap()
        .value(USERNAME, &mut db)
        .unwrap()
        .unwrap();
    assert_eq!(value.as_slice(), expected_value);
}

#[test]
fn cannot_mix_children_and_values() {
    let mut db = Database::initialize(MemDisk::new()).unwrap();
    const USERS: u128 = 10;
    const USERNAME: u128 = 40;
    let all_user_buf = &[1, 2, 3, 4];
    let username_buf = &[6, 7, 8];

    let user_id = 40;
    db.lookup().unwrap().get(USERS, &mut db).unwrap().set_value(user_id, all_user_buf, &mut db).unwrap();
    db.lookup()
        .unwrap()
        .get(USERS, &mut db)
        .unwrap()
        .get(user_id, &mut db)
        .unwrap()
        .set_value(USERNAME, username_buf, &mut db)
        .unwrap();

    assert_eq!(
        db.lookup()
            .unwrap()
            .get(USERS, &mut db)
            .unwrap()
            .value(user_id, &mut db)
            .unwrap()
            .unwrap()
            .as_slice(),
        all_user_buf
    );

    assert_eq!(
        db.lookup()
            .unwrap()
            .get(USERS, &mut db)
            .unwrap()
            .get(user_id, &mut db)
            .unwrap()
            .value(USERNAME, &mut db)
            .unwrap()
            .unwrap()
            .as_slice(),
        username_buf
    );
}

#[test]
fn nested_tree_coexistence() {
    let mut db = Database::initialize(MemDisk::new()).unwrap();
    const USERS: u128 = 10;
    db.lookup().unwrap().set_value(USERS, &[1, 2, 3, 4], &mut db).unwrap();
    db.lookup().unwrap().get(USERS, &mut db).unwrap().set_value(40, &[6, 7, 8], &mut db).unwrap();
    assert_eq!(db.lookup().unwrap().value(USERS, &mut db).unwrap(), Some(vec![1, 2, 3, 4]));
    assert_eq!(
        db.lookup().unwrap().get(USERS, &mut db).unwrap().value(40, &mut db).unwrap(),
        Some(vec![6, 7, 8])
    );
    assert_eq!(db.lookup().unwrap().keys(&mut db).unwrap(), vec![USERS]);
    assert_eq!(db.lookup().unwrap().get(USERS, &mut db).unwrap().keys(&mut db).unwrap(), vec![40]);
    // a key without inline value
    assert_eq!(db.lookup().unwrap().value(11, &mut db).unwrap(), None);
    db.lookup().unwrap().get(11, &mut db).unwrap();
    assert_eq!(db.lookup().unwrap().value(11, &mut db).unwrap(), None);
    assert_eq!(db.lookup().unwrap().keys(&mut db).unwrap(), vec![USERS, 11]);
}

#[test]
fn nested_trees_survive_root_splits_at_every_level() {
    let mut db = Database::initialize(MemDisk::new()).unwrap();
    let a: u128 = 7;
    let b: u128 = 8;
    let w = vec![3u8; 10];
    db.lookup().unwrap().get(a, &mut db).unwrap().set_value(b, &w, &mut db).unwrap();
    let row = |k: u128| vec![(k % 251) as u8; 100];
    // enough rows under root[a][b] to split its root more than once
    for k in 0..3000u128 {
        db.lookup()
            .unwrap()
            .get(a, &mut db)
            .unwrap()
            .get(b, &mut db)
            .unwrap()
            .set_value(k, &row(k), &mut db)
            .unwrap();
    }
    // and enough tables beside a, and rows beside b
    for k in 100..1500u128 {
        db.lookup().unwrap().set_value(k, &row(k), &mut db).unwrap();
        db.lookup().unwrap().get(a, &mut db).unwrap().set_value(k, &row(k + 1), &mut db).unwrap();
    }
    for k in 0..3000u128 {
        assert_eq!(
            db.lookup()
                .unwrap()
                .get(a, &mut db)
                .unwrap()
                .get(b, &mut db)
                .unwrap()
                .value(k, &mut db)
                .unwrap(),
            Some(row(k))
        );
    }
    for k in 100..1500u128 {
        assert_eq!(db.lookup().unwrap().value(k, &mut db).unwrap(), Some(row(k)));
        assert_eq!(
            db.lookup().unwrap().get(a, &mut db).unwrap().value(k, &mut db).unwrap(),
            Some(row(k + 1))
        );
    }
    assert_eq!(db.lookup().unwrap().get(a, &mut db).unwrap().value(b, &mut db).unwrap(), Some(w));
    assert_eq!(db.lookup().unwrap().value(a, &mut db).unwrap(), None);
    assert_eq!(
        db.lookup().unwrap().get(a, &mut db).unwrap().get(b, &mut db).unwrap().keys(&mut db).unwrap(),
        (0..3000u128).collect::<Vec<u128>>()
    );
    // after reopening, too
    let bytes = db.disk.bytes.clone();
    let mut db = Database::from_existing(MemDisk::from_bytes(bytes)).unwrap();
    assert_eq!(
        db.lookup()
            .unwrap()
            .get(a, &mut db)
            .unwrap()
            .get(b, &mut db)
            .unwrap()
            .value(2999, &mut db)
            .unwrap(),
        Some(row(2999))
    );
}

#[test]
fn payload_codec() {
    let value = TreeEntryValue::from_data(vec![0, 0, 0, 0, 0, 0, 0x20, 0, 9, 8, 7]);
    assert_eq!(value.child_offset, Some(8192));
    assert_eq!(value.data, Some(vec![9, 8, 7]));
    assert_eq!(value.into_buf(), vec![0, 0, 0, 0, 0, 0, 0x20, 0, 9, 8, 7]);
    let value = TreeEntryValue::from_data(vec![0, 0, 0, 0, 0, 0, 0, 0, 1]);
    assert_eq!(value.child_offset, None);
    assert_eq!(value.data, Some(vec![1]));
    let value = TreeEntryValue::from_data(vec![0, 0, 0, 0, 0, 0, 0, 5]);
    assert_eq!(value.child_offset, Some(5));
    assert_eq!(value.data, None);
    // a short payload is read as if zeros followed it
    let value = TreeEntryValue::from_data(vec![1, 2]);
    assert_eq!(value.child_offset, Some(0x0102_0000_0000_0000));
    assert_eq!(value.data, None);
    let value = TreeEntryValue::from_data(vec![]);
    assert_eq!(value.child_offset, None);
    assert_eq!(value.data, None);
    let value = TreeEntryValue::new();
    assert_eq!(value.child_offset, None);
    assert_eq!(value.data, None);
    assert_eq!(value.into_buf(), vec![0, 0, 0, 0, 0, 0, 0, 0]);
    assert_eq!(read_be_u64(&[1, 2, 3, 4, 5, 6, 7, 8, 9]), 0x0102_0304_0506_0708);
}

#[test]
fn an_empty_inline_value_reads_as_none() {
    let mut db = Database::initialize(MemDisk::new()).unwrap();
    db.lookup().unwrap().set_value(1, &[], &mut db).unwrap();
    assert_eq!(db.lookup().unwrap().value(1, &mut db).unwrap(), None);
    assert_eq!(db.lookup().unwrap().keys(&mut db).unwrap(), vec![1]);
}

#[test]
fn a_path_that_leads_to_no_tree() {
    let mut db = Database::initialize(MemDisk::new()).unwrap();
    // without a root tree
    assert_eq!(TreeEntry { path: vec![] }.value(1, &mut db).unwrap(), None);
    assert_eq!(TreeEntry { path: vec![1] }.value(1, &mut db).unwrap(), None);
    assert_eq!(TreeEntry { path: vec![] }.keys(&mut db).unwrap(), Vec::<u128>::new());
    assert_eq!(db.disk.bytes.len(), 24);
    db.lookup().unwrap().set_value(1, &[5], &mut db).unwrap();
    // key 1 has an inline value, and no child tree
    assert_eq!(TreeEntry { path: vec![1] }.value(1, &mut db).unwrap(), None);
    assert_eq!(TreeEntry { path: vec![1] }.keys(&mut db).unwrap(), Vec::<u128>::new());
    assert_eq!(TreeEntry { path: vec![2, 3] }.value(1, &mut db).unwrap(), None);
    assert_eq!(
        TreeEntry { path: vec![2] }.set_value(1, &[1], &mut db),
        Err(Error::InvariantViolation)
    );
    assert_eq!(TreeEntry { path: vec![2] }.get(1, &mut db).err(), Some(Error::InvariantViolation));
    assert_eq!(db.lookup().unwrap().value(1, &mut db).unwrap(), Some(vec![5]));
    assert_eq!(db.lookup().unwrap().keys(&mut db).unwrap(), vec![1]);
}

#[test]
fn get_twice_is_the_same_tree() {
    let mut db = Database::initialize(MemDisk::new()).unwrap();
    let first = db.lookup().unwrap().get(3, &mut db).unwrap();
    assert_eq!(first.path, vec![3]);
    first.set_value(1, &[1], &mut db).unwrap();
    let blocks = db.meta.num_blocks_allocated;
    let second = db.lookup().unwrap().get(3, &mut db).unwrap();
    assert_eq!(db.meta.num_blocks_allocated, blocks);
    assert_eq!(second.value(1, &mut db).unwrap(), Some(vec![1]));
    // the entry of key 3 is the offset of its tree, and nothing else
    let root = BTree::from_offset(db.meta.root_btree_offset);
    assert_eq!(root.lookup(3, &mut db).unwrap(), Some(vec![0, 0, 0, 0, 0, 0, 0x40, 0]));
}

#[test]
fn random_updates_of_nested_trees() {
    let mut db = Database::initialize(MemDisk::new()).unwrap();
    let mut reference: BTreeMap<(Vec<u128>, u128), Vec<u8>> = BTreeMap::new();
    let mut state: u64 = 7;
    let mut next = move || {
        state = state.wrapping_mul(6364136223846793005).wrapping_add(1442695040888963407);
        state >> 33
    };
    for step in 0..6_000 {
        let depth = (next() % 4) as usize;
        let path: Vec<u128> = (0..depth).map(|_| (next() % 5) as u128).collect();
        let key = (next() % 40) as u128;
        let len = (next() % 200 + 1) as usize;
        let data = vec![(next() % 256) as u8; len];
        let mut entry = db.lookup().unwrap();
        for k in path.iter() {
            entry = entry.get(*k, &mut db).unwrap();
        }
        entry.set_value(key, &data, &mut db).unwrap();
        reference.insert((path, key), data);
        if step % 499 == 0 || step == 5_999 {
            for ((path, key), value) in reference.iter() {
                let found = TreeEntry { path: path.clone() }.value(*key, &mut db).unwrap();
                assert_eq!(found.as_ref(), Some(value));
            }
        }
    }
    let bytes = db.disk.into_bytes();
    let mut db = Database::from_existing(MemDisk::from_bytes(bytes)).unwrap();
    for ((path, key), value) in reference.iter() {
        let found = TreeEntry { path: path.clone() }.value(*key, &mut db).unwrap();
        assert_eq!(found.as_ref(), Some(value));
    }
}

#[test]
fn small_inline_values_always_find_room() {
    // behind a child offset of eight bytes, 440 bytes are small for pages of 8192
    let mut db = Database::initialize(MemDisk::new()).unwrap();
    let mut reference: BTreeMap<(Vec<u128>, u128), Vec<u8>> = BTreeMap::new();
    let mut state: u64 = 23;
    let mut next = move || {
        state = state.wrapping_mul(6364136223846793005).wrapping_add(1442695040888963407);
        state >> 33
    };
    for _ in 0..4_000 {
        let depth = (next() % 4) as usize;
        let path: Vec<u128> = (0..depth).map(|_| (next() % 3) as u128).collect();
        let key = (next() % 200) as u128;
        let len = if next() % 2 == 0 { 440 } else { (next() % 441) as usize };
        let data = vec![(next() % 255 + 1) as u8; len];
        let mut entry = db.lookup().unwrap();
        for k in path.iter() {
            entry = entry.get(*k, &mut db).unwrap();
        }
        entry.set_value(key, &data, &mut db).unwrap();
        if len > 0 {
            reference.insert((path, key), data);
        } else {
            reference.remove(&(path, key));
        }
    }
    for ((path, key), value) in reference.iter() {
        let found = TreeEntry { path: path.clone() }.value(*key, &mut db).unwrap();
        assert_eq!(found.as_ref(), Some(value));
    }
}

#[test]
fn keys_of_nested_trees() {
    let mut db = Database::initialize(MemDisk::new()).unwrap();
    let root = || TreeEntry { path: vec![] };
    let table = || TreeEntry { path: vec![1] };
    assert_eq!(db.lookup().unwrap().keys(&mut db).unwrap(), Vec::<u128>::new());
    assert_eq!(root().get(1, &mut db).unwrap().path, vec![1]);
    assert_eq!(root().keys(&mut db).unwrap(), vec![1]);
    table().set_value(5, &[1, 2], &mut db).unwrap();
    let row = table().get(7, &mut db).unwrap();
    assert_eq!(table().keys(&mut db).unwrap(), vec![5, 7]);
    assert_eq!(row.keys(&mut db).unwrap(), Vec::<u128>::new());
    // an empty inline value leaves the key in place
    table().set_value(5, &[], &mut db).unwrap();
    assert_eq!(table().keys(&mut db).unwrap(), vec![5, 7]);
    assert_eq!(root().keys(&mut db).unwrap(), vec![1]);
    // a path that leads to no tree has no keys
    assert_eq!(TreeEntry { path: vec![1, 5] }.keys(&mut db).unwrap(), Vec::<u128>::new());
}

#[test]
fn a_tree_that_is_there_costs_nothing_to_get() {
    let mut db = Database::initialize(MemDisk::new()).unwrap();
    let table = db.lookup().unwrap().get(1, &mut db).unwrap();
    table.get(2, &mut db).unwrap();
    let bytes = db.disk.bytes.clone();
    let meta = db.meta;
    let again = db.lookup().unwrap().get(1, &mut db).unwrap().get(2, &mut db).unwrap();
    assert_eq!(again.path, vec![1, 2]);
    assert_eq!(db.disk.bytes, bytes);
    assert_eq!(db.meta, meta);
}

#[test]
fn the_root_tree_of_a_new_database_is_the_second_block() {
    let mut db = Database::initialize(MemDisk::new()).unwrap();
    assert_eq!(db.meta.root_btree_offset, 0);
    assert_eq!(db.meta.num_blocks_allocated, 1);
    db.lookup().unwrap();
    assert_eq!(db.meta.root_btree_offset, 8192);
    assert_eq!(db.meta.num_blocks_allocated, 2);
    assert_eq!(&db.disk.bytes[8..24], &[0, 0, 0, 0, 0, 0, 0, 2, 0, 0, 0, 0, 0, 0, 0x20, 0]);
    assert_eq!(db.disk.bytes[8192], 1);
    db.lookup().unwrap();
    assert_eq!(db.meta.root_btree_offset, 8192);
    assert_eq!(db.meta.num_blocks_allocated, 2);
}

#[test]
fn the_header_names_the_new_root_of_the_root_tree() {
    let mut db = Database::initialize(MemDisk::new()).unwrap();
    for k in 1..=2u128 {
        db.lookup().unwrap().set_value(k, &[k as u8; 3000], &mut db).unwrap();
        assert_eq!(db.meta.root_btree_offset, 8192);
    }
    // the root leaf has no room for the third entry: the new root is the block
    // that is allocated first
    let end = db.meta.num_blocks_allocated * 8192;
    db.lookup().unwrap().set_value(3, &[3u8; 3000], &mut db).unwrap();
    assert_eq!(db.meta.root_btree_offset, end);
    assert_eq!(&db.disk.bytes[16..24], &end.to_be_bytes());
    let bytes = db.disk.into_bytes();
    let mut db = Database::from_existing(MemDisk::from_bytes(bytes)).unwrap();
    assert_eq!(db.meta.root_btree_offset, end);
    for k in 1..=3u128 {
        assert_eq!(db.lookup().unwrap().value(k, &mut db).unwrap(), Some(vec![k as u8; 3000]));
    }
}

#[test]
fn a_tree_off_the_path_stays_where_it_is() {
    let mut db = Database::initialize(MemDisk::new()).unwrap();
    db.lookup().unwrap().get(1, &mut db).unwrap();
    db.lookup().unwrap().get(2, &mut db).unwrap();
    let child = |db: &mut Database<MemDisk>, k: u128| {
        let root = BTree::from_offset(db.meta.root_btree_offset);
        read_be_u64(&root.lookup(k, db).unwrap().unwrap())
    };
    let first = child(&mut db, 1);
    let second = child(&mut db, 2);
    assert_eq!((first, second), (2 * 8192, 3 * 8192));
    // the tree under key 2 gets a new root; that under key 1 stays
    for k in 0..3u128 {
        TreeEntry { path: vec![2] }.set_value(k, &[1u8; 3000], &mut db).unwrap();
    }
    assert_eq!(child(&mut db, 1), first);
    assert_ne!(child(&mut db, 2), second);
    // an inline value for key 1 leaves its child tree in place
    db.lookup().unwrap().set_value(1, &[5, 5], &mut db).unwrap();
    assert_eq!(child(&mut db, 1), first);
}
