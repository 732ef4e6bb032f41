use data::database::Database;
use data::disk::MemDisk;
use data::error::Error;
use data::page::btree::BTree;
use data::page::Page;
use std::collections::BTreeMap;

fn new_tree() -> (Database<MemDisk>, BTree) {
    let mut db = Database::initialize(MemDisk::new()).unwrap();
    let tree = BTree::init(&mut db).unwrap();
    (db, tree)
}

#[test]
fn btree_btrees_can_have_a_little_test() {
    let mut db = Database::initialize(MemDisk::new()).unwrap();
    let mut tree = BTree::init(&mut db).unwrap();
    let key = 1;
    let data = &[1, 2, 3, 4];
    tree.insert(key, data, &mut db).unwrap();
    assert_eq!(&tree.lookup(key, &mut db).unwrap().unwrap(), data);
    let mut data = vec![0];
    for i in 1..128 {
        data.push(i);
    }
    for key in 1..8_000 {
        data[0] = (key % 40) as u8;
        tree.insert(key, &data, &mut db).unwrap();
        match tree.lookup(key, &mut db).unwrap() {
            Some(found) => assert_eq!(found, data),
            None => panic!("Failed to lookup key {}", key),
        };
    }
    for key in 10..8_000 {
        tree.delete(key, &mut db).unwrap();
        match tree.lookup(key, &mut db).unwrap() {
            Some(_) => panic!("Key was not actually deleted {}", key),
            None => {}
        }
    }
}

#[test]
fn page_btrees_can_have_a_little_test() {
    let mut db = Database::initialize(MemDisk::new()).unwrap();
    let mut tree = BTree::init(&mut db).unwrap();
    let key = 1;
    let data = &[1, 2, 3, 4];
    tree.insert(key, data, &mut db).unwrap();
    assert_eq!(&tree.lookup(key, &mut db).unwrap().unwrap(), data);
    let mut data = vec![0];
    for i in 1..128 {
        data.push(i);
    }
    for key in 1..8_000 {
        data[0] = (key % 40) as u8;
        tree.insert(key, &data, &mut db).unwrap();
        match tree.lookup(key, &mut db).unwrap() {
            Some(found) => assert_eq!(found, data),
            None => panic!("Failed to lookup key {}", key),
        };
    }
}

#[test]
fn single_insert_round_trip() {
    let (mut db, mut tree) = new_tree();
    tree.insert(1, &[1, 2, 3, 4], &mut db).unwrap();
    assert_eq!(tree.lookup(1, &mut db).unwrap(), Some(vec![1, 2, 3, 4]));
    assert_eq!(tree.lookup(2, &mut db).unwrap(), None);
}

fn value_for(k: u128) -> Vec<u8> {
    let mut v = vec![(k % 40) as u8];
    for i in 1..128 {
        v.push(i as u8);
    }
    v
}

#[test]
fn multi_level_split_and_dense_delete() {
    let (mut db, mut tree) = new_tree();
    let first_root = tree.offset();
    for k in 1..=8000u128 {
        tree.insert(k, &value_for(k), &mut db).unwrap();
    }
    for k in 1..=8000u128 {
        assert_eq!(tree.lookup(k, &mut db).unwrap(), Some(value_for(k)));
    }
    // the root has been split: it is an internal page above many leaves
    assert_ne!(tree.offset(), first_root);
    match Page::load(tree.offset(), &mut db).unwrap() {
        Page::Internal(root) => {
            assert!(root.pointers().len() > 100);
            assert_eq!(root.pointers().len(), root.keys().len() + 1);
        }
        Page::Leaf(_) => panic!("the root is a leaf"),
    }
    let keys = tree.keys(&mut db).unwrap();
    assert_eq!(keys, (1..=8000u128).collect::<Vec<u128>>());
    for k in 10..=8000u128 {
        tree.delete(k, &mut db).unwrap();
    }
    for k in 10..=8000u128 {
        assert_eq!(tree.lookup(k, &mut db).unwrap(), None);
    }
    for k in 1..=9u128 {
        assert_eq!(tree.lookup(k, &mut db).unwrap(), Some(value_for(k)));
    }
    assert_eq!(tree.keys(&mut db).unwrap(), (1..=9u128).collect::<Vec<u128>>());
}

#[test]
fn delete_in_every_order_keeps_the_rest() {
    // leaves that empty first at the left, in the middle and at the right
    for order in 0..3 {
        let (mut db, mut tree) = new_tree();
        let n: u128 = 3000;
        for k in 0..n {
            tree.insert(k, &value_for(k), &mut db).unwrap();
        }
        let mut live: Vec<bool> = vec![true; n as usize];
        let victims: Vec<u128> = match order {
            0 => (0..n).filter(|k| k % 3 != 0).collect(),
            1 => (0..n).rev().filter(|k| k % 5 != 0).collect(),
            _ => (n / 3..2 * n / 3).chain(0..n / 4).collect(),
        };
        for (i, k) in victims.iter().enumerate() {
            tree.delete(*k, &mut db).unwrap();
            live[*k as usize] = false;
            if i % 97 == 0 {
                for j in 0..n {
                    let found = tree.lookup(j, &mut db).unwrap();
                    if live[j as usize] {
                        assert_eq!(found, Some(value_for(j)));
                    } else {
                        assert_eq!(found, None);
                    }
                }
            }
        }
        let expected: Vec<u128> = (0..n).filter(|k| live[*k as usize]).collect();
        assert_eq!(tree.keys(&mut db).unwrap(), expected);
        // a tree that has lost keys takes them again
        for k in victims.iter() {
            tree.insert(*k, &[7, 7], &mut db).unwrap();
        }
        for k in 0..n {
            let found = tree.lookup(k, &mut db).unwrap().unwrap();
            if live[k as usize] {
                assert_eq!(found, value_for(k));
            } else {
                assert_eq!(found, vec![7, 7]);
            }
        }
        assert_eq!(tree.keys(&mut db).unwrap(), (0..n).collect::<Vec<u128>>());
    }
}

#[test]
fn delete_all_then_root_is_a_leaf_again() {
    let (mut db, mut tree) = new_tree();
    for k in 0..2000u128 {
        tree.insert(k, &value_for(k), &mut db).unwrap();
    }
    for k in 0..2000u128 {
        tree.delete(k, &mut db).unwrap();
    }
    assert_eq!(tree.keys(&mut db).unwrap(), Vec::<u128>::new());
    match Page::load(tree.offset(), &mut db).unwrap() {
        Page::Leaf(leaf) => assert_eq!(leaf.keys().len(), 0),
        Page::Internal(_) => panic!("the root has not given way"),
    }
    tree.insert(5, &[1], &mut db).unwrap();
    assert_eq!(tree.lookup(5, &mut db).unwrap(), Some(vec![1]));
}

#[test]
fn insert_of_existing_key_is_an_update() {
    let (mut db, mut tree) = new_tree();
    for k in 0..500u128 {
        tree.insert(k, &value_for(k), &mut db).unwrap();
    }
    let before = tree.keys(&mut db).unwrap();
    tree.insert(77, &[9, 9, 9], &mut db).unwrap();
    assert_eq!(tree.lookup(77, &mut db).unwrap(), Some(vec![9, 9, 9]));
    assert_eq!(tree.keys(&mut db).unwrap(), before);
    tree.insert(77, &[], &mut db).unwrap();
    assert_eq!(tree.lookup(77, &mut db).unwrap(), Some(vec![]));
    assert_eq!(tree.keys(&mut db).unwrap().len(), 500);
}

#[test]
fn delete_twice_is_no_error() {
    let (mut db, mut tree) = new_tree();
    tree.insert(3, &[1], &mut db).unwrap();
    tree.insert(4, &[2], &mut db).unwrap();
    tree.delete(3, &mut db).unwrap();
    assert_eq!(tree.lookup(3, &mut db).unwrap(), None);
    tree.delete(3, &mut db).unwrap();
    assert_eq!(tree.lookup(3, &mut db).unwrap(), None);
    assert_eq!(tree.lookup(4, &mut db).unwrap(), Some(vec![2]));
    assert_eq!(tree.keys(&mut db).unwrap(), vec![4]);
}

#[test]
fn keys_ascend_whatever_the_order_of_inserts() {
    let (mut db, mut tree) = new_tree();
    let mut k: u128 = 1;
    let mut expected = vec![];
    for _ in 0..3000 {
        k = (k * 6364136223846793005 + 1442695040888963407) % 1_000_003;
        tree.insert(k, &[(k % 251) as u8; 40], &mut db).unwrap();
        expected.push(k);
    }
    expected.sort();
    expected.dedup();
    assert_eq!(tree.keys(&mut db).unwrap(), expected);
    tree.insert(u128::MAX, &[1], &mut db).unwrap();
    tree.insert(0, &[2], &mut db).unwrap();
    let keys = tree.keys(&mut db).unwrap();
    assert_eq!(keys[0], 0);
    assert_eq!(keys[keys.len() - 1], u128::MAX);
    assert_eq!(tree.lookup(u128::MAX, &mut db).unwrap(), Some(vec![1]));
}

#[test]
fn value_too_large_for_a_page_is_a_capacity_error() {
    let (mut db, mut tree) = new_tree();
    // an empty leaf of 8192 bytes holds a value of 8192 - 9 - 32 bytes
    tree.insert(1, &vec![5u8; 8151], &mut db).unwrap();
    assert_eq!(tree.lookup(1, &mut db).unwrap(), Some(vec![5u8; 8151]));
    let (mut db, mut tree) = new_tree();
    assert_eq!(tree.insert(1, &vec![5u8; 8152], &mut db), Err(Error::Capacity));
    assert_eq!(tree.lookup(1, &mut db).unwrap(), None);
    // beside one value that leaves no room, a leaf cannot be split
    tree.insert(1, &vec![5u8; 5000], &mut db).unwrap();
    let blocks = db.meta.num_blocks_allocated;
    let root = tree.offset();
    assert_eq!(tree.insert(2, &vec![6u8; 5000], &mut db), Err(Error::Capacity));
    assert_eq!(db.meta.num_blocks_allocated, blocks);
    assert_eq!(tree.offset(), root);
    assert_eq!(tree.lookup(1, &mut db).unwrap(), Some(vec![5u8; 5000]));
    assert_eq!(tree.lookup(2, &mut db).unwrap(), None);
    assert_eq!(tree.keys(&mut db).unwrap(), vec![1]);
}

#[test]
fn internal_pages_split() {
    let (mut db, mut tree) = new_tree();
    let value = |k: u128| vec![(k % 251) as u8; 1500];
    for k in 0..2500u128 {
        // from both ends towards the middle
        let k = if k % 2 == 0 { k } else { 5000 - k };
        tree.insert(k, &value(k), &mut db).unwrap();
    }
    match Page::load(tree.offset(), &mut db).unwrap() {
        Page::Internal(root) => match Page::load(root.pointer(0), &mut db).unwrap() {
            Page::Internal(_) => {}
            Page::Leaf(_) => panic!("no internal page has been split"),
        },
        Page::Leaf(_) => panic!("the root is a leaf"),
    }
    let mut expected = vec![];
    for k in 0..2500u128 {
        let k = if k % 2 == 0 { k } else { 5000 - k };
        assert_eq!(tree.lookup(k, &mut db).unwrap(), Some(value(k)));
        expected.push(k);
    }
    expected.sort();
    assert_eq!(tree.keys(&mut db).unwrap(), expected);
    for k in expected.iter() {
        if k % 7 != 0 {
            tree.delete(*k, &mut db).unwrap();
        }
    }
    for k in expected.iter() {
        let found = tree.lookup(*k, &mut db).unwrap();
        if k % 7 != 0 {
            assert_eq!(found, None);
        } else {
            assert_eq!(found, Some(value(*k)));
        }
    }
    let left: Vec<u128> = expected.iter().cloned().filter(|k| k % 7 == 0).collect();
    assert_eq!(tree.keys(&mut db).unwrap(), left);
}

#[test]
fn large_values_split_leaves() {
    let (mut db, mut tree) = new_tree();
    for k in 0..60u128 {
        tree.insert(k, &vec![k as u8; 3000], &mut db).unwrap();
    }
    for k in 0..60u128 {
        assert_eq!(tree.lookup(k, &mut db).unwrap(), Some(vec![k as u8; 3000]));
    }
    assert_eq!(tree.keys(&mut db).unwrap(), (0..60u128).collect::<Vec<u128>>());
}

#[test]
fn lookup_on_what_is_no_page_is_a_format_error() {
    let mut db = Database::initialize(MemDisk::new()).unwrap();
    // no block has been written behind the header
    let tree = BTree::from_offset(8192);
    assert_eq!(tree.lookup(1, &mut db), Err(Error::Format));
    // a block with an unknown tag
    let mut bytes = vec![0u8; 2 * 8192];
    bytes[..24].copy_from_slice(&db.disk.bytes[..24]);
    bytes[8192] = 3;
    let mut db = Database::from_existing(MemDisk::from_bytes(bytes)).unwrap();
    assert_eq!(tree.lookup(1, &mut db), Err(Error::Format));
    assert!(tree.keys(&mut db).is_err());
}

#[test]
fn two_trees_in_one_database_do_not_mix() {
    let mut db = Database::initialize(MemDisk::new()).unwrap();
    let mut a = BTree::init(&mut db).unwrap();
    let mut b = BTree::init(&mut db).unwrap();
    for k in 0..1500u128 {
        a.insert(k, &value_for(k), &mut db).unwrap();
        b.insert(k, &[1, (k % 200) as u8], &mut db).unwrap();
    }
    for k in 0..1500u128 {
        assert_eq!(a.lookup(k, &mut db).unwrap(), Some(value_for(k)));
        assert_eq!(b.lookup(k, &mut db).unwrap(), Some(vec![1, (k % 200) as u8]));
    }
}

#[test]
fn btrees_can_have_a_little_test() {
    let mut db = Database::initialize(MemDisk::new()).unwrap();
    let mut tree = BTree::init(&mut db).unwrap();
    let key = 1;
    let data = &[1, 2, 3, 4];
    tree.insert(key, data, &mut db).unwrap();
    assert_eq!(&tree.lookup(key, &mut db).unwrap().unwrap(), data);
    let mut data = vec![0];
    for i in 1..128 {
        data.push(i);
    }
    for key in 1..8_000 {
        data[0] = (key % 40) as u8;
        tree.insert(key, &data, &mut db).unwrap();
        match tree.lookup(key, &mut db).unwrap() {
            Some(found) => assert_eq!(found, data),
            None => panic!("Failed to lookup key {}", key),
        };
    }
}

struct Draws(u64);

impl Draws {
    fn next(&mut self) -> u64 {
        self.0 = self.0.wrapping_mul(6364136223846793005).wrapping_add(1442695040888963407);
        self.0 >> 33
    }
}

fn run_against_a_map(seed: u64, steps: usize, key_space: u64, max_len: u64) {
    let (mut db, mut tree) = new_tree();
    let mut reference: BTreeMap<u128, Vec<u8>> = BTreeMap::new();
    let mut draws = Draws(seed);
    for step in 0..steps {
        let key = (draws.next() % key_space) as u128;
        if draws.next() % 10 < 7 {
            let len = (draws.next() % (max_len + 1)) as usize;
            let byte = (draws.next() % 256) as u8;
            let data = vec![byte; len];
            match tree.insert(key, &data, &mut db) {
                Ok(()) => {
                    reference.insert(key, data);
                }
                Err(err) => assert_eq!(err, Error::Capacity),
            }
        } else {
            tree.delete(key, &mut db).unwrap();
            reference.remove(&key);
        }
        assert_eq!(tree.lookup(key, &mut db).unwrap(), reference.get(&key).cloned());
        if step % 997 == 0 || step + 1 == steps {
            for (k, v) in reference.iter() {
                assert_eq!(tree.lookup(*k, &mut db).unwrap().as_ref(), Some(v));
            }
            let keys: Vec<u128> = reference.keys().cloned().collect();
            assert_eq!(tree.keys(&mut db).unwrap(), keys);
        }
    }
}

#[test]
fn random_inserts_and_deletes_of_small_values() {
    run_against_a_map(1, 30_000, 1_000_000_000, 20);
}

#[test]
fn random_inserts_and_deletes_in_a_small_key_space() {
    run_against_a_map(2, 30_000, 700, 300);
}

#[test]
fn random_inserts_and_deletes_of_large_values() {
    run_against_a_map(3, 6_000, 5_000, 3_000);
}

fn leaf_depths(offset: u64, depth: usize, db: &mut Database<MemDisk>, out: &mut Vec<usize>) {
    match Page::load(offset, db).unwrap() {
        Page::Leaf(_) => out.push(depth),
        Page::Internal(page) => {
            for pointer in page.pointers.iter() {
                leaf_depths(*pointer, depth + 1, db, out);
            }
        }
    }
}

#[test]
fn inserts_keep_every_leaf_at_one_depth() {
    let (mut db, mut tree) = new_tree();
    let mut depths = Vec::new();
    leaf_depths(tree.offset(), 0, &mut db, &mut depths);
    assert_eq!(depths, vec![0]);
    let mut deepest = 0;
    for i in 0..2_500u128 {
        let key = (i * 7_919) % 2_503;
        tree.insert(key, &vec![(key % 251) as u8; 1500], &mut db).unwrap();
        if i % 250 == 249 {
            let mut depths = Vec::new();
            leaf_depths(tree.offset(), 0, &mut db, &mut depths);
            assert!(depths.len() > 1);
            assert!(depths.iter().all(|d| *d == depths[0]));
            deepest = depths[0];
        }
    }
    assert_eq!(deepest, 2);
}

fn small_for(len: u64, page_size: u64) -> bool {
    (len + 96) * (len + 32) <= 32 * (page_size - 9)
}

#[test]
fn values_of_up_to_448_bytes_are_small_for_the_page_size() {
    assert!(small_for(0, 8192));
    assert!(small_for(448, 8192));
    assert!(!small_for(449, 8192));
}

#[test]
fn small_values_always_find_room_whatever_their_order() {
    // the longest small values, no values, and both in turn
    let lengths: [fn(u128) -> usize; 4] = [
        |_| 448,
        |_| 0,
        |k| if k % 2 == 0 { 448 } else { 0 },
        |k| if k % 17 < 9 { 448 } else { 1 },
    ];
    let orders: [fn(u128) -> u128; 3] =
        [|i| i, |i| 2_000 - i, |i| (i * 7_919) % 2_003];
    for length in lengths.iter() {
        for order in orders.iter() {
            let (mut db, mut tree) = new_tree();
            for i in 0..2_000u128 {
                let key = order(i);
                tree.insert(key, &vec![(key % 251) as u8; length(key)], &mut db).unwrap();
            }
            for i in 0..2_000u128 {
                let key = order(i);
                assert_eq!(
                    tree.lookup(key, &mut db).unwrap(),
                    Some(vec![(key % 251) as u8; length(key)])
                );
            }
            assert_eq!(tree.keys(&mut db).unwrap().len(), 2_000);
        }
    }
}

#[test]
fn small_values_find_room_after_deletes_and_updates() {
    let (mut db, mut tree) = new_tree();
    let mut reference: BTreeMap<u128, Vec<u8>> = BTreeMap::new();
    let mut draws = Draws(11);
    for _ in 0..12_000 {
        let key = (draws.next() % 2_000) as u128;
        if draws.next() % 4 == 0 {
            tree.delete(key, &mut db).unwrap();
            reference.remove(&key);
        } else {
            let len = (draws.next() % 449) as usize;
            let data = vec![(draws.next() % 256) as u8; len];
            tree.insert(key, &data, &mut db).unwrap();
            reference.insert(key, data);
        }
    }
    for (k, v) in reference.iter() {
        assert_eq!(tree.lookup(*k, &mut db).unwrap().as_ref(), Some(v));
    }
    let keys: Vec<u128> = reference.keys().cloned().collect();
    assert_eq!(tree.keys(&mut db).unwrap(), keys);
}

#[test]
fn a_split_puts_the_right_half_behind_the_left_in_the_page_above() {
    let (mut db, mut tree) = new_tree();
    assert_eq!(tree.offset(), 8192);
    tree.insert(1, &[7u8; 3000], &mut db).unwrap();
    tree.insert(2, &[8u8; 3000], &mut db).unwrap();
    // the root has room: it stays where it is
    assert_eq!(tree.offset(), 8192);
    assert_eq!(db.meta.num_blocks_allocated, 2);
    tree.insert(3, &[9u8; 3000], &mut db).unwrap();
    // the new root is the block that was allocated first, the right half the next
    assert_eq!(tree.offset(), 2 * 8192);
    assert_eq!(db.meta.num_blocks_allocated, 4);
    match Page::load(tree.offset(), &mut db).unwrap() {
        Page::Internal(root) => {
            assert_eq!(root.keys(), &[1]);
            assert_eq!(root.pointers(), &[8192, 3 * 8192]);
        }
        Page::Leaf(_) => panic!("the root is a leaf"),
    }
    match Page::load(8192, &mut db).unwrap() {
        Page::Leaf(left) => assert_eq!(left.keys().iter().map(|e| e.key).collect::<Vec<_>>(), vec![1]),
        Page::Internal(_) => panic!("the left half is no leaf"),
    }
    match Page::load(3 * 8192, &mut db).unwrap() {
        Page::Leaf(right) => {
            assert_eq!(right.keys().iter().map(|e| e.key).collect::<Vec<_>>(), vec![2, 3])
        }
        Page::Internal(_) => panic!("the right half is no leaf"),
    }
}

#[test]
fn a_delete_unlinks_an_empty_leaf_and_the_root_gives_way_to_its_one_child() {
    let (mut db, mut tree) = new_tree();
    for k in 1..=3u128 {
        tree.insert(k, &[k as u8; 3000], &mut db).unwrap();
    }
    assert_eq!(tree.offset(), 2 * 8192);
    // a key that is not there: nothing changes
    let bytes = db.disk.bytes.clone();
    tree.delete(9, &mut db).unwrap();
    assert_eq!(db.disk.bytes, bytes);
    assert_eq!(tree.offset(), 2 * 8192);
    // the left leaf is left empty: it goes with the first key, and the root without keys
    // gives way to the leaf that is left
    tree.delete(1, &mut db).unwrap();
    assert_eq!(tree.offset(), 3 * 8192);
    match Page::load(2 * 8192, &mut db).unwrap() {
        Page::Internal(old_root) => {
            assert_eq!(old_root.keys(), &[] as &[u128]);
            assert_eq!(old_root.pointers(), &[3 * 8192]);
        }
        Page::Leaf(_) => panic!("the old root is a leaf"),
    }
    assert_eq!(tree.lookup(1, &mut db).unwrap(), None);
    assert_eq!(tree.lookup(2, &mut db).unwrap(), Some(vec![2u8; 3000]));
    assert_eq!(tree.lookup(3, &mut db).unwrap(), Some(vec![3u8; 3000]));
    tree.delete(1, &mut db).unwrap();
    assert_eq!(tree.offset(), 3 * 8192);
    assert_eq!(tree.keys(&mut db).unwrap(), vec![2, 3]);
}

#[test]
fn a_value_that_has_room_on_its_way_is_taken_whatever_its_size() {
    let (mut db, mut tree) = new_tree();
    tree.insert(5, &[1u8; 8151], &mut db).unwrap();
    assert_eq!(tree.offset(), 8192);
    assert_eq!(tree.lookup(5, &mut db).unwrap(), Some(vec![1u8; 8151]));
}
