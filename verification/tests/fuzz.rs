use data::database::Database;
use data::disk::MemDisk;
use data::error::Error;
use data::fuzz::perform;
use data::fuzz::validate;
use data::fuzz::Instruction;
use data::page::btree::BTree;

#[test]
fn a_tree_is_held_against_what_it_should_hold() {
    let mut db = Database::initialize(MemDisk::new()).unwrap();
    let mut tree = BTree::init(&mut db).unwrap();
    assert_eq!(validate(&vec![], &tree, &mut db), Ok(true));
    perform(&Instruction::Insert(1, vec![1, 2, 3]), &mut tree, &mut db).unwrap();
    perform(&Instruction::Insert(2, vec![]), &mut tree, &mut db).unwrap();
    perform(&Instruction::Insert(3, vec![9]), &mut tree, &mut db).unwrap();
    perform(&Instruction::Delete(3), &mut tree, &mut db).unwrap();
    perform(&Instruction::Delete(4), &mut tree, &mut db).unwrap();
    assert_eq!(tree.keys(&mut db).unwrap(), vec![1, 2]);
    assert_eq!(validate(&vec![(1, vec![1, 2, 3]), (2, vec![])], &tree, &mut db), Ok(true));
    assert_eq!(validate(&vec![(2, vec![])], &tree, &mut db), Ok(true));
    // another value, a prefix of the value, a longer value, a key that is not there
    assert_eq!(validate(&vec![(1, vec![1, 2, 4])], &tree, &mut db), Ok(false));
    assert_eq!(validate(&vec![(1, vec![1, 2])], &tree, &mut db), Ok(false));
    assert_eq!(validate(&vec![(1, vec![1, 2, 3, 4])], &tree, &mut db), Ok(false));
    assert_eq!(validate(&vec![(1, vec![1, 2, 3]), (3, vec![9])], &tree, &mut db), Ok(false));
}

#[test]
fn an_insert_that_finds_no_room_is_a_capacity_error() {
    let mut db = Database::initialize(MemDisk::new()).unwrap();
    let mut tree = BTree::init(&mut db).unwrap();
    let r = perform(&Instruction::Insert(1, vec![0; 9_000]), &mut tree, &mut db);
    assert_eq!(r, Err(Error::Capacity));
    assert_eq!(validate(&vec![], &tree, &mut db), Ok(true));
    assert_eq!(tree.keys(&mut db).unwrap(), Vec::<u128>::new());
}
