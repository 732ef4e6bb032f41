use data::database::Database;
use data::disk::MemDisk;
use data::error::Error;
use data::expenses::get_all_expenses;
use data::expenses::insert_expense;
use data::expenses::read_expense;
use data::expenses::Expense;
use data::expenses::AMOUNT;
use data::expenses::EXPENSES;
use data::expenses::UUID;
use data::tree::TreeEntry;

#[test]
fn an_expense_that_was_inserted_is_read() {
    let mut db = Database::initialize(MemDisk::new()).unwrap();
    assert_eq!(read_expense(&mut db, 77).unwrap(), None);
    let expense = insert_expense(&mut db, 77, 1_250).unwrap();
    assert_eq!(expense, Expense { uuid: 77, amount: 1_250 });
    assert_eq!(read_expense(&mut db, 77).unwrap(), Some(expense));
    assert_eq!(read_expense(&mut db, 78).unwrap(), None);
    let bytes = db.disk.into_bytes();
    let mut db = Database::from_existing(MemDisk::from_bytes(bytes)).unwrap();
    assert_eq!(read_expense(&mut db, 77).unwrap(), Some(expense));
}

#[test]
fn the_fields_of_an_expense_are_big_endian() {
    let mut db = Database::initialize(MemDisk::new()).unwrap();
    let id = 0x0102_0304_0506_0708_090a_0b0c_0d0e_0f10u128;
    insert_expense(&mut db, id, -2).unwrap();
    let row = || TreeEntry { path: vec![EXPENSES, id] };
    assert_eq!(
        row().value(UUID, &mut db).unwrap(),
        Some(vec![1, 2, 3, 4, 5, 6, 7, 8, 9, 10, 11, 12, 13, 14, 15, 16])
    );
    assert_eq!(
        row().value(AMOUNT, &mut db).unwrap(),
        Some(vec![0xff, 0xff, 0xff, 0xff, 0xff, 0xff, 0xff, 0xfe])
    );
    assert_eq!(row().keys(&mut db).unwrap(), vec![UUID, AMOUNT]);
    assert_eq!(read_expense(&mut db, id).unwrap(), Some(Expense { uuid: id, amount: -2 }));
    for amount in [i64::MIN, -1, 0, 1, i64::MAX] {
        assert_eq!(insert_expense(&mut db, 5, amount).unwrap().amount, amount);
        assert_eq!(read_expense(&mut db, 5).unwrap().unwrap().amount, amount);
    }
}

#[test]
fn all_expenses_come_in_the_order_of_their_ids() {
    let mut db = Database::initialize(MemDisk::new()).unwrap();
    assert_eq!(get_all_expenses(&mut db, None).unwrap(), vec![]);
    for id in [40u128, 10, 30, 20] {
        insert_expense(&mut db, id, id as i64 * 100).unwrap();
    }
    let all = get_all_expenses(&mut db, None).unwrap();
    assert_eq!(
        all,
        vec![
            Expense { uuid: 10, amount: 1_000 },
            Expense { uuid: 20, amount: 2_000 },
            Expense { uuid: 30, amount: 3_000 },
            Expense { uuid: 40, amount: 4_000 },
        ]
    );
    let some = get_all_expenses(&mut db, Some(2_000)).unwrap();
    assert_eq!(some, all[1..].to_vec());
    assert_eq!(get_all_expenses(&mut db, Some(4_001)).unwrap(), vec![]);
    // a listing of expenses that are there leaves the device as it was
    let bytes = db.disk.bytes.clone();
    get_all_expenses(&mut db, Some(0)).unwrap();
    assert_eq!(db.disk.bytes, bytes);
}

#[test]
fn an_amount_that_has_not_eight_bytes_is_a_format_error() {
    let mut db = Database::initialize(MemDisk::new()).unwrap();
    insert_expense(&mut db, 1, 5).unwrap();
    TreeEntry { path: vec![EXPENSES, 1] }.set_value(AMOUNT, &[1, 2, 3], &mut db).unwrap();
    assert_eq!(read_expense(&mut db, 1), Err(Error::Format));
    assert_eq!(get_all_expenses(&mut db, None), Err(Error::Format));
}

#[test]
fn an_id_without_an_amount_is_in_no_listing() {
    let mut db = Database::initialize(MemDisk::new()).unwrap();
    insert_expense(&mut db, 1, 5).unwrap();
    // reading an expense that is not there makes its tree, and its id a key of the table
    assert_eq!(read_expense(&mut db, 2).unwrap(), None);
    assert_eq!(TreeEntry { path: vec![EXPENSES] }.keys(&mut db).unwrap(), vec![1, 2]);
    assert_eq!(get_all_expenses(&mut db, None), Err(Error::InvariantViolation));
    assert_eq!(read_expense(&mut db, 1).unwrap(), Some(Expense { uuid: 1, amount: 5 }));
}
