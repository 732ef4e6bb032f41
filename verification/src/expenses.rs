//! Expenses: a table of the root tree, in which each expense is a tree of
//! its fields under its id.

use crate::bytes::lemma_u128_be_roundtrip;
use crate::bytes::lemma_u64_be_roundtrip;
use crate::bytes::put_u128;
use crate::bytes::put_u64;
use crate::bytes::u128_to_be;
use crate::bytes::u64_from_be;
use crate::bytes::u64_to_be;
use crate::database::Database;
use crate::disk::Disk;
use crate::error::Error;
use crate::error::io_failure;
use crate::key::Key;
use crate::nested::lemma_tree_at_prefix;
use crate::nested::nested_ok;
use crate::page::internal_spec::keys_sorted;
use crate::page::room::lemma_small_less;
use crate::page::room::small;
use crate::page::shape::store_of;
use crate::tree::TreeEntry;
use crate::tree::header_kept_but_root;
use crate::tree::read_be_u64;
use crate::tree::same_database;
use crate::tree::update_error;
use vstd::prelude::*;

verus! {

/// The key of the table of expenses in the root tree.
pub const EXPENSES: Key = 0;

/// The key of the id among the fields of an expense.
pub const UUID: Key = 0;

/// The key of the amount among the fields of an expense.
pub const AMOUNT: Key = 1;

/// An expense.
#[derive(Clone, Copy, Debug, PartialEq, Eq, Structural)]
pub struct Expense {
    pub uuid: u128,
    /// the number of cents in the expense
    pub amount: i64,
}

/// The path to the table of expenses.
pub open spec fn table() -> Seq<Key> {
    seq![EXPENSES]
}

/// The path to the fields of the expense with an id.
pub open spec fn row(uuid: u128) -> Seq<Key> {
    seq![EXPENSES, uuid]
}

/// The amount that eight bytes spell: big-endian, in two's complement.
pub open spec fn amount_of(v: Seq<u8>) -> i64 {
    #[verifier::truncate]
    (u64_from_be(v) as i64)
}

/// The eight bytes of an amount.
pub open spec fn amount_bytes(amount: i64) -> Seq<u8> {
    u64_to_be(#[verifier::truncate] (amount as u64))
}

/// Reading an amount undoes writing it.
pub proof fn lemma_amount_roundtrip(amount: i64)
    ensures
        amount_bytes(amount).len() == 8,
        amount_of(amount_bytes(amount)) == amount,
{
    lemma_u64_be_roundtrip(amount as u64);
    assert(((amount as u64) as i64) == amount) by (bit_vector);
}

/// What the database holds of the expense with an id, as a read finds it:
/// none where the expense has no amount, an expense where the amount has
/// eight bytes, and a format error else.
pub open spec fn expense_at<D: Disk>(db: &Database<D>, uuid: u128) -> Result<
    Option<Expense>,
    Error,
> {
    match db.value_at(row(uuid), AMOUNT) {
        Some(v) => if v.len() == 8 {
            Ok(Some(Expense { uuid, amount: amount_of(v) }))
        } else {
            Err(Error::Format)
        },
        None => Ok(None),
    }
}

/// What a visit of the expense with an id has made of the database: the
/// root tree, the table and the tree of the expense are there, the table
/// and the id are keys of the trees above them, and nothing else has
/// changed.
pub open spec fn visited<D: Disk>(db: &Database<D>, db2: &Database<D>, uuid: u128) -> bool {
    &&& nested_ok(db2)
    &&& forall|q: Seq<Key>, k: Key| #[trigger] db2.value_at(q, k) == db.value_at(q, k)
    &&& forall|q: Seq<Key>|
        #[trigger] db2.has_tree(q) == (db.has_tree(q) || q.len() == 0 || q == table() || q == row(
            uuid,
        ))
    &&& forall|q: Seq<Key>|
        #[trigger] db2.keys_at(q) == if q.len() == 0 {
            db.keys_at(q).insert(EXPENSES)
        } else if q == table() {
            db.keys_at(q).insert(uuid)
        } else {
            db.keys_at(q)
        }
}

/// The entry of the tree of the expense with an id, which is made if it
/// is not there, as are the table and the root tree.
fn visit<D: Disk>(db: &mut Database<D>, uuid: u128) -> (r: Result<TreeEntry, Error>)
    requires
        old(db).inv(),
    ensures
        final(db).disk.reliable() == old(db).disk.reliable(),
        header_kept_but_root(old(db), final(db)),
        nested_ok(old(db)) ==> match r {
            Ok(entry) => entry.path@ == row(uuid) && visited(old(db), final(db), uuid) && old(
                db,
            ).grown_by(final(db), 8),
            Err(e) => update_error(&old(db).disk, e),
        },
        nested_ok(old(db)) && old(db).disk.reliable() && old(db).small_at(table(), 0) && old(
            db,
        ).roomy_for(8) ==> r is Ok,
        nested_ok(old(db)) && old(db).has_tree(row(uuid)) ==> match r {
            Ok(_) => same_database(old(db), final(db)),
            Err(e) => io_failure(&old(db).disk, e),
        },
{
    let ghost db0 = *db;
    let ghost ready = nested_ok(db);
    let ghost owed = ready && db.disk.reliable() && db.small_at(table(), 0) && db.roomy_for(8);
    let ghost there = ready && db.has_tree(row(uuid));
    let ghost top = Seq::<Key>::empty();
    proof {
        assert(top.push(EXPENSES) =~= table());
        assert(table().push(uuid) =~= row(uuid));
        assert(table().take(0) =~= top);
        assert(table().take(1) =~= table());
        if there {
            lemma_tree_at_prefix(store_of(db), db.meta.root_btree_offset, table(), uuid);
            lemma_tree_at_prefix(store_of(db), db.meta.root_btree_offset, top, EXPENSES);
        }
        if owed {
            db0.lemma_roomy_blocks(8);
        }
    }
    let root = match db.lookup() {
        Ok(entry) => entry,
        Err(e) => {
            return Err(e);
        },
    };
    let ghost db1 = *db;
    proof {
        if owed {
            db0.lemma_roomy_after(db, 1, 7);
            db1.lemma_roomy_fewer(7, 3);
            assert(db1.small_at(top, 0)) by {
                assert forall|i: int, k: Key| 0 <= i <= top.len() implies ((#[trigger] db1.value_at(
                    top.take(i),
                    k,
                )) matches Some(v) ==> small(8 + v.len() as int, db1.spec_block_size())) by {
                    assert(top.take(i) =~= table().take(0));
                    assert(db1.value_at(top.take(i), k) == db0.value_at(table().take(0), k));
                }
            }
        }
    }
    let table_entry = match root.get(EXPENSES, db) {
        Ok(entry) => entry,
        Err(e) => {
            return Err(e);
        },
    };
    let ghost db2 = *db;
    proof {
        if ready {
            db0.lemma_grown_twice(&db1, db, 1, 3);
        }
        if owed {
            db1.lemma_roomy_after(db, 3, 4);
            assert(db2.small_at(table(), 0)) by {
                assert forall|i: int, k: Key| 0 <= i <= table().len() implies ((
                #[trigger] db2.value_at(table().take(i), k)) matches Some(v) ==> small(
                    8 + v.len() as int,
                    db2.spec_block_size(),
                )) by {
                    assert(db2.value_at(table().take(i), k) == db1.value_at(table().take(i), k));
                    assert(db1.value_at(table().take(i), k) == db0.value_at(table().take(i), k));
                }
            }
        }
    }
    let r = table_entry.get(uuid, db);
    proof {
        if ready && r is Ok {
            db0.lemma_grown_twice(&db2, db, 4, 4);
            assert forall|q: Seq<Key>| #[trigger]
                db.has_tree(q) == (db0.has_tree(q) || q.len() == 0 || q == table() || q == row(
                    uuid,
                )) by {
                assert(db2.has_tree(q) == (db1.has_tree(q) || q.len() == 0 || q == table()));
                assert(db1.has_tree(q) == (db0.has_tree(q) || q.len() == 0));
            }
            assert forall|q: Seq<Key>| #[trigger] db.keys_at(q) == if q.len() == 0 {
                db0.keys_at(q).insert(EXPENSES)
            } else if q == table() {
                db0.keys_at(q).insert(uuid)
            } else {
                db0.keys_at(q)
            } by {
                if q.len() == 0 {
                    assert(q =~= top);
                }
                assert(db1.keys_at(q) == db0.keys_at(q));
                assert(db2.keys_at(q) == if q == top {
                    db1.keys_at(q).insert(EXPENSES)
                } else {
                    db1.keys_at(q)
                });
            }
            assert forall|q: Seq<Key>, k: Key| #[trigger] db.value_at(q, k) == db0.value_at(
                q,
                k,
            ) by {
                assert(db2.value_at(q, k) == db1.value_at(q, k));
                assert(db1.value_at(q, k) == db0.value_at(q, k));
            }
        }
    }
    r
}

/// The expense with an id, if the database holds its amount. The tree of
/// the expense is made if it is not there, as are the table and the root
/// tree. An amount that has not eight bytes is a format error.
pub fn read_expense<D: Disk>(db: &mut Database<D>, uuid: u128) -> (r: Result<
    Option<Expense>,
    Error,
>)
    requires
        old(db).inv(),
    ensures
        final(db).disk.reliable() == old(db).disk.reliable(),
        header_kept_but_root(old(db), final(db)),
        nested_ok(old(db)) ==> match r {
            Ok(e) => r == expense_at(old(db), uuid) && visited(old(db), final(db), uuid) && old(
                db,
            ).grown_by(final(db), 8),
            Err(Error::Format) => r == expense_at(old(db), uuid) && visited(
                old(db),
                final(db),
                uuid,
            ),
            Err(e) => update_error(&old(db).disk, e),
        },
        nested_ok(old(db)) && old(db).disk.reliable() && old(db).small_at(table(), 0) && old(
            db,
        ).roomy_for(8) ==> r == expense_at(old(db), uuid),
        nested_ok(old(db)) && old(db).has_tree(row(uuid)) ==> (r == expense_at(old(db), uuid)
            && same_database(old(db), final(db))) || (r matches Err(e) && io_failure(
            &old(db).disk,
            e,
        )),
{
    let ghost db0 = *db;
    let entry = match visit(db, uuid) {
        Ok(entry) => entry,
        Err(e) => {
            return Err(e);
        },
    };
    let ghost db1 = *db;
    let found = entry.value(AMOUNT, db);
    proof {
        assert(store_of(db) == store_of(&db1));
        if nested_ok(&db0) {
            assert(visited(&db0, db, uuid)) by {
                assert forall|q: Seq<Key>, k: Key| #[trigger] db.value_at(q, k) == db0.value_at(
                    q,
                    k,
                ) by {
                    assert(db1.value_at(q, k) == db0.value_at(q, k));
                }
                assert forall|q: Seq<Key>| #[trigger]
                    db.has_tree(q) == (db0.has_tree(q) || q.len() == 0 || q == table() || q
                        == row(uuid)) by {
                    assert(db1.has_tree(q) == (db0.has_tree(q) || q.len() == 0 || q == table()
                        || q == row(uuid)));
                }
                assert forall|q: Seq<Key>| #[trigger] db.keys_at(q) == if q.len() == 0 {
                    db0.keys_at(q).insert(EXPENSES)
                } else if q == table() {
                    db0.keys_at(q).insert(uuid)
                } else {
                    db0.keys_at(q)
                } by {
                    assert(db1.keys_at(q) == db.keys_at(q));
                }
            }
            assert(db1.value_at(row(uuid), AMOUNT) == db0.value_at(row(uuid), AMOUNT));
        }
    }
    let bytes = match found {
        Ok(Some(bytes)) => bytes,
        Ok(None) => {
            return Ok(None);
        },
        Err(e) => {
            return Err(e);
        },
    };
    if bytes.len() != 8 {
        return Err(Error::Format);
    }
    proof {
        assert(bytes@.subrange(0, 8) =~= bytes@);
    }
    let amount: i64 = #[verifier::truncate]
    (read_be_u64(bytes.as_slice()) as i64);
    Ok(Some(Expense { uuid, amount }))
}

/// What recording an expense has made of the database: the expense has
/// its id and its amount among its fields, and beyond what a visit of the
/// expense makes nothing else has changed.
pub open spec fn recorded<D: Disk>(
    db: &Database<D>,
    db2: &Database<D>,
    uuid: u128,
    amount: i64,
) -> bool {
    &&& nested_ok(db2)
    &&& forall|q: Seq<Key>, k: Key|
        #[trigger] db2.value_at(q, k) == if q == row(uuid) && k == UUID {
            Some(u128_to_be(uuid))
        } else if q == row(uuid) && k == AMOUNT {
            Some(amount_bytes(amount))
        } else {
            db.value_at(q, k)
        }
    &&& forall|q: Seq<Key>|
        #[trigger] db2.has_tree(q) == (db.has_tree(q) || q.len() == 0 || q == table() || q == row(
            uuid,
        ))
    &&& forall|q: Seq<Key>|
        #[trigger] db2.keys_at(q) == if q.len() == 0 {
            db.keys_at(q).insert(EXPENSES)
        } else if q == table() {
            db.keys_at(q).insert(uuid)
        } else if q == row(uuid) {
            db.keys_at(q).insert(UUID).insert(AMOUNT)
        } else {
            db.keys_at(q)
        }
}

/// Small inline values stay small where every inline value is as it was
/// or small.
proof fn lemma_small_kept<D: Disk>(
    db: &Database<D>,
    db2: &Database<D>,
    path: Seq<Key>,
    len: int,
    len2: int,
)
    requires
        db.small_at(path, len),
        db2.spec_block_size() == db.spec_block_size(),
        small(8 + len2, db.spec_block_size()),
        forall|q: Seq<Key>, k: Key|
            #[trigger] db2.value_at(q, k) == db.value_at(q, k) || (db2.value_at(
                q,
                k,
            ) matches Some(v) && small(8 + v.len() as int, db.spec_block_size())),
    ensures
        db2.small_at(path, len2),
{
    assert forall|i: int, k: Key| 0 <= i <= path.len() implies ((#[trigger] db2.value_at(
        path.take(i),
        k,
    )) matches Some(v) ==> small(8 + v.len() as int, db2.spec_block_size())) by {
        let q = path.take(i);
        if db2.value_at(q, k) == db.value_at(q, k) {
            assert(db.value_at(path.take(i), k) matches Some(v) ==> small(
                8 + v.len() as int,
                db.spec_block_size(),
            ));
        }
    }
}

/// Records an expense under its id: the id and the amount become fields
/// of the expense, whose tree is made if it is not there, as are the table
/// and the root tree. Returns the expense as the database then holds it.
pub fn insert_expense<D: Disk>(db: &mut Database<D>, uuid: u128, amount: i64) -> (r: Result<
    Expense,
    Error,
>)
    requires
        old(db).inv(),
    ensures
        final(db).disk.reliable() == old(db).disk.reliable(),
        header_kept_but_root(old(db), final(db)),
        nested_ok(old(db)) ==> match r {
            Ok(e) => e == (Expense { uuid, amount }) && recorded(old(db), final(db), uuid, amount),
            Err(e) => update_error(&old(db).disk, e),
        },
        nested_ok(old(db)) && old(db).disk.reliable() && old(db).small_at(row(uuid), 16) && old(
            db,
        ).roomy_for(18) ==> r is Ok,
{
    let ghost db0 = *db;
    let ghost ready = nested_ok(db);
    let ghost owed = ready && db.disk.reliable() && db.small_at(row(uuid), 16) && db.roomy_for(18);
    let ghost bs = db.spec_block_size();
    proof {
        lemma_u128_be_roundtrip(uuid);
        lemma_amount_roundtrip(amount);
        if owed {
            lemma_small_less(8, 24, bs);
            lemma_small_less(16, 24, bs);
            db0.lemma_roomy_fewer(18, 8);
            assert(db0.small_at(table(), 0)) by {
                assert forall|i: int, k: Key| 0 <= i <= table().len() implies ((
                #[trigger] db0.value_at(table().take(i), k)) matches Some(v) ==> small(
                    8 + v.len() as int,
                    bs,
                )) by {
                    assert(table().take(i) =~= row(uuid).take(i));
                }
            }
        }
    }
    let entry = match visit(db, uuid) {
        Ok(entry) => entry,
        Err(e) => {
            return Err(e);
        },
    };
    let ghost db1 = *db;
    let mut id_bytes: Vec<u8> = Vec::new();
    put_u128(&mut id_bytes, uuid);
    proof {
        assert(id_bytes@ =~= u128_to_be(uuid));
        if owed {
            db0.lemma_roomy_after(db, 8, 10);
            db1.lemma_roomy_fewer(10, 5);
            lemma_small_kept(&db0, db, row(uuid), 16, 16);
        }
    }
    match entry.set_value(UUID, id_bytes.as_slice(), db) {
        Ok(()) => {},
        Err(e) => {
            return Err(e);
        },
    }
    let ghost db2 = *db;
    proof {
        if owed {
            db1.lemma_roomy_after(db, 5, 5);
        }
    }
    let entry = match visit(db, uuid) {
        Ok(entry) => entry,
        Err(e) => {
            return Err(e);
        },
    };
    let ghost db3 = *db;
    let mut amount_buf: Vec<u8> = Vec::new();
    put_u64(&mut amount_buf, #[verifier::truncate] (amount as u64));
    proof {
        assert(amount_buf@ =~= amount_bytes(amount));
        if ready {
            assert(store_of(&db3) == store_of(&db2));
        }
        if owed {
            lemma_small_kept(&db1, db, row(uuid), 16, 8);
        }
    }
    match entry.set_value(AMOUNT, amount_buf.as_slice(), db) {
        Ok(()) => {},
        Err(e) => {
            return Err(e);
        },
    }
    let ghost db4 = *db;
    let found = read_expense(db, uuid);
    proof {
        if ready {
            assert(store_of(db) == store_of(&db4) || found is Err);
        }
    }
    match found {
        Ok(Some(expense)) => Ok(expense),
        Ok(None) => Err(Error::InvariantViolation),
        Err(e) => Err(e),
    }
}

/// Whether an expense is asked for: it has at least the amount, where one
/// is given.
pub open spec fn wanted(e: Expense, amount_gte: Option<i64>) -> bool {
    match amount_gte {
        Some(least) => e.amount >= least,
        None => true,
    }
}

/// The expenses with the ids, in the order of the ids, that are asked
/// for.
pub open spec fn listed<D: Disk>(
    db: &Database<D>,
    ids: Seq<Key>,
    amount_gte: Option<i64>,
) -> Seq<Expense>
    decreases ids.len(),
{
    if ids.len() == 0 {
        Seq::empty()
    } else {
        let rest = listed(db, ids.drop_last(), amount_gte);
        match expense_at(db, ids.last()) {
            Ok(Some(e)) => if wanted(e, amount_gte) {
                rest.push(e)
            } else {
                rest
            },
            _ => rest,
        }
    }
}

/// Every id is that of an expense with an amount of eight bytes.
pub open spec fn complete<D: Disk>(db: &Database<D>, ids: Seq<Key>) -> bool {
    forall|i: int| 0 <= i < ids.len() ==> (#[trigger] expense_at(db, ids[i])) matches Ok(Some(_))
}

/// Every key of the table has its tree.
pub open spec fn rows_there<D: Disk>(db: &Database<D>) -> bool {
    forall|id: Key| #[trigger] db.keys_at(table()).contains(id) ==> db.has_tree(row(id))
}

/// What a walk through the table has made of the database: the root tree
/// and the table are there, the table is a key of the root tree, every
/// tree that was there is there with the keys it had, and every inline
/// value is as it was.
pub open spec fn toured<D: Disk>(db: &Database<D>, db2: &Database<D>) -> bool {
    &&& nested_ok(db2)
    &&& forall|q: Seq<Key>, k: Key| #[trigger] db2.value_at(q, k) == db.value_at(q, k)
    &&& forall|q: Seq<Key>| #[trigger] db.has_tree(q) || q.len() == 0 ==> db2.has_tree(q)
    &&& db2.has_tree(table())
    &&& forall|q: Seq<Key>|
        #[trigger] db2.keys_at(q) == if q.len() == 0 {
            db.keys_at(q).insert(EXPENSES)
        } else {
            db.keys_at(q)
        }
}

/// The expenses of the table that have at least the amount `amount_gte`,
/// where one is given, in the order of their ids. The root tree and the
/// table are made if they are not there, as is the tree of a key of the
/// table that has none. A key of the table without an amount is an
/// invariant violation, an amount that has not eight bytes a format
/// error.
pub fn get_all_expenses<D: Disk>(db: &mut Database<D>, amount_gte: Option<i64>) -> (r: Result<
    Vec<Expense>,
    Error,
>)
    requires
        old(db).inv(),
    ensures
        final(db).disk.reliable() == old(db).disk.reliable(),
        header_kept_but_root(old(db), final(db)),
        nested_ok(old(db)) ==> match r {
            Ok(v) => {
                &&& toured(old(db), final(db))
                &&& exists|ids: Seq<Key>|
                    {
                        &&& keys_sorted(ids)
                        &&& ids.to_set() == old(db).keys_at(table())
                        &&& complete(old(db), ids)
                        &&& #[trigger] listed(old(db), ids, amount_gte) == v@
                    }
            },
            Err(Error::Format) => exists|id: Key|
                old(db).keys_at(table()).contains(id) && #[trigger] expense_at(old(db), id) == Err::<
                    Option<Expense>,
                    Error,
                >(Error::Format),
            Err(Error::InvariantViolation) => exists|id: Key|
                old(db).keys_at(table()).contains(id) && #[trigger] expense_at(old(db), id) == Ok::<
                    Option<Expense>,
                    Error,
                >(None),
            Err(e) => update_error(&old(db).disk, e),
        },
        nested_ok(old(db)) && old(db).disk.reliable() && old(db).has_tree(table()) && rows_there(
            old(db),
        ) && (forall|id: Key| #[trigger]
            old(db).keys_at(table()).contains(id) ==> expense_at(old(db), id) matches Ok(Some(_)))
            ==> r is Ok && same_database(old(db), final(db)),
{
    let ghost db0 = *db;
    let ghost ready = nested_ok(db);
    let ghost there = ready && db.disk.reliable() && db.has_tree(table()) && rows_there(db)
        && (forall|id: Key| #[trigger]
        db.keys_at(table()).contains(id) ==> expense_at(db, id) matches Ok(Some(_)));
    let ghost top = Seq::<Key>::empty();
    proof {
        assert(top.push(EXPENSES) =~= table());
        if ready && db.has_tree(table()) {
            lemma_tree_at_prefix(store_of(db), db.meta.root_btree_offset, top, EXPENSES);
        }
    }
    let root = match db.lookup() {
        Ok(entry) => entry,
        Err(e) => {
            return Err(e);
        },
    };
    let ghost db1 = *db;
    let table_entry = match root.get(EXPENSES, db) {
        Ok(entry) => entry,
        Err(e) => {
            return Err(e);
        },
    };
    let ghost db2 = *db;
    let keys = match table_entry.keys(db) {
        Ok(keys) => keys,
        Err(e) => {
            return Err(e);
        },
    };
    let ghost ids = keys@;
    let mut expenses: Vec<Expense> = Vec::new();
    let mut i: usize = 0;
    proof {
        assert(ids.take(0) =~= Seq::<Key>::empty());
        if ready {
            assert(store_of(db) == store_of(&db2));
            assert(db1.keys_at(table()) == db0.keys_at(table()));
            assert(db2.keys_at(table()) == db1.keys_at(table()));
            assert(toured(&db0, db)) by {
                assert forall|q: Seq<Key>, k: Key| #[trigger] db.value_at(q, k) == db0.value_at(
                    q,
                    k,
                ) by {
                    assert(db2.value_at(q, k) == db1.value_at(q, k));
                    assert(db1.value_at(q, k) == db0.value_at(q, k));
                }
                assert forall|q: Seq<Key>| #[trigger] db0.has_tree(q) || q.len()
                    == 0 implies db.has_tree(q) by {
                    assert(db2.has_tree(q) == (db1.has_tree(q) || q.len() == 0 || q == table()));
                    assert(db1.has_tree(q) == (db0.has_tree(q) || q.len() == 0));
                }
                assert(db2.has_tree(table()));
                assert forall|q: Seq<Key>| #[trigger] db.keys_at(q) == if q.len() == 0 {
                    db0.keys_at(q).insert(EXPENSES)
                } else {
                    db0.keys_at(q)
                } by {
                    if q.len() == 0 {
                        assert(q =~= top);
                    }
                    assert(db1.keys_at(q) == db0.keys_at(q));
                    assert(db2.keys_at(q) == if q == top {
                        db1.keys_at(q).insert(EXPENSES)
                    } else {
                        db1.keys_at(q)
                    });
                }
            }
        }
    }
    while i < keys.len()
        invariant
            db.inv(),
            db.disk.reliable() == old(db).disk.reliable(),
            header_kept_but_root(old(db), db),
            db0 == *old(db),
            ready == nested_ok(&db0),
            ids == keys@,
            0 <= i <= ids.len(),
            ready ==> {
                &&& toured(&db0, db)
                &&& keys_sorted(ids)
                &&& ids.to_set() == db0.keys_at(table())
                &&& complete(&db0, ids.take(i as int))
                &&& expenses@ == listed(&db0, ids.take(i as int), amount_gte)
            },
            there ==> same_database(&db0, db),
            there == (ready && db0.disk.reliable() && db0.has_tree(table()) && rows_there(&db0)
                && (forall|id: Key| #[trigger]
                db0.keys_at(table()).contains(id) ==> expense_at(&db0, id) matches Ok(Some(_)))),
        decreases ids.len() - i,
    {
        let id: Key = keys[i];
        let ghost before = *db;
        proof {
            assert(ids.to_set().contains(ids[i as int]));
            assert(ids.take(i + 1).drop_last() =~= ids.take(i as int));
            if ready {
                assert(expense_at(&before, id) == expense_at(&db0, id));
            }
            if there {
                assert(store_of(&before) == store_of(&db0));
                assert(before.has_tree(row(id)));
            }
        }
        let found = read_expense(db, id);
        proof {
            if ready && (found is Ok || found == Err::<Option<Expense>, Error>(Error::Format)) {
                assert(toured(&db0, db)) by {
                    assert forall|q: Seq<Key>, k: Key| #[trigger] db.value_at(q, k) == db0.value_at(
                        q,
                        k,
                    ) by {
                        assert(before.value_at(q, k) == db0.value_at(q, k));
                    }
                    assert forall|q: Seq<Key>| #[trigger] db0.has_tree(q) || q.len()
                        == 0 implies db.has_tree(q) by {
                        assert(db.has_tree(q) == (before.has_tree(q) || q.len() == 0 || q == table()
                            || q == row(id)));
                    }
                    assert(db.has_tree(table()) == (before.has_tree(table()) || table().len() == 0
                        || table() == table() || table() == row(id)));
                    assert forall|q: Seq<Key>| #[trigger] db.keys_at(q) == if q.len() == 0 {
                        db0.keys_at(q).insert(EXPENSES)
                    } else {
                        db0.keys_at(q)
                    } by {
                        let now = db.keys_at(q);
                        let was = before.keys_at(q);
                        if q.len() == 0 {
                            assert(now == was.insert(EXPENSES));
                            assert(was.insert(EXPENSES) =~= was);
                        } else if q == table() {
                            assert(now == was.insert(id));
                            assert(was.insert(id) =~= was);
                        }
                    }
                }
            }
        }
        match found {
            Ok(Some(expense)) => {
                let take: bool = match amount_gte {
                    Some(least) => expense.amount >= least,
                    None => true,
                };
                if take {
                    expenses.push(expense);
                }
                proof {
                    if ready {
                        assert forall|j: int| 0 <= j < i + 1 implies (#[trigger] expense_at(
                            &db0,
                            ids.take(i + 1)[j],
                        )) matches Ok(Some(_)) by {
                            if j < i {
                                assert(ids.take(i + 1)[j] == ids.take(i as int)[j]);
                            }
                        }
                    }
                }
            },
            Ok(None) => {
                return Err(Error::InvariantViolation);
            },
            Err(e) => {
                return Err(e);
            },
        }
        i += 1;
    }
    proof {
        assert(ids.take(ids.len() as int) =~= ids);
    }
    Ok(expenses)
}

} // verus!
