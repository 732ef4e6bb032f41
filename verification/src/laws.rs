//! What holds of the store as a whole.

use crate::database::Database;
use crate::disk::Disk;
use crate::key::Key;
use crate::nested::nested_ok;
use crate::page::btree::BTree;
use crate::page::image;
use crate::page::leaf_spec::entries_wf;
use crate::page::leaf_spec::has_key;
use crate::page::leaf_spec::leaf_entries;
use crate::page::leaf_spec::lemma_index_of_sorted;
use crate::page::room::small;
use crate::page::shape::get;
use crate::page::shape::lemma_store_inv;
use crate::page::shape::store_of;
use crate::tree::new_inline;
use crate::tree::updated;
use vstd::prelude::*;

verus! {

/// An operation on a tree.
pub ghost enum Op {
    Insert(Key, Seq<u8>),
    Delete(Key),
}

impl Op {
    /// The key that the operation is about.
    pub open spec fn key(self) -> Key {
        match self {
            Op::Insert(k, _) => k,
            Op::Delete(k) => k,
        }
    }
}

/// What a tree holds after an operation, as `insert` and `delete` ensure.
pub open spec fn apply(m: Map<Key, Seq<u8>>, op: Op) -> Map<Key, Seq<u8>> {
    match op {
        Op::Insert(k, v) => m.insert(k, v),
        Op::Delete(k) => m.remove(k),
    }
}

/// What a tree holds after a sequence of operations.
pub open spec fn replay(m: Map<Key, Seq<u8>>, ops: Seq<Op>) -> Map<Key, Seq<u8>>
    decreases ops.len(),
{
    if ops.len() == 0 {
        m
    } else {
        apply(replay(m, ops.drop_last()), ops.last())
    }
}

/// The index of the last operation on `key`, or -1 where there is none.
pub open spec fn last_on(ops: Seq<Op>, key: Key) -> int
    decreases ops.len(),
{
    if ops.len() == 0 {
        -1
    } else if ops.last().key() == key {
        ops.len() - 1
    } else {
        last_on(ops.drop_last(), key)
    }
}

/// What a tree holds after a sequence of operations has for every key the
/// value that was last inserted for it, if the key was not deleted since;
/// none if it was; and what the tree held before, if no operation was on
/// the key.
pub proof fn law_last_write_wins(m: Map<Key, Seq<u8>>, ops: Seq<Op>, key: Key)
    ensures
        -1 <= last_on(ops, key) < ops.len(),
        last_on(ops, key) >= 0 ==> ops[last_on(ops, key)].key() == key,
        forall|i: int| last_on(ops, key) < i < ops.len() ==> (#[trigger] ops[i]).key() != key,
        last_on(ops, key) == -1 ==> replay(m, ops).contains_key(key) == m.contains_key(key) && (
        m.contains_key(key) ==> replay(m, ops)[key] == m[key]),
        last_on(ops, key) >= 0 ==> match ops[last_on(ops, key)] {
            Op::Insert(_, v) => replay(m, ops).contains_key(key) && replay(m, ops)[key] == v,
            Op::Delete(_) => !replay(m, ops).contains_key(key),
        },
    decreases ops.len(),
{
    if ops.len() > 0 {
        law_last_write_wins(m, ops.drop_last(), key);
        let before = ops.drop_last();
        assert forall|i: int| last_on(ops, key) < i < ops.len() implies (#[trigger] ops[i]).key()
            != key by {
            if i < before.len() {
                assert(before[i] == ops[i]);
            }
        }
        if last_on(ops, key) >= 0 && ops.last().key() != key {
            assert(before[last_on(ops, key)] == ops[last_on(ops, key)]);
        }
    }
}

/// After any sequence of inserts and deletes on a tree, a lookup returns
/// for every key the value that was last inserted for it, if the key was
/// not deleted since; none if it was; and what the tree gave it before, if
/// no operation was on the key.
pub proof fn law_lookup_after_operations<D: Disk>(
    tree: BTree,
    db: &Database<D>,
    after: BTree,
    db2: &Database<D>,
    ops: Seq<Op>,
    key: Key,
)
    requires
        after.contents(db2) == replay(tree.contents(db), ops),
    ensures
        after.value(db2, key) == if last_on(ops, key) == -1 {
            tree.value(db, key)
        } else {
            match ops[last_on(ops, key)] {
                Op::Insert(_, v) => Some(v),
                Op::Delete(_) => None,
            }
        },
{
    law_last_write_wins(tree.contents(db), ops, key);
    tree.lemma_value_of_contents(db, key);
    after.lemma_value_of_contents(db2, key);
}

/// An insert gives the key its value and leaves every other key with
/// what it had.
pub proof fn law_insert_then_lookup<D: Disk>(
    tree: BTree,
    db: &Database<D>,
    after: BTree,
    db2: &Database<D>,
    key: Key,
    value: Seq<u8>,
    other: Key,
)
    requires
        after.contents(db2) == tree.contents(db).insert(key, value),
        other != key,
    ensures
        after.value(db2, key) == Some(value),
        after.value(db2, other) == tree.value(db, other),
{
    tree.lemma_value_of_contents(db, other);
    after.lemma_value_of_contents(db2, key);
    after.lemma_value_of_contents(db2, other);
}

/// An insert of a key that the tree has is an update: the value is
/// replaced, and the tree has the keys that it had, as many as before.
pub proof fn law_insert_of_existing_key<D: Disk>(
    tree: BTree,
    db: &Database<D>,
    after: BTree,
    db2: &Database<D>,
    key: Key,
    value: Seq<u8>,
)
    requires
        tree.contents(db).contains_key(key),
        after.contents(db2) == tree.contents(db).insert(key, value),
    ensures
        after.value(db2, key) == Some(value),
        after.contents(db2).dom() == tree.contents(db).dom(),
        after.contents(db2).dom().len() == tree.contents(db).dom().len(),
{
    after.lemma_value_of_contents(db2, key);
    assert(after.contents(db2).dom() =~= tree.contents(db).dom());
}

/// After a delete the tree does not have the key, and a second delete
/// changes nothing.
pub proof fn law_delete<D: Disk>(
    tree: BTree,
    db: &Database<D>,
    after: BTree,
    db2: &Database<D>,
    again: BTree,
    db3: &Database<D>,
    key: Key,
)
    requires
        after.contents(db2) == tree.contents(db).remove(key),
        again.contents(db3) == after.contents(db2).remove(key),
    ensures
        after.value(db2, key) is None,
        again.contents(db3) == after.contents(db2),
        !tree.contents(db).contains_key(key) ==> after.contents(db2) == tree.contents(db),
{
    after.lemma_value_of_contents(db2, key);
    assert(after.contents(db2).remove(key) =~= after.contents(db2));
    if !tree.contents(db).contains_key(key) {
        assert(tree.contents(db).remove(key) =~= tree.contents(db));
    }
}

/// A tree whose root is a leaf holds what it holds in that page: its keys
/// are the keys of the slots, in ascending order, each value is as long as
/// its slot says, and slots and values fit the page.
pub proof fn law_leaf_root<D: Disk>(tree: BTree, db: &Database<D>)
    requires
        db.inv(),
        tree.wf(db),
        tree.leaf_root(db),
    ensures
        entries_wf(
            leaf_entries(image(db.disk@, tree.root as int, db.spec_block_size())),
            db.spec_block_size(),
        ),
        forall|k: Key| #[trigger]
            tree.contents(db).contains_key(k) <==> has_key(
                leaf_entries(image(db.disk@, tree.root as int, db.spec_block_size())),
                k,
            ),
        forall|i: int|
            0 <= i < leaf_entries(
                image(db.disk@, tree.root as int, db.spec_block_size()),
            ).len() ==> tree.contents(db)[(#[trigger] leaf_entries(
                image(db.disk@, tree.root as int, db.spec_block_size()),
            )[i]).key].len() == leaf_entries(
                image(db.disk@, tree.root as int, db.spec_block_size()),
            )[i].value_len,
{
    let st = store_of(db);
    let shape = tree.shape(db);
    let img = st.img(shape.idx);
    let s = leaf_entries(img);
    lemma_store_inv(db);
    tree.lemma_contents(db, shape);
    assert(img == image(db.disk@, tree.root as int, db.spec_block_size()));
    assert forall|k: Key| #[trigger] tree.contents(db).contains_key(k) <==> has_key(s, k) by {
        tree.lemma_value_of_contents(db, k);
        assert(tree.value(db, k) == get(st, shape, k));
    }
    assert forall|i: int| 0 <= i < s.len() implies tree.contents(db)[(#[trigger] s[i]).key].len()
        == s[i].value_len by {
        let k = s[i].key;
        lemma_index_of_sorted(s, i);
        tree.lemma_value_of_contents(db, k);
        assert(tree.value(db, k) == get(st, shape, k));
        assert(get(st, shape, k) == Some(
            img.subrange(0 + s[i].offset, 0 + s[i].offset + s[i].value_len),
        ));
    }
}

/// A database that is opened again from the device of one whose header
/// was written is the same database: every tree that was well-formed is
/// well-formed, and holds what it held.
pub proof fn law_reopen<D: Disk>(db: &Database<D>, again: &Database<D>, tree: BTree)
    requires
        db.synced(),
        again.disk@ == db.disk@,
        again.synced(),
    ensures
        again.meta == db.meta,
        store_of(again) == store_of(db),
        tree.wf(again) == tree.wf(db),
        tree.contents(again) == tree.contents(db),
        nested_ok(again) == nested_ok(db),
        forall|path: Seq<Key>, key: Key|
            #[trigger] again.value_at(path, key) == db.value_at(path, key),
        forall|path: Seq<Key>| #[trigger] again.has_tree(path) == db.has_tree(path),
{
    assert(tree.contents(again) =~= tree.contents(db));
}

/// An inline value and a child tree coexist on one key: where a key of
/// the tree under `b` is given an inline value, that key has the value
/// then, and `b` itself has in the tree above it the inline value that
/// it had.
pub proof fn law_nested_coexistence<D: Disk>(
    db: &Database<D>,
    after: &Database<D>,
    path: Seq<Key>,
    b: Key,
    c: Key,
    v: Seq<u8>,
)
    requires
        updated(db, after, path.push(b), c, Some(v)),
    ensures
        v.len() > 0 ==> after.value_at(path.push(b), c) == Some(v),
        after.value_at(path, b) == db.value_at(path, b),
        after.has_tree(path.push(b)) == (db.has_tree(path.push(b))),
{
    assert(path.push(b).len() != path.len());
    assert(after.value_at(path.push(b), c) == new_inline(None, Some(v)));
    assert(after.value_at(path, b) == db.value_at(path, b));
    assert(after.has_tree(path.push(b)) == (db.has_tree(path.push(b)) || path.push(b).len() == 0));
}

/// Asking for the tree under a key changes no inline value, and the
/// tree is there then.
pub proof fn law_get_keeps_values<D: Disk>(
    db: &Database<D>,
    after: &Database<D>,
    path: Seq<Key>,
    key: Key,
    other_path: Seq<Key>,
    other: Key,
)
    requires
        updated(db, after, path, key, None),
    ensures
        after.value_at(other_path, other) == db.value_at(other_path, other),
        after.has_tree(path.push(key)),
{
    assert(after.value_at(other_path, other) == db.value_at(other_path, other));
    assert(after.has_tree(path.push(key)) == (db.has_tree(path.push(key)) || path.push(key).len()
        == 0 || path.push(key) == path.push(key)));
}

/// A tree that is sure to take a small value holds small values when it
/// has taken it: it is sure to take the next, as long as the device can
/// grow.
pub proof fn law_small_values_keep_fitting<D: Disk>(
    tree: BTree,
    db: &Database<D>,
    tree2: BTree,
    db2: &Database<D>,
    key: Key,
    data: Seq<u8>,
    next: int,
)
    requires
        tree.takes(db, data.len() as int),
        tree2.contents(db2) == tree.contents(db).insert(key, data),
        db2.spec_block_size() == db.spec_block_size(),
        db2.roomy_for(1),
        small(next, db.spec_block_size()),
    ensures
        tree2.takes(db2, next),
{
    assert forall|k: Key| #[trigger] tree2.contents(db2).contains_key(k) implies small(
        tree2.contents(db2)[k].len() as int,
        db2.spec_block_size(),
    ) by {
        if k != key {
            assert(tree.contents(db).contains_key(k));
        }
    }
}

} // verus!
