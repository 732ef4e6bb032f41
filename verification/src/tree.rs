//! Nested trees: a value of a tree may name a tree of its own, so that
//! data is addressed as `root[table][row][field]`.

use crate::bytes::get_u64;
use crate::bytes::lemma_u64_be_roundtrip;
use crate::bytes::lemma_u64_from_be_zero;
use crate::bytes::put_u64;
use crate::bytes::u64_from_be;
use crate::bytes::u64_to_be;
use crate::database::Database;
use crate::database::DatabaseMeta;
use crate::database::lemma_end_bounds;
use crate::database::lemma_header_written;
use crate::database::max_device_size;
use crate::disk::Disk;
use crate::error::Error;
use crate::error::io_failure;
use crate::key::Key;
use crate::laws::apply;
use crate::nested::Dir;
use crate::nested::changed;
use crate::nested::child_of;
use crate::nested::dir_at;
use crate::nested::dir_ok;
use crate::nested::dir_owns;
use crate::nested::dir_step;
use crate::nested::fresh_len;
use crate::nested::inline_of;
use crate::nested::is_prefix;
use crate::nested::leaf_dir;
use crate::nested::lemma_changed_parent;
use crate::nested::lemma_changed_target;
use crate::nested::lemma_database_at;
use crate::nested::lemma_database_empty;
use crate::nested::lemma_dir_at_owns;
use crate::nested::lemma_dir_at_push;
use crate::nested::lemma_dir_at_take;
use crate::nested::lemma_dir_frame_at;
use crate::nested::lemma_dir_header;
use crate::nested::lemma_dir_pages;
use crate::nested::lemma_dir_step_refl;
use crate::nested::lemma_parent;
use crate::nested::lemma_parent_tree_kept;
use crate::nested::lemma_root_in_range;
use crate::nested::lemma_small_below;
use crate::nested::lemma_small_database;
use crate::nested::lemma_small_here;
use crate::nested::lemma_target;
use crate::nested::lemma_tree_at;
use crate::nested::lemma_tree_at_none;
use crate::nested::nested_ok;
use crate::nested::parent_dir;
use crate::nested::payload_in;
use crate::nested::root_dir;
use crate::nested::small_along;
use crate::nested::target_dir;
use crate::nested::tree_at;
use crate::nested::tree_idx;
use crate::nested::tree_ok;
use crate::page::btree::BTree;
use crate::page::btree::header_kept;
use crate::page::btree::option_view;
use crate::page::btree::synced_kept;
use crate::page::image;
use crate::page::internal_spec::internal_pointers;
use crate::page::internal_spec::keys_sorted;
use crate::page::internal_spec::max_children;
use crate::page::leaf_page::LeafPageEntry;
use crate::page::leaf_spec::is_leaf;
use crate::page::leaf_spec::leaf_entries;
use crate::page::room::accommodates;
use crate::page::room::has_room_on_way;
use crate::page::room::lemma_small_less;
use crate::page::room::lemma_way_frame;
use crate::page::room::small;
use crate::page::shape::Node;
use crate::page::shape::Store;
use crate::page::shape::get;
use crate::page::shape::lemma_frame;
use crate::page::shape::lemma_off;
use crate::page::shape::lemma_off_end;
use crate::page::shape::lemma_store_inv;
use crate::page::shape::owns;
use crate::page::shape::store_of;
use vstd::prelude::*;
use vstd::slice::slice_to_vec;

verus! {

/// The bytes of the child offset that starts a value of a nested tree.
pub const CHILD_OFFSET_LEN: usize = 8;

/// What a value of a nested tree holds: the offset of a child tree, an
/// inline value, both or neither.
pub struct TreeEntryValue {
    pub child_offset: Option<u64>,
    pub data: Option<Vec<u8>>,
}

/// A tree of the database, known by the keys that lead to it from the root
/// tree: the tree under `path[0]` of the root tree, under `path[1]` of
/// that, and so on. The empty path is the root tree.
pub struct TreeEntry {
    pub path: Vec<Key>,
}

/// `p`, with zeros behind it up to eight bytes where it is shorter.
pub open spec fn at_least_8(p: Seq<u8>) -> Seq<u8> {
    if p.len() >= CHILD_OFFSET_LEN {
        p
    } else {
        p + Seq::new((CHILD_OFFSET_LEN - p.len()) as nat, |i: int| 0u8)
    }
}

/// The offset of the child tree that a payload names: its first eight
/// bytes, big-endian. Zero stands for no child tree.
pub open spec fn payload_child(p: Seq<u8>) -> u64 {
    u64_from_be(at_least_8(p).subrange(0, CHILD_OFFSET_LEN as int))
}

/// The inline value of a payload: what follows the child offset, if
/// anything does.
pub open spec fn payload_inline(p: Seq<u8>) -> Option<Seq<u8>> {
    if p.len() > CHILD_OFFSET_LEN {
        Some(p.subrange(CHILD_OFFSET_LEN as int, p.len() as int))
    } else {
        None
    }
}

/// The payload for a child offset and an inline value.
pub open spec fn payload_of(child: u64, inline: Option<Seq<u8>>) -> Seq<u8> {
    match inline {
        Some(v) => u64_to_be(child) + v,
        None => u64_to_be(child),
    }
}

/// What a slice that may be there stands for.
pub open spec fn data_view(data: Option<&[u8]>) -> Option<Seq<u8>> {
    match data {
        Some(d) => Some(d@),
        None => None,
    }
}

/// The inline value that a key has after an update: the new one, none
/// where that is empty, or the one it had where the update brings none.
pub open spec fn new_inline(old: Option<Seq<u8>>, data: Option<Seq<u8>>) -> Option<Seq<u8>> {
    match data {
        Some(v) => if v.len() > 0 {
            Some(v)
        } else {
            None
        },
        None => inline_of(old),
    }
}

/// Whether an update gives a key a child tree: it brings no inline value,
/// and the key has no child tree.
pub open spec fn grows(old: Option<Seq<u8>>, data: Option<Seq<u8>>) -> bool {
    data is None && child_of(old) == 0
}

/// The number of bytes of the entry that an update writes: the child
/// offset, and behind it the inline value that the update brings, or the
/// one that the entry had.
pub open spec fn payload_len(old: Option<Seq<u8>>, data: Option<Seq<u8>>) -> int {
    8 + match data {
        Some(v) => v.len() as int,
        None => match inline_of(old) {
            Some(v) => v.len() as int,
            None => 0,
        },
    }
}

/// Whether the root page of a tree takes what an insert of a value of
/// `len` bytes may bring it without being split.
pub open spec fn node_has_room(st: Store, shape: Node, len: int) -> bool {
    let img = st.img(shape.idx);
    if is_leaf(img) {
        accommodates(leaf_entries(img), len, st.bs)
    } else {
        internal_pointers(img).len() < max_children(st.bs)
    }
}

/// Where the root of a tree is after an update of the entry of a key in
/// it, which was `old`: where it was, if the key has its child tree
/// already or the root page has room for the new entry; else in the block
/// that is allocated for it, behind that of a new child tree.
pub open spec fn target_after(
    st: Store,
    shape: Node,
    old: Option<Seq<u8>>,
    data: Option<Seq<u8>>,
) -> int {
    if (data is None && child_of(old) != 0) || node_has_room(st, shape, payload_len(old, data)) {
        st.off(shape.idx)
    } else if grows(old, data) {
        st.off(st.n + 1)
    } else {
        st.off(st.n)
    }
}

/// Where the trees on the way to the end of the path are after an update:
/// each is where it was, if the tree below it on the path is where it was
/// or its root page has room for the entry that names that tree anew;
/// else its root is a new block.
#[verifier::opaque]
pub open spec fn above_placed(st: Store, dir: Dir, dir2: Dir, path: Seq<Key>) -> bool {
    forall|j: int|
        0 <= j < path.len() ==> ((#[trigger] dir_at(dir, path.take(j))) matches Some(d) ==> placed_as(
            st,
            d.shape,
            path[j],
            tree_idx(dir_at(dir, path.take(j + 1))),
            tree_idx(dir_at(dir2, path.take(j + 1))),
            tree_idx(dir_at(dir2, path.take(j))),
        ))
}

/// Above the end of an empty path is no tree.
pub proof fn lemma_above_empty(st: Store, dir: Dir, dir2: Dir)
    ensures
        above_placed(st, dir, dir2, Seq::empty()),
{
    reveal(above_placed);
}

/// Where the root of a tree is after the entry that names the tree under
/// one of its keys has been written anew, told from what the insert says.
pub proof fn lemma_placed_top<D: Disk>(
    db1: &Database<D>,
    st: Store,
    dir: Dir,
    k0: Key,
    off: u64,
    root2: u64,
    below2: int,
    now: int,
    len: int,
)
    requires
        db1.inv(),
        store_of(db1).bs == st.bs,
        store_of(db1).n >= st.n,
        store_of(db1).img(dir.shape.idx) == st.img(dir.shape.idx),
        st.off(dir.shape.idx) == off,
        len == payload_len(get(st, dir.shape, k0), None),
        root2 == if (BTree { root: off }).root_has_room(db1, len) {
            off
        } else {
            db1.spec_end() as u64
        },
        st.off(now) == root2,
        now >= 0,
    ensures
        placed_as(st, dir.shape, k0, dir.subs[k0].shape.idx, below2, now) || below2
            == dir.subs[k0].shape.idx,
{
    let st1 = store_of(db1);
    lemma_end_bounds(db1.meta);
    lemma_off_end(db1);
    assert(st1.img(dir.shape.idx) == image(db1.disk@, off as int, db1.spec_block_size()));
    assert((BTree { root: off }).root_has_room(db1, len) == node_has_room(st, dir.shape, len));
    if !node_has_room(st, dir.shape, len) {
        assert(st.off(now) == st1.off(st1.n));
        if now < st1.n {
            lemma_off(st, now, st1.n);
        }
    } else {
        if now < dir.shape.idx {
            lemma_off(st, now, dir.shape.idx);
        }
        if dir.shape.idx < now {
            lemma_off(st, dir.shape.idx, now);
        }
    }
}

/// The root of a tree of shape `shape` is in the block `now` after the
/// tree under its key `k`, whose root was in the block `below`, has its
/// root in the block `below2`.
pub open spec fn placed_as(st: Store, shape: Node, k: Key, below: int, below2: int, now: int) -> bool {
    if below2 == below || node_has_room(st, shape, payload_len(get(st, shape, k), None)) {
        now == shape.idx
    } else {
        now >= st.n
    }
}

/// What an update of the entry of `key` at the end of `path` has made of
/// a tree of trees of shape `dir`: one of shape `dir2` at `off2`, in which
/// the key has the new inline value, or a child tree, and nothing else
/// has changed.
pub open spec fn update_done(
    st: Store,
    st2: Store,
    dir: Dir,
    dir2: Dir,
    off2: u64,
    path: Seq<Key>,
    key: Key,
    data: Option<Seq<u8>>,
) -> bool {
    &&& dir_step(st, st2, dir, dir2)
    &&& st2.off(dir2.shape.idx) == off2
    &&& changed(
        st,
        st2,
        dir,
        dir2,
        path,
        key,
        new_inline(payload_in(st, dir, path, key), data),
        grows(payload_in(st, dir, path, key), data),
    )
    &&& dir_at(dir, path) matches Some(d) ==> st2.off(tree_idx(dir_at(dir2, path)))
        == target_after(st, d.shape, get(st, d.shape, key), data)
    &&& grows(payload_in(st, dir, path, key), data) ==> tree_idx(dir_at(dir2, path.push(key)))
        == st.n
    &&& dir_at(dir, path) matches Some(d) ==> (is_leaf(st.img(d.shape.idx)) && tree_idx(
        dir_at(dir2, path),
    ) == d.shape.idx ==> is_leaf(st2.img(d.shape.idx)))
    &&& above_placed(st, dir, dir2, path)
}

/// What an update along a path that leads to no tree comes to: an
/// invariant violation, with the database as it was, unless the device
/// fails first.
pub open spec fn no_such_tree<D: Disk>(
    db: &Database<D>,
    db2: &Database<D>,
    r: Result<u64, Error>,
) -> bool {
    match r {
        Ok(_) => false,
        Err(e) => io_failure(&db.disk, e) || (e == Error::InvariantViolation && db2.disk@
            == db.disk@ && db2.meta == db.meta),
    }
}

/// An update that finds the child tree in place: it returns the offset of
/// the tree as it was and leaves the database as it was, unless the device
/// fails, which is one that may.
pub open spec fn untouched<D: Disk>(
    db: &Database<D>,
    db2: &Database<D>,
    off: u64,
    r: Result<u64, Error>,
) -> bool {
    match r {
        Ok(off2) => off2 == off && same_database(db, db2),
        Err(e) => io_failure(&db.disk, e),
    }
}

/// The device and the header in memory are as they were.
pub open spec fn same_database<D: Disk>(db: &Database<D>, db2: &Database<D>) -> bool {
    db2.disk@ == db.disk@ && db2.meta == db.meta
}

/// The database has got its root tree: one block has been allocated, an
/// empty leaf, and the header names it as the root of the root tree.
pub open spec fn new_root_tree<D: Disk>(db: &Database<D>, db2: &Database<D>) -> bool {
    &&& db2.meta == DatabaseMeta {
        num_blocks_allocated: (db.meta.num_blocks_allocated + 1) as u64,
        root_btree_offset: db.spec_end() as u64,
        ..db.meta
    }
    &&& db2.synced()
    &&& is_leaf(image(db2.disk@, db.spec_end(), db.spec_block_size()))
    &&& leaf_entries(image(db2.disk@, db.spec_end(), db.spec_block_size()))
        == Seq::<LeafPageEntry>::empty()
}

/// The device takes no more block, and nothing has changed.
pub open spec fn device_full<D: Disk>(db: &Database<D>, db2: &Database<D>) -> bool {
    &&& db.spec_end() + db.spec_block_size() > max_device_size()
    &&& same_database(db, db2)
}

/// The length of the inline value that an update brings, zero for none.
pub open spec fn inline_len(data: Option<&[u8]>) -> int {
    match data {
        Some(d) => d@.len() as int,
        None => 0,
    }
}

/// What makes sure that an update of an entry of the tree at the end of
/// `path` from the tree of `dir` finds room: the payloads on the way and
/// the new one are small, and the device can grow by what an insert into
/// each tree on the way and one new tree may allocate.
pub open spec fn update_fits<D: Disk>(
    db: &Database<D>,
    dir: Dir,
    path: Seq<Key>,
    data: Option<Seq<u8>>,
) -> bool {
    &&& small_along(store_of(db), dir, path)
    &&& small(fresh_len(data), db.spec_block_size())
    &&& db.roomy_for(path.len() + 2)
}

/// There is room for an update of the entry of `key` in the tree at the
/// end of `path` from the tree of `dir`: the root page of that tree has
/// room, so that the tree stays where it is, there is room on the way to
/// the leaf where the key belongs, and the device takes two blocks more.
pub open spec fn way_fits(
    st: Store,
    dir: Dir,
    path: Seq<Key>,
    key: Key,
    data: Option<Seq<u8>>,
) -> bool {
    dir_at(dir, path) matches Some(d) && {
        let len = payload_len(get(st, d.shape, key), data);
        &&& node_has_room(st, d.shape, len)
        &&& has_room_on_way(st, d.shape, key, len)
        &&& st.off(st.n + 2) <= max_device_size()
    }
}

/// An error of an update of a well-formed database: something does not
/// fit, or the device has failed, which is one that may.
pub open spec fn update_error<D: Disk>(disk: &D, e: Error) -> bool {
    e == Error::Capacity || io_failure(disk, e)
}

/// What an operation on nested trees leaves as it was, whatever comes of
/// it: the block size of the database.
pub open spec fn header_kept_but_root<D: Disk>(db: &Database<D>, db2: &Database<D>) -> bool {
    &&& db2.inv()
    &&& db2.meta.block_size_exp == db.meta.block_size_exp
    &&& db2.meta.num_blocks_allocated >= db.meta.num_blocks_allocated
}

/// The second database is the first with a root tree: it holds what the
/// first holds, and its root tree is there.
pub open spec fn rooted<D: Disk>(db: &Database<D>, db2: &Database<D>) -> bool {
    &&& nested_ok(db2)
    &&& db2.meta.root_btree_offset != 0
    &&& forall|q: Seq<Key>, k: Key| #[trigger] db2.value_at(q, k) == db.value_at(q, k)
    &&& forall|q: Seq<Key>| #[trigger] db2.has_tree(q) == (db.has_tree(q) || q.len() == 0)
    &&& forall|q: Seq<Key>| #[trigger] db2.keys_at(q) == db.keys_at(q)
}

/// What an update of the entry of `key` in the tree at the end of `path`
/// has made of the database: with `data`, the key has the inline value
/// `data`, none where that is empty; without, the key has a child tree.
/// The key is a key of its tree. Every other inline value is as it was,
/// and so are the trees and their keys; every tree that is not on the
/// path is where it was, and the tree at the end of the path is where
/// `target_of` says; its root is a leaf if it is new, or was a leaf and
/// has stayed; every tree on the way to it is where `moved_as` says.
pub open spec fn updated<D: Disk>(
    db: &Database<D>,
    db2: &Database<D>,
    path: Seq<Key>,
    key: Key,
    data: Option<Seq<u8>>,
) -> bool {
    &&& nested_ok(db2)
    &&& forall|q: Seq<Key>, k: Key|
        #[trigger] db2.value_at(q, k) == if q == path && k == key && data is Some {
            new_inline(None, data)
        } else {
            db.value_at(q, k)
        }
    &&& forall|q: Seq<Key>|
        #[trigger] db2.has_tree(q) == (db.has_tree(q) || q.len() == 0 || (data is None && q
            == path.push(key)))
    &&& forall|q: Seq<Key>|
        #[trigger] db2.keys_at(q) == if q == path {
            db.keys_at(q).insert(key)
        } else {
            db.keys_at(q)
        }
    &&& forall|q: Seq<Key>|
        !is_prefix(q, path) && !(data is None && q == path.push(key) && !db.has_tree(q))
            ==> #[trigger] db2.tree_at(q) == db.tree_at(q)
    &&& db2.tree_at(path) == target_of(db, path, key, data)
    &&& data is None && !db.has_tree(path.push(key)) ==> db2.tree_at(path.push(key))
        == rooted_end(db)
    &&& db.meta.root_btree_offset == 0 || (db2.tree_at(path) == db.tree_at(path)
        && db.leaf_at(path)) ==> db2.leaf_at(path)
    &&& forall|j: int|
        0 <= j < path.len() ==> #[trigger] moved_as(
            db,
            db2,
            path.take(j),
            path[j],
            path.take(j + 1),
        )
}

/// Where the tree at the end of `q` is after an update below it: where
/// it was, if the tree under its key `k`, at the end of `next`, is where
/// it was, or its root page has room for the entry that names that tree
/// anew; else its root is a new block.
pub open spec fn moved_as<D: Disk>(
    db: &Database<D>,
    db2: &Database<D>,
    q: Seq<Key>,
    k: Key,
    next: Seq<Key>,
) -> bool {
    if db2.tree_at(next) == db.tree_at(next) || (BTree { root: db.tree_at(q) }).root_has_room(
        db,
        entry_len(db, q, k, None),
    ) {
        db2.tree_at(q) == db.tree_at(q)
    } else {
        db2.tree_at(q) >= db.spec_end()
    }
}

/// Where the allocated blocks end once the database has its root tree.
pub open spec fn rooted_end<D: Disk>(db: &Database<D>) -> int {
    if db.meta.root_btree_offset == 0 {
        db.spec_end() + db.spec_block_size()
    } else {
        db.spec_end()
    }
}

/// The number of bytes of the entry that an update of the entry of `key`
/// in the tree at the end of `path` writes: the child offset, and behind
/// it the inline value that the update brings, or the one that the key
/// has.
pub open spec fn entry_len<D: Disk>(
    db: &Database<D>,
    path: Seq<Key>,
    key: Key,
    data: Option<Seq<u8>>,
) -> int {
    8 + match data {
        Some(v) => v.len() as int,
        None => match db.value_at(path, key) {
            Some(v) => v.len() as int,
            None => 0,
        },
    }
}

/// Whether the database has room for an update of the entry of `key` in
/// the tree at the end of `path`, so that no tree gets a new root: the
/// tree has room for the new entry without a split of an internal page or
/// of its root, and the device takes two blocks more.
pub open spec fn has_room_at<D: Disk>(
    db: &Database<D>,
    path: Seq<Key>,
    key: Key,
    data: Option<Seq<u8>>,
) -> bool {
    let tree = BTree { root: db.tree_at(path) };
    &&& db.meta.root_btree_offset != 0
    &&& tree.root_has_room(db, entry_len(db, path, key, data))
    &&& has_room_on_way(store_of(db), tree.shape(db), key, entry_len(db, path, key, data))
    &&& db.spec_end() + 2 * db.spec_block_size() <= max_device_size()
}

/// Room for an update in a database is room in the tree of trees under
/// its root tree.
pub proof fn lemma_way_fits<D: Disk>(
    db: &Database<D>,
    dir: Dir,
    path: Seq<Key>,
    key: Key,
    data: Option<Seq<u8>>,
)
    requires
        db.inv(),
        root_dir(store_of(db), db.meta.root_btree_offset, dir),
        dir_at(dir, path) is Some,
        has_room_at(db, path, key, data),
    ensures
        way_fits(store_of(db), dir, path, key, data),
{
    let st = store_of(db);
    let d = dir_at(dir, path).unwrap();
    let tree = BTree { root: db.tree_at(path) };
    lemma_store_inv(db);
    lemma_off_end(db);
    lemma_off(st, st.n, st.n + 1);
    lemma_off(st, st.n + 1, st.n + 2);
    lemma_database_at(db, dir, path, key);
    tree.lemma_shape(st, d.shape);
    assert(payload_in(st, dir, path, key) == get(st, d.shape, key));
    assert(payload_len(get(st, d.shape, key), data) == entry_len(db, path, key, data));
    assert(st.img(d.shape.idx) == image(db.disk@, tree.root as int, db.spec_block_size()));
}

/// Where the tree at the end of `path` is after an update of the entry of
/// `key` in it: a new root tree is the block that is allocated for it;
/// any other tree is where it was, if the key has its child tree already
/// or the root page of the tree has room for the new entry; else its root
/// is the block that is allocated for it, behind that of a new child tree.
pub open spec fn target_of<D: Disk>(
    db: &Database<D>,
    path: Seq<Key>,
    key: Key,
    data: Option<Seq<u8>>,
) -> int {
    let tree = BTree { root: db.tree_at(path) };
    let len = 8 + match data {
        Some(v) => v.len() as int,
        None => match db.value_at(path, key) {
            Some(v) => v.len() as int,
            None => 0,
        },
    };
    if db.meta.root_btree_offset == 0 {
        db.spec_end()
    } else if (data is None && db.has_tree(path.push(key))) || tree.root_has_room(db, len) {
        tree.root as int
    } else if data is None {
        db.spec_end() + db.spec_block_size()
    } else {
        db.spec_end()
    }
}

/// Where the tree at the end of a path is after an update, seen from the
/// tree above the first tree on the path: where it is seen from that
/// tree.
pub proof fn lemma_update_above(
    st: Store,
    st1: Store,
    st2: Store,
    dir: Dir,
    k0: Key,
    sub2: Dir,
    shape2: Node,
    child2: u64,
    rest: Seq<Key>,
    key: Key,
    data: Option<Seq<u8>>,
)
    requires
        dir_ok(st, dir),
        dir.subs.contains_key(k0),
        dir_at(dir.subs[k0], rest) is Some,
        update_done(st, st1, dir.subs[k0], sub2, child2, rest, key, data),
        st2.bs == st1.bs,
        forall|p: int|
            #[trigger] st1.has_page(p) && !owns(dir.shape, p) ==> st2.img(p) == st1.img(p),
        placed_as(
            st,
            dir.shape,
            k0,
            dir.subs[k0].shape.idx,
            sub2.shape.idx,
            shape2.idx,
        ),
    ensures
        above_placed(st, dir, parent_dir(dir, shape2, k0, sub2), seq![k0] + rest),
        dir_at(dir, seq![k0] + rest) matches Some(d) ==> (is_leaf(st.img(d.shape.idx)) && tree_idx(
            dir_at(parent_dir(dir, shape2, k0, sub2), seq![k0] + rest),
        ) == d.shape.idx ==> is_leaf(st2.img(d.shape.idx))),
        dir_at(dir, seq![k0] + rest) matches Some(d) ==> st2.off(
            tree_idx(dir_at(parent_dir(dir, shape2, k0, sub2), seq![k0] + rest)),
        ) == target_after(st, d.shape, get(st, d.shape, key), data),
        grows(payload_in(st, dir, seq![k0] + rest, key), data) ==> tree_idx(
            dir_at(parent_dir(dir, shape2, k0, sub2), (seq![k0] + rest).push(key)),
        ) == st.n,
{
    reveal(above_placed);
    let path = seq![k0] + rest;
    let dir2 = parent_dir(dir, shape2, k0, sub2);
    let sub = dir.subs[k0];
    assert(path[0] == k0);
    assert(path.skip(1) =~= rest);
    assert(dir2.subs.contains_key(k0) && dir2.subs[k0] == sub2);
    assert(dir_at(dir, path) == dir_at(sub, rest));
    assert(dir_at(dir2, path) == dir_at(sub2, rest));
    assert(payload_in(st, dir, path, key) == payload_in(st, sub, rest, key));
    let longer = path.push(key);
    assert(longer[0] == k0);
    assert(longer.skip(1) =~= rest.push(key));
    assert(dir_at(dir2, longer) == dir_at(sub2, rest.push(key)));
    assert forall|j: int| 0 <= j < path.len() implies ((#[trigger] dir_at(
        dir,
        path.take(j),
    )) matches Some(dq) ==> placed_as(
        st,
        dq.shape,
        path[j],
        tree_idx(dir_at(dir, path.take(j + 1))),
        tree_idx(dir_at(dir2, path.take(j + 1))),
        tree_idx(dir_at(dir2, path.take(j))),
    )) by {
        let q = path.take(j);
        let next = path.take(j + 1);
        assert(next[0] == k0);
        assert(next.skip(1) =~= rest.take(j));
        assert(dir_at(dir, next) == dir_at(sub, rest.take(j)));
        assert(dir_at(dir2, next) == dir_at(sub2, rest.take(j)));
        if j == 0 {
            assert(q =~= Seq::<Key>::empty());
            assert(dir_at(dir, q) == Some(dir));
            assert(dir_at(dir2, q) == Some(dir2));
            assert(rest.take(0) =~= Seq::<Key>::empty());
            assert(dir_at(sub, rest.take(0)) == Some(sub));
            assert(dir_at(sub2, rest.take(0)) == Some(sub2));
        } else {
            assert(q[0] == k0);
            assert(q.skip(1) =~= rest.take(j - 1));
            assert(dir_at(dir, q) == dir_at(sub, rest.take(j - 1)));
            assert(dir_at(dir2, q) == dir_at(sub2, rest.take(j - 1)));
            assert(path[j] == rest[j - 1]);
            assert(rest.take(j - 1 + 1) == rest.take(j));
            assert(dir_at(sub, rest.take(j - 1)) matches Some(dq) ==> placed_as(
                st,
                dq.shape,
                rest[j - 1],
                tree_idx(dir_at(sub, rest.take(j - 1 + 1))),
                tree_idx(dir_at(sub2, rest.take(j - 1 + 1))),
                tree_idx(dir_at(sub2, rest.take(j - 1))),
            ));
        }
    }
    let d = dir_at(sub, rest).unwrap();
    if is_leaf(st.img(d.shape.idx)) && tree_idx(dir_at(dir2, path)) == d.shape.idx {
        let p = d.shape.idx;
        lemma_dir_at_owns(sub, rest);
        assert(dir_owns(sub, p));
        assert(!owns(dir.shape, p));
        assert(dir_at(sub2, rest) is Some);
        lemma_dir_at_owns(sub2, rest);
        lemma_dir_pages(st1, sub2, p);
        assert(st2.img(p) == st1.img(p));
    }
    assert(st1.off(tree_idx(dir_at(sub2, rest))) == target_after(
        st,
        d.shape,
        get(st, d.shape, key),
        data,
    ));
}

/// Where the trees of a database are after an update, told from what the
/// update has made of the tree of trees under the root tree.
pub proof fn lemma_updated_places<D: Disk>(
    db0: &Database<D>,
    db1: &Database<D>,
    db: &Database<D>,
    st2: Store,
    dir: Dir,
    dir2: Dir,
    root2: u64,
    path: Seq<Key>,
    key: Key,
    data: Option<Seq<u8>>,
)
    requires
        db0.inv(),
        db1.inv(),
        db.inv(),
        nested_ok(db0),
        rooted(db0, db1),
        db0.meta.root_btree_offset != 0 ==> same_database(db0, db1),
        db0.meta.root_btree_offset == 0 ==> new_root_tree(db0, db1) && path.len() == 0,
        root_dir(store_of(db1), db1.meta.root_btree_offset, dir),
        root_dir(store_of(db), db.meta.root_btree_offset, dir2),
        dir_at(dir, path) is Some,
        update_done(store_of(db1), st2, dir, dir2, root2, path, key, data),
        store_of(db).bs == st2.bs,
        forall|p: int| #[trigger] dir_owns(dir2, p) ==> store_of(db).img(p) == st2.img(p),
    ensures
        db0.meta.root_btree_offset == 0 || (db.tree_at(path) == db0.tree_at(path)
            && db0.leaf_at(path)) ==> db.leaf_at(path),
        forall|j: int|
            0 <= j < path.len() ==> #[trigger] moved_as(
                db0,
                db,
                path.take(j),
                path[j],
                path.take(j + 1),
            ),
        forall|q: Seq<Key>|
            !is_prefix(q, path) && !(data is None && q == path.push(key) && !db0.has_tree(q))
                ==> #[trigger] db.tree_at(q) == db0.tree_at(q),
        db.tree_at(path) == target_of(db0, path, key, data),
        data is None && !db0.has_tree(path.push(key)) ==> db.tree_at(path.push(key))
            == rooted_end(db0),
{
    let st1 = store_of(db1);
    let st3 = store_of(db);
    let d = dir_at(dir, path).unwrap();
    let old = get(st1, d.shape, key);
    let longer = path.push(key);
    lemma_store_inv(db1);
    lemma_store_inv(db);
    lemma_end_bounds(db0.meta);
    lemma_end_bounds(db1.meta);
    lemma_off(st1, 0, 1);
    lemma_off(st3, 0, 1);
    lemma_off(st1, st1.n, st1.n + 1);
    lemma_off_end(db0);
    lemma_off_end(db1);
    lemma_root_in_range(st1, dir);
    lemma_root_in_range(st3, dir2);
    lemma_database_at(db1, dir, path, key);
    lemma_database_at(db1, dir, longer, key);
    lemma_dir_at_push(dir, path, key);
    lemma_tree_at(st1, dir, path, key);
    assert(payload_in(st1, dir, path, key) == old);
    assert(db1.has_tree(longer) == (child_of(old) != 0)) by {
        assert(d.subs.contains_key(key) <==> child_of(get(st1, d.shape, key)) != 0);
    }
    assert(longer.len() > 0);
    assert(db1.has_tree(longer) == db0.has_tree(longer));
    assert(db1.value_at(path, key) == db0.value_at(path, key));
    let grown = grows(old, data);
    assert(grown == (data is None && !db0.has_tree(longer)));
    assert forall|q: Seq<Key>| #[trigger]
        db.tree_at(q) == st3.off(tree_idx(dir_at(dir2, q))) && db1.tree_at(q) == st1.off(
            tree_idx(dir_at(dir, q)),
        ) by {
        lemma_tree_at(st3, dir2, q, key);
        lemma_tree_at(st1, dir, q, key);
    }
    assert forall|q: Seq<Key>| q.len() > 0 implies #[trigger] db1.tree_at(q) == db0.tree_at(q) by {
        if db0.meta.root_btree_offset == 0 {
            assert(db1.has_tree(q) == (db0.has_tree(q) || q.len() == 0));
            lemma_database_empty(db0, q, key);
        } else {
            assert(store_of(db1) == store_of(db0));
        }
    }
    assert forall|q: Seq<Key>|
        !is_prefix(q, path) && !(data is None && q == path.push(key) && !db0.has_tree(q))
            implies #[trigger] db.tree_at(q) == db0.tree_at(q) by {
        if q.len() == 0 {
            assert(path.take(0) =~= q);
        }
        assert(tree_idx(dir_at(dir2, q)) == tree_idx(dir_at(dir, q)));
        assert(db1.tree_at(q) == db0.tree_at(q));
    }
    // the tree at the end of the path
    assert(db.tree_at(path) == st2.off(tree_idx(dir_at(dir2, path))));
    assert(db1.tree_at(path) == st1.off(d.shape.idx));
    if db0.meta.root_btree_offset == 0 {
        assert(path =~= Seq::<Key>::empty());
        assert(d == dir);
        assert(st1.img(dir.shape.idx) == image(db1.disk@, db0.spec_end(), db0.spec_block_size()));
        assert(node_has_room(st1, d.shape, payload_len(old, data)));
    } else {
        assert(st1 == store_of(db0));
        assert(db0.tree_at(path) == st1.off(d.shape.idx));
        let tree = BTree { root: db0.tree_at(path) };
        assert(forall|len: int| #[trigger]
            tree.root_has_room(db0, len) == node_has_room(st1, d.shape, len));
        assert(inline_of(old) == db0.value_at(path, key));
    }
    // the trees on the way
    assert forall|j: int| 0 <= j < path.len() implies #[trigger] moved_as(
        db0,
        db,
        path.take(j),
        path[j],
        path.take(j + 1),
    ) by {
        reveal(above_placed);
        let q = path.take(j);
        let next = path.take(j + 1);
        let k = path[j];
        assert(st1 == store_of(db0));
        lemma_dir_at_take(dir, path, j);
        let dq = dir_at(dir, q).unwrap();
        lemma_database_at(db1, dir, q, k);
        lemma_tree_at(st1, dir, q, k);
        assert(payload_in(st1, dir, q, k) == get(st1, dq.shape, k));
        assert(db0.tree_at(q) == st1.off(dq.shape.idx));
        assert(st1.img(dq.shape.idx) == image(
            db0.disk@,
            db0.tree_at(q) as int,
            db0.spec_block_size(),
        ));
        assert(payload_len(get(st1, dq.shape, k), None) == entry_len(db0, q, k, None));
        assert(db.tree_at(q) == st3.off(tree_idx(dir_at(dir2, q))));
        assert(db.tree_at(next) == st3.off(tree_idx(dir_at(dir2, next))));
        assert(db0.tree_at(next) == st1.off(tree_idx(dir_at(dir, next))));
        let below = tree_idx(dir_at(dir, next));
        let below2 = tree_idx(dir_at(dir2, next));
        let now = tree_idx(dir_at(dir2, q));
        assert(placed_as(st1, dq.shape, k, below, below2, now));
        if below2 != below {
            if below2 < below {
                lemma_off(st1, below2, below);
            } else {
                lemma_off(st1, below, below2);
            }
        }
        if now > st1.n {
            lemma_off(st1, st1.n, now);
        }
    }
    // the kind of its root page
    let idx2 = tree_idx(dir_at(dir2, path));
    assert(dir_at(dir2, path) is Some);
    lemma_dir_at_owns(dir2, path);
    assert(st3.img(idx2) == st2.img(idx2));
    assert(st3.img(idx2) == image(db.disk@, db.tree_at(path) as int, db.spec_block_size()));
    if db0.meta.root_btree_offset == 0 || (db.tree_at(path) == db0.tree_at(path)
        && db0.leaf_at(path)) {
        assert(st2.off(idx2) == st1.off(d.shape.idx));
        if idx2 < d.shape.idx {
            lemma_off(st1, idx2, d.shape.idx);
        }
        if d.shape.idx < idx2 {
            lemma_off(st1, d.shape.idx, idx2);
        }
        assert(idx2 == d.shape.idx);
        assert(is_leaf(st1.img(d.shape.idx)));
    }
    if grown {
        let st0 = store_of(db0);
        lemma_off(st0, st0.n, st0.n + 1);
        assert(db.tree_at(longer) == st3.off(st1.n));
        assert(st3.off(st1.n) == st1.off(st1.n));
        if db0.meta.root_btree_offset == 0 {
            assert(st1.n == st0.n + 1);
            assert(st1.off(st1.n) == st0.off(st0.n + 1));
        } else {
            assert(st1 == st0);
        }
    }
}

/// A payload spells the child offset that it was made for, and the inline
/// value, if that is not empty.
pub proof fn lemma_payload_roundtrip(child: u64, inline: Option<Seq<u8>>)
    ensures
        payload_child(payload_of(child, inline)) == child,
        payload_inline(payload_of(child, inline)) == match inline {
            Some(v) => if v.len() > 0 {
                Some(v)
            } else {
                None
            },
            None => None,
        },
{
    lemma_u64_be_roundtrip(child);
    let p = payload_of(child, inline);
    assert(at_least_8(p).subrange(0, CHILD_OFFSET_LEN as int) =~= u64_to_be(child));
    match inline {
        Some(v) => {
            if v.len() > 0 {
                assert(p.subrange(CHILD_OFFSET_LEN as int, p.len() as int) =~= v);
            }
        },
        None => {},
    }
}

/// The `u64` that the first eight bytes of `input` spell, big-endian.
pub fn read_be_u64(input: &[u8]) -> (r: u64)
    requires
        input@.len() >= 8,
    ensures
        r == u64_from_be(input@.subrange(0, 8)),
{
    get_u64(input, 0)
}

impl TreeEntryValue {
    /// What the inline value stands for.
    pub open spec fn spec_data(&self) -> Option<Seq<u8>> {
        match self.data {
            Some(v) => Some(v@),
            None => None,
        }
    }

    /// The child offset as a number: zero for none.
    pub open spec fn spec_child(&self) -> u64 {
        match self.child_offset {
            Some(c) => c,
            None => 0,
        }
    }

    /// A child offset that is there is not zero.
    pub open spec fn wf(&self) -> bool {
        &&& self.child_offset matches Some(c) ==> c != 0
    }

    /// Reads a payload: the first eight bytes are the child offset, zero
    /// for none; what follows is the inline value, absent if nothing
    /// follows. A payload shorter than eight bytes is read as if zeros
    /// followed it.
    pub fn from_data(data: Vec<u8>) -> (r: TreeEntryValue)
        ensures
            r.wf(),
            r.spec_child() == payload_child(data@),
            r.spec_data() == payload_inline(data@),
    {
        let mut data = data;
        let ghost p = data@;
        while data.len() < CHILD_OFFSET_LEN
            invariant
                p.len() <= data@.len(),
                data@.len() <= CHILD_OFFSET_LEN || data@ == p,
                data@ == p + Seq::new((data@.len() - p.len()) as nat, |i: int| 0u8),
            decreases CHILD_OFFSET_LEN - data@.len(),
        {
            data.push(0u8);
            assert(data@ =~= p + Seq::new((data@.len() - p.len()) as nat, |i: int| 0u8));
        }
        assert(data@ =~= at_least_8(p));
        let rest = data.split_off(CHILD_OFFSET_LEN);
        let child_offset: u64 = read_be_u64(data.as_slice());
        proof {
            assert(data@.subrange(0, 8) =~= at_least_8(p).subrange(0, CHILD_OFFSET_LEN as int));
            if p.len() > CHILD_OFFSET_LEN {
                assert(rest@ =~= p.subrange(CHILD_OFFSET_LEN as int, p.len() as int));
            }
        }
        TreeEntryValue {
            child_offset: if child_offset != 0 {
                Some(child_offset)
            } else {
                None
            },
            data: if rest.len() > 0 {
                Some(rest)
            } else {
                None
            },
        }
    }

    /// A value with neither child tree nor inline value.
    pub fn new() -> (r: TreeEntryValue)
        ensures
            r.child_offset is None,
            r.data is None,
            r.wf(),
    {
        TreeEntryValue { child_offset: None, data: None }
    }

    /// The payload: the child offset, zero for none, and the inline value
    /// behind it.
    pub fn into_buf(self) -> (r: Vec<u8>)
        ensures
            r@ == payload_of(self.spec_child(), self.spec_data()),
    {
        let mut buf: Vec<u8> = Vec::new();
        let child: u64 = match self.child_offset {
            Some(c) => c,
            None => 0,
        };
        put_u64(&mut buf, child);
        match self.data {
            Some(data) => {
                let ghost head = buf@;
                let mut i: usize = 0;
                while i < data.len()
                    invariant
                        0 <= i <= data@.len(),
                        buf@ == head + data@.subrange(0, i as int),
                    decreases data@.len() - i,
                {
                    buf.push(data[i]);
                    assert(buf@ =~= head + data@.subrange(0, i + 1));
                    i += 1;
                }
                assert(data@.subrange(0, data@.len() as int) =~= data@);
            },
            None => {},
        }
        buf
    }
}

impl TreeEntry {
    /// The offset of the root tree of `db`, which is allocated if there is
    /// none yet.
    fn root_tree<D: Disk>(db: &mut Database<D>) -> (r: Result<u64, Error>)
        requires
            old(db).inv(),
        ensures
            final(db).disk.reliable() == old(db).disk.reliable(),
            header_kept_but_root(old(db), final(db)),
            match r {
                Ok(root) => {
                    &&& root == final(db).meta.root_btree_offset
                    &&& nested_ok(old(db)) ==> rooted(old(db), final(db))
                    &&& old(db).grown_by(final(db), 1)
                },
                Err(Error::Capacity) => device_full(old(db), final(db)),
                Err(e) => io_failure(&old(db).disk, e),
            },
            old(db).meta.root_btree_offset != 0 ==> r is Ok && same_database(old(db), final(db)),
            old(db).meta.root_btree_offset == 0 && r is Ok ==> new_root_tree(old(db), final(db)),
    {
        let ghost db0 = *db;
        let ghost st = store_of(db);
        if db.meta.root_btree_offset != 0 {
            proof {
                db0.lemma_grown_once(db);
                assert forall|q: Seq<Key>| #[trigger] db.has_tree(q) == (db.has_tree(q) || q.len()
                    == 0) by {
                    if q.len() == 0 {
                        assert(db.has_tree(q));
                    }
                }
            }
            return Ok(db.meta.root_btree_offset);
        }
        let tree = match BTree::init(db) {
            Ok(tree) => tree,
            Err(e) => {
                return Err(e);
            },
        };
        let ghost st1 = store_of(db);
        let ghost db1 = *db;
        db.meta.root_btree_offset = tree.offset();
        proof {
            reveal(DatabaseMeta::spec_end);
        }
        match db.persist_meta() {
            Ok(()) => {},
            Err(e) => {
                return Err(e);
            },
        }
        proof {
            let st2 = store_of(db);
            let dir = leaf_dir(st.n);
            lemma_store_inv(&db0);
            lemma_store_inv(&db1);
            lemma_off_end(&db0);
            lemma_header_written(db1.disk@, db.meta);
            tree.lemma_value_none(&db1);
            assert(tree_ok(st1, dir.shape));
            assert forall|k: Key| (#[trigger] get(st1, dir.shape, k)) is None by {
                assert(tree.value(&db1, k) is None);
            }
            assert(dir_ok(st1, dir));
            lemma_dir_header(st1, st2, dir);
            assert(root_dir(st2, db.meta.root_btree_offset, dir));
            assert forall|q: Seq<Key>, k: Key| #[trigger] db.value_at(
                q,
                k,
            ) == db0.value_at(q, k) by {
                lemma_database_at(db, dir, q, k);
                lemma_database_empty(&db0, q, k);
                lemma_dir_frame_at(st1, st2, dir, q, k);
                if q.len() == 0 {
                    assert(tree.value(&db1, k) is None);
                } else {
                    assert(!dir.subs.contains_key(q[0]));
                }
            }
            assert forall|q: Seq<Key>| #[trigger] db.has_tree(q) == (db0.has_tree(q) || q.len()
                == 0) by {
                lemma_database_at(db, dir, q, 0);
                lemma_database_empty(&db0, q, 0);
                if q.len() > 0 {
                    assert(!dir.subs.contains_key(q[0]));
                }
            }
            assert forall|q: Seq<Key>| #[trigger] db.keys_at(q) == db0.keys_at(q) by {
                assert forall|k: Key| db.keys_at(q).contains(k) == db0.keys_at(q).contains(k) by {
                    lemma_database_at(db, dir, q, k);
                    lemma_database_empty(&db0, q, k);
                    lemma_dir_frame_at(st1, st2, dir, q, k);
                    if q.len() == 0 {
                        assert(tree.value(&db1, k) is None);
                    } else {
                        assert(!dir.subs.contains_key(q[0]));
                    }
                }
                assert(db.keys_at(q) =~= db0.keys_at(q));
            }
            lemma_off(st, 0, st.n);
            assert(db.meta.root_btree_offset != 0);
            assert(db.synced());
            assert(nested_ok(db));
            db0.lemma_grown_once(db);
            assert(st2.img(st.n) == st1.img(st.n)) by {
                assert(dir_owns(dir, st.n));
            }
        }
        Ok(db.meta.root_btree_offset)
    }

    /// The offset of the tree at the end of `path`, zero if the path
    /// leads to none. The database is left as it was.
    fn find<D: Disk>(path: &Vec<Key>, db: &mut Database<D>) -> (r: Result<u64, Error>)
        requires
            old(db).inv(),
        ensures
            final(db).disk.reliable() == old(db).disk.reliable(),
            final(db).disk@ == old(db).disk@,
            final(db).meta == old(db).meta,
            nested_ok(old(db)) ==> match r {
                Ok(offset) => offset == old(db).tree_at(path@) && (offset != 0 ==> BTree {
                    root: offset,
                }.wf(old(db))),
                Err(e) => io_failure(&old(db).disk, e),
            },
    {
        let ghost st = store_of(db);
        let ghost root = db.meta.root_btree_offset;
        let ghost ready = nested_ok(db);
        let mut offset: u64 = db.meta.root_btree_offset;
        let ghost mut dir = choose|dir: Dir| root_dir(st, root, dir);
        let mut i: usize = 0;
        proof {
            lemma_store_inv(db);
            assert(path@.skip(0) =~= path@);
        }
        while i < path.len() && offset != 0
            invariant
                db.disk.reliable() == old(db).disk.reliable(),
                db.inv(),
                db.disk@ == old(db).disk@,
                db.meta == old(db).meta,
                st == store_of(db),
                st.inv(),
                ready == nested_ok(old(db)),
                0 <= i <= path@.len(),
                root == old(db).meta.root_btree_offset,
                ready ==> tree_at(st, root, path@) == tree_at(st, offset, path@.skip(i as int)),
                ready && offset != 0 ==> root_dir(st, offset, dir),
            decreases path@.len() - i,
        {
            let tree = BTree::from_offset(offset);
            proof {
                assert(path@.skip(i as int)[0] == path@[i as int]);
                assert(path@.skip(i as int).skip(1) =~= path@.skip(i + 1));
                if ready {
                    tree.lemma_contents(db, dir.shape);
                }
            }
            let payload = match tree.lookup(path[i], db) {
                Ok(payload) => payload,
                Err(e) => {
                    return Err(e);
                },
            };
            offset = match payload {
                Some(payload) => match TreeEntryValue::from_data(payload).child_offset {
                    Some(child) => child,
                    None => 0,
                },
                None => 0,
            };
            proof {
                if ready && offset != 0 {
                    assert(dir.subs.contains_key(path@[i as int]));
                    dir = dir.subs[path@[i as int]];
                }
            }
            i += 1;
        }
        proof {
            if offset == 0 {
                lemma_tree_at_none(st, path@.skip(i as int));
            } else {
                assert(path@.skip(i as int) =~= Seq::<Key>::empty());
                if ready {
                    BTree { root: offset }.lemma_contents(db, dir.shape);
                }
            }
        }
        Ok(offset)
    }

    /// Updates the entry of `key` in the tree at `off`: with `data`, the
    /// key gets the inline value `data`; without, it gets an empty child
    /// tree if it has none. Returns the offset of the tree's root, which
    /// may have changed.
    fn update_here<D: Disk>(
        off: u64,
        key: Key,
        data: Option<&[u8]>,
        db: &mut Database<D>,
        Ghost(dir): Ghost<Dir>,
    ) -> (r: (Result<u64, Error>, Ghost<Dir>))
        requires
            old(db).inv(),
        ensures
            final(db).disk.reliable() == old(db).disk.reliable(),
            header_kept(old(db), final(db)),
            root_dir(store_of(old(db)), off, dir) ==> match r.0 {
                Ok(off2) => update_done(
                    store_of(old(db)),
                    store_of(final(db)),
                    dir,
                    r.1@,
                    off2,
                    Seq::empty(),
                    key,
                    data_view(data),
                ) && synced_kept(old(db), final(db)) && old(db).grown_by(final(db), 2),
                Err(e) => update_error(&old(db).disk, e),
            },
            root_dir(store_of(old(db)), off, dir) && update_fits(
                old(db),
                dir,
                Seq::empty(),
                data_view(data),
            ) ==> !(r.0 matches Err(Error::Capacity)),
            root_dir(store_of(old(db)), off, dir) && data is None && child_of(
                get(store_of(old(db)), dir.shape, key),
            ) != 0 ==> untouched(old(db), final(db), off, r.0),
            root_dir(store_of(old(db)), off, dir) && way_fits(
                store_of(old(db)),
                dir,
                Seq::empty(),
                key,
                data_view(data),
            ) ==> r.0 != Err::<u64, Error>(Error::Capacity) && (r.0 is Ok ==> r.0 == Ok::<
                u64,
                Error,
            >(off)),
    {
        let ghost st = store_of(db);
        let ghost ready = root_dir(st, off, dir);
        let ghost db0 = *db;
        let ghost owed = ready && update_fits(db, dir, Seq::empty(), data_view(data));
        let ghost way = ready && way_fits(st, dir, Seq::empty(), key, data_view(data));
        proof {
            if way {
                assert(dir_at(dir, Seq::<Key>::empty()) == Some(dir));
                lemma_off_end(db);
                lemma_off(st, st.n, st.n + 1);
                lemma_off(st, st.n + 1, st.n + 2);
            }
        }
        proof {
            if ready {
                db0.lemma_grown_once(db);
                db0.lemma_grown_more(db, 1, 2);
            }
            if owed {
                lemma_small_here(st, dir, Seq::empty());
                db0.lemma_roomy_blocks(2);
                db0.lemma_roomy_fewer(2, 1);
                lemma_small_less(8, fresh_len(data_view(data)), st.bs);
            }
        }
        let mut tree = BTree::from_offset(off);
        proof {
            lemma_store_inv(db);
            if ready {
                tree.lemma_contents(db, dir.shape);
            }
        }
        let existing = match tree.lookup(key, db) {
            Ok(existing) => existing,
            Err(e) => {
                return (Err(e), Ghost(dir));
            },
        };
        let ghost old_payload = option_view(existing);
        let mut entry = match existing {
            Some(payload) => TreeEntryValue::from_data(payload),
            None => TreeEntryValue::new(),
        };
        proof {
            if ready {
                assert(old_payload == get(st, dir.shape, key));
                assert(payload_in(st, dir, Seq::<Key>::empty(), key) == old_payload);
                lemma_u64_from_be_zero(at_least_8(Seq::<u8>::empty()).subrange(0, 8));
            }
        }
        let ghost grown = grows(old_payload, data_view(data));
        match data {
            Some(data) => {
                entry.data = Some(slice_to_vec(data));
            },
            None => {
                if entry.child_offset.is_some() {
                    proof {
                        if ready {
                            lemma_dir_step_refl(st, dir, Seq::empty(), key);
                            lemma_above_empty(st, dir, dir);
                        }
                    }
                    return (Ok(off), Ghost(dir));
                }
                let child = match BTree::init(db) {
                    Ok(child) => child,
                    Err(e) => {
                        return (Err(e), Ghost(dir));
                    },
                };
                entry.child_offset = Some(child.offset());
                proof {
                    if ready {
                        db0.lemma_grown_once(db);
                    }
                    if owed {
                        db0.lemma_roomy_after(db, 1, 1);
                    }
                    if ready {
                        lemma_off_end(&db0);
                        child.lemma_value_none(db);
                        assert forall|k: Key| (#[trigger] get(
                            store_of(db),
                            leaf_dir(st.n).shape,
                            k,
                        )) is None by {
                            assert(child.value(db, k) is None);
                        }
                    }
                }
            },
        }
        let ghost st1 = store_of(db);
        let ghost db1 = *db;
        let ghost child_offset = entry.spec_child();
        let ghost inline = entry.spec_data();
        let payload = entry.into_buf();
        proof {
            lemma_payload_roundtrip(child_offset, inline);
            if ready {
                // the tree is as it was where a child tree has been added
                assert forall|p: int| #[trigger] owns(
                    dir.shape,
                    p,
                ) && st.has_page(p) implies st1.img(
                    p,
                ) == st.img(p) && st1.has_page(p) by {}
                lemma_frame(st, st1, dir.shape, -1, u128::MAX as int);
                tree.lemma_contents(db, dir.shape);
            }
            if ready {
                lemma_u64_be_roundtrip(child_offset);
                lemma_off_end(&db0);
                lemma_off_end(&db1);
                lemma_off(st, st.n, st.n + 1);
                assert(st1.img(dir.shape.idx) == st.img(dir.shape.idx)) by {
                    assert(owns(dir.shape, dir.shape.idx));
                }
                assert(payload@.len() == payload_len(old_payload, data_view(data)));
                assert(tree.root_has_room(&db1, payload@.len() as int) == node_has_room(
                    st,
                    dir.shape,
                    payload@.len() as int,
                ));
            }
            if way {
                lemma_off(st1, st1.n, st1.n + 1);
                assert(st1.off(st1.n + 1) <= st.off(st.n + 2));
                lemma_way_frame(st, st1, dir.shape, key, payload@.len() as int);
                assert(tree.has_room(db, key, payload@.len() as int));
            }
            if owed {
                lemma_u64_be_roundtrip(child_offset);
                if old_payload is Some {
                    assert(small(old_payload.unwrap().len() as int, st.bs)) by {
                        assert(get(st, dir.shape, key) is Some);
                    }
                }
                assert(small(payload@.len() as int, st.bs));
                assert forall|k: Key| #[trigger] tree.contents(db).contains_key(k) implies small(
                    tree.contents(db)[k].len() as int,
                    st.bs,
                ) by {
                    assert(get(st, dir.shape, k) is Some);
                }
                assert(tree.takes(db, payload@.len() as int));
            }
        }
        match tree.insert(key, payload.as_slice(), db) {
            Ok(()) => {},
            Err(e) => {
                return (Err(e), Ghost(dir));
            },
        }
        let ghost dir2 = target_dir(dir, tree.shape(db), key, grown, st.n);
        proof {
            let st2 = store_of(db);
            let shape2 = tree.shape(db);
            if ready {
                db0.lemma_grown_twice(&db1, db, 1, 1);
                lemma_store_inv(&db0);
                assert forall|k: Key| #[trigger] get(st2, shape2, k) == if k == key {
                    Some(payload@)
                } else {
                    get(st, dir.shape, k)
                } by {
                    tree.lemma_value_of_contents(db, k);
                    BTree { root: off }.lemma_value_of_contents(&db1, k);
                }
                lemma_target(st, st1, st2, dir, shape2, key, payload@, grown);
                lemma_changed_target(st, st2, dir, dir2, key, payload@, grown);
                lemma_above_empty(st, dir, dir2);
                let top = Seq::<Key>::empty();
                assert(dir_at(dir, top) == Some(dir));
                assert(dir_at(dir2, top) == Some(dir2));
                assert(st2.off(dir2.shape.idx) == tree.root);
                if grown {
                    let q = top.push(key);
                    assert(q[0] == key);
                    assert(q.skip(1) =~= top);
                    assert(dir2.subs.contains_key(key) && dir2.subs[key] == leaf_dir(st.n));
                    assert(dir_at(leaf_dir(st.n), q.skip(1)) == Some(leaf_dir(st.n)));
                    assert(dir_at(dir2, q) == Some(leaf_dir(st.n)));
                }
                assert(grown == grows(get(st, dir.shape, key), data_view(data)));
                assert(!(data_view(data) is None && child_of(old_payload) != 0));
                assert(db1.spec_end() == st.off(st.n + if grown {
                    1int
                } else {
                    0int
                }));
                lemma_end_bounds(db1.meta);
                let len = payload_len(get(st, dir.shape, key), data_view(data));
                assert(len == payload@.len());
                assert(BTree { root: off }.root_has_room(&db1, len) == node_has_room(
                    st,
                    dir.shape,
                    len,
                ));
                assert(tree.root == if node_has_room(st, dir.shape, len) {
                    off
                } else {
                    db1.spec_end() as u64
                });
                assert(st.off(dir.shape.idx) == off);
                assert(tree.root as int == target_after(
                    st,
                    dir.shape,
                    get(st, dir.shape, key),
                    data_view(data),
                ));
            }
        }
        (Ok(tree.offset()), Ghost(dir2))
    }

    /// Updates the entry of `key` in the tree that `path`, from its key
    /// `i` on, leads to from the tree at `off`. Where the root of a tree
    /// changes by that, the entry that names the tree is updated, and so
    /// on upwards. Returns the offset of the root of the tree at `off`,
    /// which may have changed.
    #[verifier::rlimit(40)]
    fn update_at<D: Disk>(
        off: u64,
        path: &Vec<Key>,
        i: usize,
        key: Key,
        data: Option<&[u8]>,
        db: &mut Database<D>,
        Ghost(dir): Ghost<Dir>,
    ) -> (r: (Result<u64, Error>, Ghost<Dir>))
        requires
            old(db).inv(),
            i <= path@.len(),
        ensures
            final(db).disk.reliable() == old(db).disk.reliable(),
            header_kept(old(db), final(db)),
            root_dir(store_of(old(db)), off, dir) && dir_at(dir, path@.skip(i as int)) is Some
                ==> match r.0 {
                Ok(off2) => update_done(
                    store_of(old(db)),
                    store_of(final(db)),
                    dir,
                    r.1@,
                    off2,
                    path@.skip(i as int),
                    key,
                    data_view(data),
                ) && synced_kept(old(db), final(db)) && old(db).grown_by(
                    final(db),
                    (path@.len() - i + 2) as nat,
                ),
                Err(e) => update_error(&old(db).disk, e),
            },
            root_dir(store_of(old(db)), off, dir) && dir_at(dir, path@.skip(i as int)) is None
                ==> no_such_tree(old(db), final(db), r.0),
            root_dir(store_of(old(db)), off, dir) && dir_at(dir, path@.skip(i as int)) is Some
                && update_fits(old(db), dir, path@.skip(i as int), data_view(data)) ==> !(
            r.0 matches Err(Error::Capacity)),
            root_dir(store_of(old(db)), off, dir) && dir_at(dir, path@.skip(i as int)) is Some
                && data is None && child_of(
                payload_in(store_of(old(db)), dir, path@.skip(i as int), key),
            ) != 0 ==> untouched(old(db), final(db), off, r.0),
            root_dir(store_of(old(db)), off, dir) && way_fits(
                store_of(old(db)),
                dir,
                path@.skip(i as int),
                key,
                data_view(data),
            ) ==> r.0 != Err::<u64, Error>(Error::Capacity) && (r.0 is Ok ==> r.0 == Ok::<
                u64,
                Error,
            >(off)),
        decreases path@.len() - i,
    {
        if i == path.len() {
            proof {
                assert(path@.skip(i as int) =~= Seq::<Key>::empty());
            }
            return Self::update_here(off, key, data, db, Ghost(dir));
        }
        let ghost st = store_of(db);
        let ghost suffix = path@.skip(i as int);
        let ghost rest = path@.skip(i + 1);
        let ghost ready = root_dir(st, off, dir) && dir_at(dir, suffix) is Some;
        let ghost owed = ready && update_fits(db, dir, suffix, data_view(data));
        let ghost steps = (rest.len() + 2) as nat;
        let ghost db0 = *db;
        let k0: Key = path[i];
        let ghost sub = dir.subs[k0];
        let mut tree = BTree::from_offset(off);
        proof {
            lemma_store_inv(db);
            assert(suffix[0] == k0);
            assert(suffix.skip(1) =~= rest);
            assert(suffix =~= seq![k0] + rest);
            if ready {
                tree.lemma_contents(db, dir.shape);
                assert(dir.subs.contains_key(k0));
                assert(dir_at(sub, rest) is Some);
                assert(payload_in(st, dir, suffix, key) == payload_in(st, sub, rest, key));
            }
            if root_dir(st, off, dir) {
                tree.lemma_contents(db, dir.shape);
                if dir.subs.contains_key(k0) {
                    assert(dir_at(dir, suffix) == dir_at(sub, rest));
                }
            }
            if owed {
                lemma_small_here(st, dir, suffix);
                lemma_small_below(st, dir, suffix);
                db0.lemma_roomy_fewer(steps + 1, steps);
                lemma_small_less(8, fresh_len(data_view(data)), st.bs);
            }
        }
        let existing = match tree.lookup(k0, db) {
            Ok(existing) => existing,
            Err(e) => {
                return (Err(e), Ghost(dir));
            },
        };
        let mut entry = match existing {
            Some(payload) => TreeEntryValue::from_data(payload),
            None => {
                proof {
                    if ready {
                        assert(child_of(get(st, dir.shape, k0)) != 0);
                    }
                }
                return (Err(Error::InvariantViolation), Ghost(dir));
            },
        };
        let child: u64 = match entry.child_offset {
            Some(child) => child,
            None => {
                return (Err(Error::InvariantViolation), Ghost(dir));
            },
        };
        let (r, below) = Self::update_at(child, path, i + 1, key, data, db, Ghost(sub));
        let child2: u64 = match r {
            Ok(child2) => child2,
            Err(e) => {
                return (Err(e), Ghost(dir));
            },
        };
        let ghost st1 = store_of(db);
        let ghost db1 = *db;
        let ghost sub2 = below@;
        let ghost nv = new_inline(payload_in(st, dir, suffix, key), data_view(data));
        let ghost grown = grows(payload_in(st, dir, suffix, key), data_view(data));
        proof {
            if ready {
                lemma_store_inv(&db0);
                lemma_parent_tree_kept(st, st1, dir, k0, sub2);
                tree.lemma_contents(db, dir.shape);
                db0.lemma_grown_more(db, steps, steps + 1);
            }
            if owed {
                db0.lemma_roomy_after(db, steps, 1);
            }
        }
        if child2 == child {
            proof {
                if ready {
                    if sub2.shape.idx < sub.shape.idx {
                        lemma_off(st, sub2.shape.idx, sub.shape.idx);
                    }
                    if sub.shape.idx < sub2.shape.idx {
                        lemma_off(st, sub.shape.idx, sub2.shape.idx);
                    }
                    lemma_update_above(
                        st,
                        st1,
                        st1,
                        dir,
                        k0,
                        sub2,
                        dir.shape,
                        child2,
                        rest,
                        key,
                        data_view(data),
                    );
                    lemma_parent(st, st1, st1, dir, k0, sub2, dir.shape, Seq::empty(), false);
                    lemma_changed_parent(
                        st,
                        st1,
                        st1,
                        dir,
                        k0,
                        sub2,
                        dir.shape,
                        rest,
                        key,
                        nv,
                        grown,
                    );
                }
            }
            return (Ok(off), Ghost(parent_dir(dir, dir.shape, k0, sub2)));
        }
        let ghost inline = entry.spec_data();
        entry.child_offset = Some(child2);
        let payload = entry.into_buf();
        proof {
            lemma_payload_roundtrip(child2, inline);
            if owed {
                lemma_u64_be_roundtrip(child2);
                assert(get(st, dir.shape, k0) is Some);
                assert(small(payload@.len() as int, st.bs));
                assert forall|k: Key| #[trigger] tree.contents(db).contains_key(k) implies small(
                    tree.contents(db)[k].len() as int,
                    st.bs,
                ) by {
                    assert(get(st, dir.shape, k) is Some);
                }
                assert(tree.takes(db, payload@.len() as int));
            }
        }
        match tree.insert(k0, payload.as_slice(), db) {
            Ok(()) => {},
            Err(e) => {
                return (Err(e), Ghost(dir));
            },
        }
        let ghost dir2 = parent_dir(dir, tree.shape(db), k0, sub2);
        proof {
            let st2 = store_of(db);
            let shape2 = tree.shape(db);
            if ready {
                db0.lemma_grown_twice(&db1, db, steps, 1);
                assert forall|k: Key| #[trigger] get(st2, shape2, k) == if k == k0 {
                    Some(payload@)
                } else {
                    get(st1, dir.shape, k)
                } by {
                    tree.lemma_value_of_contents(db, k);
                    BTree { root: off }.lemma_value_of_contents(&db1, k);
                }
                lemma_u64_be_roundtrip(child2);
                assert(st2.has_page(shape2.idx));
                assert(st1.img(dir.shape.idx) == st.img(dir.shape.idx)) by {
                    assert(owns(dir.shape, dir.shape.idx));
                    assert(!dir_owns(dir.subs[k0], dir.shape.idx));
                }
                lemma_placed_top(
                    &db1,
                    st,
                    dir,
                    k0,
                    off,
                    tree.root,
                    sub2.shape.idx,
                    shape2.idx,
                    payload@.len() as int,
                );
                if sub2.shape.idx == dir.subs[k0].shape.idx {
                    assert(child2 == child);
                }
                lemma_update_above(
                    st,
                    st1,
                    st2,
                    dir,
                    k0,
                    sub2,
                    shape2,
                    child2,
                    rest,
                    key,
                    data_view(data),
                );
                lemma_parent(st, st1, st2, dir, k0, sub2, shape2, payload@, true);
                lemma_changed_parent(st, st1, st2, dir, k0, sub2, shape2, rest, key, nv, grown);
            }
        }
        (Ok(tree.offset()), Ghost(dir2))
    }

    /// Updates the entry of `key` in the tree at the end of `path`, and
    /// writes the header if the root tree has a new root by that.
    fn apply<D: Disk>(path: &Vec<Key>, key: Key, data: Option<&[u8]>, db: &mut Database<D>) -> (r:
        Result<(), Error>)
        requires
            old(db).inv(),
        ensures
            final(db).disk.reliable() == old(db).disk.reliable(),
            header_kept_but_root(old(db), final(db)),
            nested_ok(old(db)) && (path@.len() == 0 || old(db).has_tree(path@)) ==> match r {
                Ok(()) => updated(old(db), final(db), path@, key, data_view(data)) && old(
                    db,
                ).grown_by(final(db), path@.len() + 3),
                Err(e) => update_error(&old(db).disk, e),
            },
            nested_ok(old(db)) && path@.len() > 0 && !old(db).has_tree(path@) ==> match r {
                Ok(()) => false,
                Err(e) => update_error(&old(db).disk, e) || (e == Error::InvariantViolation
                    && rooted(old(db), final(db))),
            },
            nested_ok(old(db)) && (path@.len() == 0 || old(db).has_tree(path@)) && old(
                db,
            ).takes_at(path@, inline_len(data)) ==> !(r matches Err(Error::Capacity)),
            nested_ok(old(db)) && (path@.len() == 0 || old(db).has_tree(path@)) && has_room_at(
                old(db),
                path@,
                key,
                data_view(data),
            ) ==> !(r matches Err(Error::Capacity)),
            nested_ok(old(db)) && data is None && old(db).has_tree(path@.push(key)) ==> match r {
                Ok(()) => same_database(old(db), final(db)),
                Err(e) => io_failure(&old(db).disk, e),
            },
    {
        let ghost db0 = *db;
        let ghost ready = nested_ok(db) && (path@.len() == 0 || db.has_tree(path@));
        let ghost owed = ready && db.takes_at(path@, inline_len(data));
        proof {
            if owed {
                db0.lemma_roomy_blocks(path@.len() + 3);
            }
        }
        let root: u64 = match Self::root_tree(db) {
            Ok(root) => root,
            Err(e) => {
                return Err(e);
            },
        };
        let ghost db1 = *db;
        let ghost st1 = store_of(db);
        let ghost dir = choose|dir: Dir| root_dir(st1, root, dir);
        proof {
            lemma_store_inv(db);
            assert(path@.skip(0) =~= path@);
            if nested_ok(&db0) {
                lemma_database_at(db, dir, path@, key);
            }
            if nested_ok(&db0) && data is None && db0.has_tree(path@.push(key)) {
                if db0.meta.root_btree_offset == 0 {
                    lemma_database_empty(&db0, path@.push(key), key);
                }
                lemma_database_at(db, dir, path@.push(key), key);
                lemma_dir_at_push(dir, path@, key);
                lemma_tree_at(st1, dir, path@, key);
                assert(child_of(payload_in(st1, dir, path@, key)) != 0);
            }
            if ready && has_room_at(&db0, path@, key, data_view(data)) {
                assert(store_of(db) == store_of(&db0));
                lemma_way_fits(db, dir, path@, key, data_view(data));
            }
            if owed {
                db0.lemma_roomy_after(db, 1, path@.len() + 2);
                lemma_small_less(8, 8 + inline_len(data), st1.bs);
                assert forall|i: int, k: Key| 0 <= i <= path@.len() implies ((#[trigger] db.value_at(
                    path@.take(i),
                    k,
                )) matches Some(v) ==> small(8 + v.len() as int, st1.bs)) by {
                    assert(db.value_at(path@.take(i), k) == db0.value_at(path@.take(i), k));
                }
                lemma_small_database(db, dir, path@);
            }
        }
        let (r, after) = Self::update_at(root, path, 0, key, data, db, Ghost(dir));
        let root2: u64 = match r {
            Ok(root2) => root2,
            Err(e) => {
                proof {
                    if nested_ok(&db0) && db.disk@ == db1.disk@ && db.meta == db1.meta {
                        assert forall|q: Seq<Key>, k: Key| #[trigger]
                            db.value_at(q, k) == db0.value_at(q, k) by {
                            assert(db1.value_at(q, k) == db0.value_at(q, k));
                        }
                        assert forall|q: Seq<Key>| #[trigger]
                            db.has_tree(q) == (db0.has_tree(q) || q.len() == 0) by {
                            assert(db1.has_tree(q) == (db0.has_tree(q) || q.len() == 0));
                        }
                        assert forall|q: Seq<Key>| #[trigger] db.keys_at(q) == db0.keys_at(q) by {
                            assert(db1.keys_at(q) == db0.keys_at(q));
                        }
                        assert(root_dir(store_of(db), db.meta.root_btree_offset, dir));
                    }
                }
                return Err(e);
            },
        };
        let ghost db2 = *db;
        let ghost st2 = store_of(db);
        let ghost dir2 = after@;
        if root2 != root {
            db.meta.root_btree_offset = root2;
            proof {
                reveal(DatabaseMeta::spec_end);
            }
            match db.persist_meta() {
                Ok(()) => {},
                Err(e) => {
                    return Err(e);
                },
            }
        }
        proof {
            let st3 = store_of(db);
            if ready {
                reveal(DatabaseMeta::spec_end);
                db0.lemma_grown_twice(&db1, &db2, 1, (path@.len() + 2) as nat);
            }
            if ready {
                lemma_store_inv(&db2);
                if root2 != root {
                    lemma_header_written(db2.disk@, db.meta);
                    lemma_dir_header(st2, st3, dir2);
                } else {
                    assert(st3 == st2);
                }
                assert(root_dir(st3, db.meta.root_btree_offset, dir2));
                if db0.meta.root_btree_offset == 0 && path@.len() > 0 {
                    lemma_database_empty(&db0, path@, key);
                }
                lemma_updated_places(
                    &db0,
                    &db1,
                    db,
                    st2,
                    dir,
                    dir2,
                    root2,
                    path@,
                    key,
                    data_view(data),
                );
            }
            if ready {
                lemma_store_inv(&db2);
                if root2 != root {
                    lemma_header_written(db2.disk@, db.meta);
                    lemma_dir_header(st2, st3, dir2);
                } else {
                    assert(st3 == st2);
                }
                assert(root_dir(st3, db.meta.root_btree_offset, dir2));
                let old_payload = payload_in(st1, dir, path@, key);
                assert forall|q: Seq<Key>, k: Key| #[trigger]
                    db.value_at(q, k) == if q == path@ && k == key && data_view(data) is Some {
                        new_inline(None, data_view(data))
                    } else {
                        db0.value_at(q, k)
                    } by {
                    lemma_database_at(db, dir2, q, k);
                    lemma_database_at(&db1, dir, q, k);
                    if root2 != root {
                        lemma_dir_frame_at(st2, st3, dir2, q, k);
                    }
                    assert(inline_of(payload_in(st2, dir2, q, k)) == if q == path@ && k == key {
                        new_inline(old_payload, data_view(data))
                    } else {
                        inline_of(payload_in(st1, dir, q, k))
                    });
                    assert(db1.value_at(q, k) == db0.value_at(q, k));
                }
                assert forall|q: Seq<Key>| #[trigger] db.keys_at(q) == if q == path@ {
                    db0.keys_at(q).insert(key)
                } else {
                    db0.keys_at(q)
                } by {
                    assert forall|k: Key|
                        db.keys_at(q).contains(k) == (db0.keys_at(q).contains(k) || (q == path@
                            && k == key)) by {
                        lemma_database_at(db, dir2, q, k);
                        lemma_database_at(&db1, dir, q, k);
                        if root2 != root {
                            lemma_dir_frame_at(st2, st3, dir2, q, k);
                        }
                        assert(payload_in(st2, dir2, q, k) is Some <==> payload_in(
                            st1,
                            dir,
                            q,
                            k,
                        ) is Some || (q == path@ && k == key));
                        assert(db1.keys_at(q) == db0.keys_at(q));
                    }
                    if q == path@ {
                        assert(db.keys_at(q) =~= db0.keys_at(q).insert(key));
                    } else {
                        assert(db.keys_at(q) =~= db0.keys_at(q));
                    }
                }
                assert forall|q: Seq<Key>| #[trigger]
                    db.has_tree(q) == (db0.has_tree(q) || q.len() == 0 || (data_view(data) is None
                        && q == path@.push(key))) by {
                    lemma_database_at(db, dir2, q, 0);
                    lemma_database_at(&db1, dir, q, 0);
                    assert(db1.has_tree(q) == (db0.has_tree(q) || q.len() == 0));
                    assert(dir_at(dir2, q) is Some <==> dir_at(dir, q) is Some || (grows(
                        old_payload,
                        data_view(data),
                    ) && q == path@.push(key)));
                    if data_view(data) is None && q == path@.push(key) && !grows(
                        old_payload,
                        data_view(data),
                    ) {
                        // the key had its child tree
                        lemma_tree_at(st1, dir, path@, key);
                        lemma_dir_at_push(dir, path@, key);
                        let d = dir_at(dir, path@).unwrap();
                        assert(d.subs.contains_key(key) <==> child_of(get(st1, d.shape, key))
                            != 0);
                    }
                }
            }
        }
        Ok(())
    }

    /// The entry of the tree under `key` of this tree. Where the key has
    /// no child tree yet, an empty tree is allocated for it; the inline
    /// value of the key, if it has one, stays, as does every other. A path
    /// that leads to no tree is an invariant violation. Where the tree has
    /// room for the entry, or the inline values on the way are small and
    /// the device can grow, there is no capacity error, and on a reliable
    /// device the update succeeds.
    pub fn get<D: Disk>(self, key: Key, db: &mut Database<D>) -> (r: Result<TreeEntry, Error>)
        requires
            old(db).inv(),
        ensures
            final(db).disk.reliable() == old(db).disk.reliable(),
            header_kept_but_root(old(db), final(db)),
            r matches Ok(entry) ==> entry.path@ == self.path@.push(key),
            nested_ok(old(db)) && (self.path@.len() == 0 || old(db).has_tree(self.path@))
                ==> match r {
                Ok(entry) => updated(old(db), final(db), self.path@, key, None) && old(
                    db,
                ).grown_by(final(db), self.path@.len() + 3),
                Err(e) => update_error(&old(db).disk, e),
            },
            nested_ok(old(db)) && self.path@.len() > 0 && !old(db).has_tree(self.path@)
                ==> match r {
                Ok(_) => false,
                Err(e) => update_error(&old(db).disk, e) || (e == Error::InvariantViolation
                    && rooted(old(db), final(db))),
            },
            nested_ok(old(db)) && (self.path@.len() == 0 || old(db).has_tree(self.path@)) && old(
                db,
            ).disk.reliable() && old(db).takes_at(self.path@, 0) ==> r is Ok,
            nested_ok(old(db)) && (self.path@.len() == 0 || old(db).has_tree(self.path@)) && (
            r matches Err(Error::Capacity)) ==> !old(db).takes_at(self.path@, 0) && !has_room_at(
                old(db),
                self.path@,
                key,
                None,
            ),
            nested_ok(old(db)) && old(db).has_tree(self.path@.push(key)) ==> match r {
                Ok(_) => same_database(old(db), final(db)),
                Err(e) => io_failure(&old(db).disk, e),
            },
    {
        let mut path = self.path;
        match Self::apply(&path, key, None, db) {
            Ok(()) => {},
            Err(e) => {
                return Err(e);
            },
        }
        path.push(key);
        Ok(TreeEntry { path })
    }

    /// Gives `key` the inline value `data` in this tree; an empty value
    /// reads as none. The child tree of the key, if it has one, stays, as
    /// does every other inline value. A path that leads to no tree is an
    /// invariant violation. Where the tree has room for the entry, or the
    /// value and the inline values on the way are small and the device can
    /// grow, there is no capacity error, and on a reliable device the
    /// update succeeds.
    pub fn set_value<D: Disk>(self, key: Key, data: &[u8], db: &mut Database<D>) -> (r: Result<
        (),
        Error,
    >)
        requires
            old(db).inv(),
        ensures
            final(db).disk.reliable() == old(db).disk.reliable(),
            header_kept_but_root(old(db), final(db)),
            nested_ok(old(db)) && (self.path@.len() == 0 || old(db).has_tree(self.path@))
                ==> match r {
                Ok(()) => updated(old(db), final(db), self.path@, key, Some(data@)) && old(
                    db,
                ).grown_by(final(db), self.path@.len() + 3),
                Err(e) => update_error(&old(db).disk, e),
            },
            nested_ok(old(db)) && self.path@.len() > 0 && !old(db).has_tree(self.path@)
                ==> match r {
                Ok(_) => false,
                Err(e) => update_error(&old(db).disk, e) || (e == Error::InvariantViolation
                    && rooted(old(db), final(db))),
            },
            nested_ok(old(db)) && (self.path@.len() == 0 || old(db).has_tree(self.path@)) && old(
                db,
            ).disk.reliable() && old(db).takes_at(self.path@, data@.len() as int) ==> r is Ok,
            nested_ok(old(db)) && (self.path@.len() == 0 || old(db).has_tree(self.path@)) && (
            r matches Err(Error::Capacity)) ==> !old(db).takes_at(self.path@, data@.len() as int)
                && !has_room_at(old(db), self.path@, key, Some(data@)),
    {
        Self::apply(&self.path, key, Some(data), db)
    }

    /// The inline value of `key` in this tree, if the key has one: none
    /// also where the path of this entry leads to no tree. The database is
    /// left as it was.
    pub fn value<D: Disk>(self, key: Key, db: &mut Database<D>) -> (r: Result<
        Option<Vec<u8>>,
        Error,
    >)
        requires
            old(db).inv(),
        ensures
            final(db).disk.reliable() == old(db).disk.reliable(),
            final(db).disk@ == old(db).disk@,
            final(db).meta == old(db).meta,
            nested_ok(old(db)) ==> match r {
                Ok(v) => option_view(v) == old(db).value_at(self.path@, key),
                Err(e) => io_failure(&old(db).disk, e),
            },
    {
        let offset: u64 = match Self::find(&self.path, db) {
            Ok(offset) => offset,
            Err(e) => {
                return Err(e);
            },
        };
        if offset == 0 {
            return Ok(None);
        }
        let tree = BTree::from_offset(offset);
        match tree.lookup(key, db) {
            Ok(Some(data)) => Ok(TreeEntryValue::from_data(data).data),
            Ok(None) => Ok(None),
            Err(e) => Err(e),
        }
    }

    /// The keys of this tree, in ascending order: none where the path of
    /// this entry leads to no tree. The database is left as it was.
    pub fn keys<D: Disk>(self, db: &mut Database<D>) -> (r: Result<Vec<Key>, Error>)
        requires
            old(db).inv(),
        ensures
            final(db).disk.reliable() == old(db).disk.reliable(),
            final(db).disk@ == old(db).disk@,
            final(db).meta == old(db).meta,
            nested_ok(old(db)) ==> match r {
                Ok(keys) => keys_sorted(keys@) && keys@.to_set() == old(db).keys_at(self.path@),
                Err(e) => io_failure(&old(db).disk, e),
            },
    {
        let offset: u64 = match Self::find(&self.path, db) {
            Ok(offset) => offset,
            Err(e) => {
                return Err(e);
            },
        };
        if offset == 0 {
            let keys: Vec<Key> = Vec::new();
            proof {
                assert(keys@.to_set() =~= Set::<Key>::empty());
            }
            return Ok(keys);
        }
        let tree = BTree::from_offset(offset);
        proof {
            let ghost db0 = *old(db);
            assert(tree.contents(db) =~= tree.contents(&db0));
        }
        tree.keys(db)
    }
}

impl<D: Disk> Database<D> {
    /// The entry of the root tree, which is allocated if there is none
    /// yet: one block, which the header then names. What the database
    /// holds stays.
    pub fn lookup(&mut self) -> (r: Result<TreeEntry, Error>)
        requires
            old(self).inv(),
        ensures
            final(self).disk.reliable() == old(self).disk.reliable(),
            header_kept_but_root(old(self), final(self)),
            match r {
                Ok(entry) => {
                    &&& entry.path@ == Seq::<Key>::empty()
                    &&& nested_ok(old(self)) ==> rooted(old(self), final(self))
                    &&& old(self).grown_by(final(self), 1)
                },
                Err(Error::Capacity) => device_full(old(self), final(self)),
                Err(e) => io_failure(&old(self).disk, e),
            },
            old(self).meta.root_btree_offset != 0 ==> r is Ok && same_database(
                old(self),
                final(self),
            ),
            old(self).meta.root_btree_offset == 0 && r is Ok ==> new_root_tree(
                old(self),
                final(self),
            ),
    {
        match TreeEntry::root_tree(self) {
            Ok(_) => {
                let path: Vec<Key> = Vec::new();
                assert(path@ =~= Seq::<Key>::empty());
                Ok(TreeEntry { path })
            },
            Err(e) => Err(e),
        }
    }
}

} // verus!
