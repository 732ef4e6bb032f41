//! Trees within trees: what the database holds as a whole.

use crate::database::Database;
use crate::database::HEADER_LEN;
use crate::database::max_device_size;
use crate::disk::Disk;
use crate::key::Key;
use crate::page::btree::BTree;
use crate::page::image;
use crate::page::leaf_spec::is_leaf;
use crate::page::room::lemma_small_less;
use crate::page::room::small;
use crate::page::room::small_under;
use crate::page::shape::Node;
use crate::page::shape::Store;
use crate::page::shape::disjoint;
use crate::page::shape::get;
use crate::page::shape::in_range;
use crate::page::shape::lemma_frame;
use crate::page::shape::lemma_off;
use crate::page::shape::lemma_owned_pages;
use crate::page::shape::lemma_store_inv;
use crate::page::shape::owns;
use crate::page::shape::repr;
use crate::page::shape::store_of;
use crate::tree::at_least_8;
use crate::tree::payload_child;
use crate::tree::payload_inline;
use vstd::prelude::*;

verus! {

/// The shape of a tree of trees: the shape of the tree itself, and for
/// each of its keys that names a child tree the shape of that.
pub ghost struct Dir {
    pub shape: Node,
    pub subs: Map<Key, Dir>,
}

/// The offset of the child tree that an entry names, zero for none.
pub open spec fn child_of(v: Option<Seq<u8>>) -> u64 {
    match v {
        Some(p) => payload_child(p),
        None => 0,
    }
}

/// The inline value of an entry.
pub open spec fn inline_of(v: Option<Seq<u8>>) -> Option<Seq<u8>> {
    match v {
        Some(p) => payload_inline(p),
        None => None,
    }
}

/// The store holds a well-formed tree of this shape.
pub open spec fn tree_ok(st: Store, x: Node) -> bool {
    &&& repr(st, x)
    &&& disjoint(x)
    &&& in_range(st, x, -1, u128::MAX as int)
}

/// Block `p` is a page of the tree or of a tree under it.
pub open spec fn dir_owns(dir: Dir, p: int) -> bool
    decreases dir,
{
    owns(dir.shape, p) || exists|k: Key|
        dir.subs.contains_key(k) && dir_owns(#[trigger] dir.subs[k], p)
}

/// The store holds a tree of trees of this shape: the tree is well-formed,
/// its keys that name a child tree are those that the shape has one for,
/// each child tree is where the key says and is such a tree of trees
/// itself, and no block is a page of two of the trees.
pub open spec fn dir_ok(st: Store, dir: Dir) -> bool
    decreases dir,
{
    &&& tree_ok(st, dir.shape)
    &&& forall|k: Key|
        #[trigger] dir.subs.contains_key(k) <==> child_of(get(st, dir.shape, k)) != 0
    &&& forall|k: Key|
        #[trigger] dir.subs.contains_key(k) ==> {
            &&& st.off(dir.subs[k].shape.idx) == child_of(get(st, dir.shape, k))
            &&& dir_ok(st, dir.subs[k])
        }
    &&& forall|k: Key, p: int|
        dir.subs.contains_key(k) && #[trigger] dir_owns(dir.subs[k], p) ==> !owns(dir.shape, p)
    &&& forall|k1: Key, k2: Key, p: int|
        dir.subs.contains_key(k1) && dir.subs.contains_key(k2) && k1 != k2 ==> !(
        #[trigger] dir_owns(dir.subs[k1], p) && #[trigger] dir_owns(dir.subs[k2], p))
}

/// The tree of trees that a path of keys leads to.
pub open spec fn dir_at(dir: Dir, path: Seq<Key>) -> Option<Dir>
    decreases path.len(),
{
    if path.len() == 0 {
        Some(dir)
    } else if dir.subs.contains_key(path[0]) {
        dir_at(dir.subs[path[0]], path.skip(1))
    } else {
        None
    }
}

/// The entry that the tree at the end of a path has for a key.
pub open spec fn payload_in(st: Store, dir: Dir, path: Seq<Key>, key: Key) -> Option<Seq<u8>> {
    match dir_at(dir, path) {
        Some(d) => get(st, d.shape, key),
        None => None,
    }
}

/// The offset of the tree that a path of keys leads to from the tree at
/// `root`, zero if the path leads to none.
pub open spec fn tree_at(st: Store, root: u64, path: Seq<Key>) -> u64
    decreases path.len(),
{
    if path.len() == 0 || root == 0 {
        root
    } else {
        tree_at(st, child_of(BTree { root }.value_in(st, path[0])), path.skip(1))
    }
}

/// The entry that the tree at the end of a path from the tree at `root`
/// has for a key.
pub open spec fn payload_at(st: Store, root: u64, path: Seq<Key>, key: Key) -> Option<Seq<u8>> {
    if tree_at(st, root, path) == 0 {
        None
    } else {
        BTree { root: tree_at(st, root, path) }.value_in(st, key)
    }
}

/// The inline value that the tree at the end of a path from the tree at
/// `root` has for a key.
pub open spec fn value_at(st: Store, root: u64, path: Seq<Key>, key: Key) -> Option<Seq<u8>> {
    inline_of(payload_at(st, root, path, key))
}

/// Every payload of every tree on the way along `path`, from the tree of
/// `dir` on, is small.
pub open spec fn small_along(st: Store, dir: Dir, path: Seq<Key>) -> bool {
    forall|i: int|
        0 <= i <= path.len() ==> ((#[trigger] dir_at(dir, path.take(i))) matches Some(d)
            ==> small_under(st, d.shape))
}

/// The length of the payload that an update writes where the entry has no
/// longer one: the child offset and the inline value that it brings.
pub open spec fn fresh_len(data: Option<Seq<u8>>) -> int {
    match data {
        Some(v) => 8 + v.len() as int,
        None => 8,
    }
}

/// The pages of a tree of trees read the same from two stores.
pub open spec fn dir_kept(st: Store, st2: Store, dir: Dir) -> bool {
    &&& st2.bs == st.bs
    &&& st2.n >= st.n
    &&& forall|p: int| #[trigger] dir_owns(dir, p) ==> st2.img(p) == st.img(p) && st2.has_page(p)
}

/// A tree of trees of shape `dir` has become one of shape `dir2`; no page
/// outside the old one has changed, and the new one has pages of the old
/// one and new blocks only.
pub open spec fn dir_step(st: Store, st2: Store, dir: Dir, dir2: Dir) -> bool {
    &&& dir_ok(st2, dir2)
    &&& st2.bs == st.bs
    &&& st2.n >= st.n
    &&& forall|p: int|
        #[trigger] st.has_page(p) && !dir_owns(dir, p) ==> st2.img(p) == st.img(p) && st2.has_page(
            p,
        )
    &&& forall|p: int| #[trigger] dir_owns(dir2, p) ==> dir_owns(dir, p) || st.n <= p < st2.n
}

/// The block of the root page of a tree that may be there, zero for none.
pub open spec fn tree_idx(d: Option<Dir>) -> int {
    match d {
        Some(d) => d.shape.idx,
        None => 0,
    }
}

/// `q` is the beginning of `path`, or all of it.
pub open spec fn is_prefix(q: Seq<Key>, path: Seq<Key>) -> bool {
    q.len() <= path.len() && path.take(q.len() as int) == q
}

/// The inline values of the new tree of trees are those of the old one,
/// but for the key at the end of `path`, which has `nv`; its keys are
/// those of the old one and that key; and the paths of the new one are
/// those of the old one, and, where a tree has been added, the path to
/// it; every tree that is not on the path is where it was.
pub open spec fn changed(
    st: Store,
    st2: Store,
    dir: Dir,
    dir2: Dir,
    path: Seq<Key>,
    key: Key,
    nv: Option<Seq<u8>>,
    grown: bool,
) -> bool {
    &&& forall|q: Seq<Key>, k: Key|
        inline_of(#[trigger] payload_in(st2, dir2, q, k)) == if q == path && k == key {
            nv
        } else {
            inline_of(payload_in(st, dir, q, k))
        }
    &&& forall|q: Seq<Key>, k: Key|
        (#[trigger] payload_in(st2, dir2, q, k)) is Some <==> payload_in(st, dir, q, k) is Some
            || (q == path && k == key)
    &&& forall|q: Seq<Key>|
        (#[trigger] dir_at(dir2, q)) is Some <==> dir_at(dir, q) is Some || (grown && q
            == path.push(key))
    &&& forall|q: Seq<Key>|
        !is_prefix(q, path) && !(grown && q == path.push(key)) ==> tree_idx(
            #[trigger] dir_at(dir2, q),
        ) == tree_idx(dir_at(dir, q))
}

/// The shape of a tree that is one empty leaf.
pub open spec fn leaf_dir(idx: int) -> Dir {
    Dir { shape: Node { idx, children: Seq::empty() }, subs: Map::empty() }
}

/// The shape of a tree of trees whose tree has become `shape2` and which
/// has, where `grown`, a new empty tree under `key`.
pub open spec fn target_dir(dir: Dir, shape2: Node, key: Key, grown: bool, nb: int) -> Dir {
    Dir {
        shape: shape2,
        subs: if grown {
            dir.subs.insert(key, leaf_dir(nb))
        } else {
            dir.subs
        },
    }
}

/// The shape of a tree of trees whose tree has become `shape2` and whose
/// tree of trees under `k0` has become `sub2`.
pub open spec fn parent_dir(dir: Dir, shape2: Node, k0: Key, sub2: Dir) -> Dir {
    Dir { shape: shape2, subs: dir.subs.insert(k0, sub2) }
}

/// `dir` is the shape of the tree of trees at `root`.
pub open spec fn root_dir(st: Store, root: u64, dir: Dir) -> bool {
    &&& dir_ok(st, dir)
    &&& st.off(dir.shape.idx) == root
}

/// The trees of the database are well-formed: the header on the device is
/// the one in memory, and the root tree, if there is one, is a tree of
/// trees.
pub open spec fn nested_ok<D: Disk>(db: &Database<D>) -> bool {
    &&& db.synced()
    &&& db.meta.root_btree_offset != 0 ==> exists|dir: Dir|
        root_dir(store_of(db), db.meta.root_btree_offset, dir)
}

impl<D: Disk> Database<D> {
    /// The offset of the tree that a path of keys leads to from the root
    /// tree, zero if it leads to none.
    pub open spec fn tree_at(&self, path: Seq<Key>) -> u64 {
        tree_at(store_of(self), self.meta.root_btree_offset, path)
    }

    /// Whether a path of keys leads to a tree.
    pub open spec fn has_tree(&self, path: Seq<Key>) -> bool {
        self.tree_at(path) != 0
    }

    /// The inline value of `key` in the tree that a path of keys leads to.
    pub open spec fn value_at(&self, path: Seq<Key>, key: Key) -> Option<Seq<u8>> {
        value_at(store_of(self), self.meta.root_btree_offset, path, key)
    }

    /// Whether an update of an entry of the tree at the end of `path` is
    /// sure to find room, where it brings an inline value of `len` bytes,
    /// or none: that value and every inline value of the trees on the way
    /// are small for the block size behind a child offset of eight bytes,
    /// and the device can grow by what an insert into each of these trees
    /// and two new trees may allocate.
    pub open spec fn takes_at(&self, path: Seq<Key>, len: int) -> bool {
        &&& self.small_at(path, len)
        &&& self.roomy_for(path.len() + 3)
    }

    /// An inline value of `len` bytes and every inline value of the trees
    /// on the way along `path` are small for the block size behind a
    /// child offset of eight bytes.
    pub open spec fn small_at(&self, path: Seq<Key>, len: int) -> bool {
        &&& small(8 + len, self.spec_block_size())
        &&& forall|i: int, k: Key|
            0 <= i <= path.len() ==> ((#[trigger] self.value_at(path.take(i), k)) matches Some(v)
                ==> small(8 + v.len() as int, self.spec_block_size()))
    }

    /// The root page of the tree that a path of keys leads to is a leaf.
    pub open spec fn leaf_at(&self, path: Seq<Key>) -> bool {
        is_leaf(image(self.disk@, self.tree_at(path) as int, self.spec_block_size()))
    }

    /// The keys of the tree that a path of keys leads to.
    pub open spec fn keys_at(&self, path: Seq<Key>) -> Set<Key> {
        if self.tree_at(path) == 0 {
            Set::empty()
        } else {
            BTree { root: self.tree_at(path) }.contents(self).dom()
        }
    }
}

/// Every page of a tree of trees on a store is an allocated block on its
/// device.
pub proof fn lemma_dir_pages(st: Store, dir: Dir, p: int)
    requires
        dir_ok(st, dir),
        dir_owns(dir, p),
    ensures
        st.has_page(p),
    decreases dir,
{
    if owns(dir.shape, p) {
        lemma_owned_pages(st, dir.shape, p);
    } else {
        let k = choose|k: Key| dir.subs.contains_key(k) && dir_owns(#[trigger] dir.subs[k], p);
        lemma_dir_pages(st, dir.subs[k], p);
    }
}

/// A tree of trees whose pages read the same from another store is a tree
/// of trees on that store too, with the same entries.
pub proof fn lemma_dir_frame(st: Store, st2: Store, dir: Dir)
    requires
        dir_ok(st, dir),
        dir_kept(st, st2, dir),
    ensures
        dir_ok(st2, dir),
        forall|k: Key| #[trigger] get(st2, dir.shape, k) == get(st, dir.shape, k),
    decreases dir,
{
    assert forall|p: int| #[trigger] owns(dir.shape, p) && st.has_page(p) implies st2.img(p)
        == st.img(p) && st2.has_page(p) by {
        assert(dir_owns(dir, p));
    }
    lemma_frame(st, st2, dir.shape, -1, u128::MAX as int);
    assert forall|k: Key| #[trigger] dir.subs.contains_key(k) implies dir_ok(st2, dir.subs[k]) by {
        assert forall|p: int| #[trigger] dir_owns(dir.subs[k], p) implies st2.img(p) == st.img(p)
            && st2.has_page(p) by {
            assert(dir_owns(dir, p));
        }
        lemma_dir_frame(st, st2, dir.subs[k]);
    }
}

/// A tree of trees whose pages read the same from another store has the
/// same entries at the end of every path.
pub proof fn lemma_dir_frame_at(st: Store, st2: Store, dir: Dir, path: Seq<Key>, key: Key)
    requires
        dir_ok(st, dir),
        dir_kept(st, st2, dir),
    ensures
        payload_in(st2, dir, path, key) == payload_in(st, dir, path, key),
    decreases path.len(),
{
    lemma_dir_frame(st, st2, dir);
    if path.len() > 0 && dir.subs.contains_key(path[0]) {
        let sub = dir.subs[path[0]];
        assert forall|p: int| #[trigger] dir_owns(sub, p) implies st2.img(p) == st.img(p)
            && st2.has_page(p) by {
            assert(dir_owns(dir, p));
        }
        lemma_dir_frame_at(st, st2, sub, path.skip(1), key);
    }
}

/// The tree at the end of a path, found by way of the offsets that the
/// entries name, is the tree that the shape has there, with its entries.
pub proof fn lemma_tree_at(st: Store, dir: Dir, path: Seq<Key>, key: Key)
    requires
        st.inv(),
        dir_ok(st, dir),
    ensures
        tree_at(st, st.off(dir.shape.idx) as u64, path) == match dir_at(dir, path) {
            Some(d) => st.off(d.shape.idx) as u64,
            None => 0,
        },
        dir_at(dir, path) matches Some(d) ==> dir_ok(st, d) && st.off(d.shape.idx) != 0 && 0
            <= st.off(d.shape.idx) <= u64::MAX,
        payload_at(st, st.off(dir.shape.idx) as u64, path, key) == payload_in(st, dir, path, key),
    decreases path.len(),
{
    let root = st.off(dir.shape.idx);
    lemma_root_in_range(st, dir);
    let tree = BTree { root: root as u64 };
    tree.lemma_shape(st, dir.shape);
    if path.len() > 0 {
        let k0 = path[0];
        if dir.subs.contains_key(k0) {
            lemma_root_in_range(st, dir.subs[k0]);
            lemma_tree_at(st, dir.subs[k0], path.skip(1), key);
        } else {
            assert(child_of(get(st, dir.shape, k0)) == 0);
            lemma_tree_at_none(st, path.skip(1));
        }
    }
}

/// No path leads anywhere from a tree that is not there.
pub proof fn lemma_tree_at_none(st: Store, path: Seq<Key>)
    ensures
        tree_at(st, 0, path) == 0,
{
}

/// The offset of a tree of a tree of trees is that of a block behind
/// block 0.
pub proof fn lemma_root_in_range(st: Store, dir: Dir)
    requires
        st.inv(),
        dir_ok(st, dir),
    ensures
        0 < st.off(dir.shape.idx) < max_device_size(),
        st.off(dir.shape.idx) + st.bs <= st.d.len(),
{
    lemma_off(st, 0, dir.shape.idx);
    lemma_off(st, dir.shape.idx, st.n);
}

/// What an insert into the tree at the end of the path has made of the
/// tree of trees there: the key has the new entry, which names the child
/// tree that the key had, or the new empty tree.
pub proof fn lemma_target(
    st: Store,
    st1: Store,
    st2: Store,
    dir: Dir,
    shape2: Node,
    key: Key,
    np: Seq<u8>,
    grown: bool,
)
    requires
        st.inv(),
        dir_ok(st, dir),
        st1.bs == st.bs,
        grown ==> {
            &&& st1.n == st.n + 1
            &&& forall|p: int|
                #[trigger] st.has_page(p) ==> st1.img(p) == st.img(p) && st1.has_page(p)
            &&& tree_ok(st1, leaf_dir(st.n).shape)
            &&& forall|k: Key| (#[trigger] get(st1, leaf_dir(st.n).shape, k)) is None
            &&& child_of(get(st, dir.shape, key)) == 0
            &&& child_of(Some(np)) == st.off(st.n)
        },
        !grown ==> st1 == st && child_of(Some(np)) == child_of(get(st, dir.shape, key)),
        tree_ok(st2, shape2),
        st2.bs == st.bs,
        st2.n >= st1.n,
        forall|p: int|
            #[trigger] st1.has_page(p) && !owns(dir.shape, p) ==> st2.img(p) == st1.img(p)
                && st2.has_page(p),
        forall|p: int| #[trigger] owns(shape2, p) ==> owns(dir.shape, p) || st1.n <= p < st2.n,
        forall|k: Key|
            #[trigger] get(st2, shape2, k) == if k == key {
                Some(np)
            } else {
                get(st, dir.shape, k)
            },
    ensures
        dir_step(st, st2, dir, target_dir(dir, shape2, key, grown, st.n)),
        forall|q: Seq<Key>, k: Key|
            #[trigger] payload_in(
                st2,
                target_dir(dir, shape2, key, grown, st.n),
                q,
                k,
            ) == if q.len()
                == 0 && k == key {
                Some(np)
            } else {
                payload_in(st, dir, q, k)
            },
        forall|q: Seq<Key>|
            (#[trigger] dir_at(target_dir(dir, shape2, key, grown, st.n), q)) is Some <==> dir_at(
                dir,
                q,
            ) is Some || (grown && q == seq![key]),
        forall|q: Seq<Key>|
            q.len() > 0 && !(grown && q == seq![key]) ==> tree_idx(
                #[trigger] dir_at(target_dir(dir, shape2, key, grown, st.n), q),
            ) == tree_idx(dir_at(dir, q)),
{
    let dir2 = target_dir(dir, shape2, key, grown, st.n);
    assert forall|q: Seq<Key>| q.len() > 0 && !(grown && q == seq![key]) implies tree_idx(
        #[trigger] dir_at(dir2, q),
    ) == tree_idx(dir_at(dir, q)) by {
        let q1 = q.skip(1);
        if grown && q[0] == key {
            assert(!dir.subs.contains_key(key));
            assert(dir_at(dir, q) is None);
            assert(dir2.subs.contains_key(key) && dir2.subs[key] == leaf_dir(st.n));
            assert(dir_at(dir2, q) == dir_at(leaf_dir(st.n), q1));
            if q1.len() == 0 {
                assert(q =~= seq![key]);
            } else {
                assert(!leaf_dir(st.n).subs.contains_key(q1[0]));
                assert(dir_at(leaf_dir(st.n), q1) is None);
            }
        } else if dir.subs.contains_key(q[0]) {
            assert(dir2.subs.contains_key(q[0]) && dir2.subs[q[0]] == dir.subs[q[0]]);
            assert(dir_at(dir2, q) == dir_at(dir.subs[q[0]], q1));
        } else {
            assert(!dir2.subs.contains_key(q[0]));
            assert(dir_at(dir2, q) is None);
            assert(dir_at(dir, q) is None);
        }
    }
    let fresh = leaf_dir(st.n);
    lemma_off(st, 0, st.n);
    if grown {
        assert(owns(fresh.shape, st.n));
        if owns(dir.shape, st.n) {
            lemma_owned_pages(st, dir.shape, st.n);
        }
        assert(st1.has_page(st.n));
        assert forall|p: int| #[trigger] owns(fresh.shape, p) && st1.has_page(p) implies st2.img(p)
            == st1.img(p) && st2.has_page(p) by {
            assert(p == st.n);
        }
        lemma_frame(st1, st2, fresh.shape, -1, u128::MAX as int);
    }
    // the trees under the tree are as they were
    assert forall|k: Key| #[trigger] dir.subs.contains_key(k) implies dir_kept(
        st,
        st2,
        dir.subs[k],
    ) by {
        assert forall|p: int| #[trigger] dir_owns(dir.subs[k], p) implies st2.img(p) == st.img(p)
            && st2.has_page(p) by {
            lemma_dir_pages(st, dir.subs[k], p);
            assert(!owns(dir.shape, p));
            assert(st1.has_page(p));
        }
    }
    assert forall|k: Key| #[trigger] dir2.subs.contains_key(k) implies st2.off(
        dir2.subs[k].shape.idx,
    ) == child_of(get(st2, shape2, k)) && dir_ok(st2, dir2.subs[k]) by {
        if grown && k == key {
            assert(dir2.subs[k] == fresh);
            assert(owns(fresh.shape, st.n));
            if owns(dir.shape, st.n) {
                lemma_owned_pages(st, dir.shape, st.n);
            }
            assert(st1.has_page(st.n));
            assert forall|p: int| #[trigger] owns(
                fresh.shape,
                p,
            ) && st1.has_page(p) implies st2.img(
                p,
            ) == st1.img(p) && st2.has_page(p) by {
                assert(p == st.n);
            }
            lemma_frame(st1, st2, fresh.shape, -1, u128::MAX as int);
            assert(dir_ok(st2, fresh));
        } else {
            assert(dir.subs.contains_key(k));
            assert(dir2.subs[k] == dir.subs[k]);
            lemma_dir_frame(st, st2, dir.subs[k]);
        }
    }
    assert forall|k: Key| #[trigger] dir2.subs.contains_key(k) <==> child_of(get(st2, shape2, k))
        != 0 by {
        assert(dir.subs.contains_key(k) <==> child_of(get(st, dir.shape, k)) != 0);
    }
    assert forall|k: Key, p: int|
        dir2.subs.contains_key(k) && #[trigger] dir_owns(dir2.subs[k], p) implies !owns(
        shape2,
        p,
    ) by {
        if grown && k == key {
            assert(p == st.n);
            if owns(dir.shape, p) {
                lemma_owned_pages(st, dir.shape, p);
            }
        } else {
            lemma_dir_pages(st, dir.subs[k], p);
            assert(!owns(dir.shape, p));
        }
    }
    assert forall|k1: Key, k2: Key, p: int|
        dir2.subs.contains_key(k1) && dir2.subs.contains_key(k2) && k1 != k2 implies !(
    #[trigger] dir_owns(dir2.subs[k1], p) && #[trigger] dir_owns(dir2.subs[k2], p)) by {
        if dir_owns(dir2.subs[k1], p) && dir_owns(dir2.subs[k2], p) {
            if grown && (k1 == key || k2 == key) {
                let o = if k1 == key { k2 } else { k1 };
                assert(p == st.n);
                lemma_dir_pages(st, dir.subs[o], p);
            } else {
                assert(!(dir_owns(dir.subs[k1], p) && dir_owns(dir.subs[k2], p)));
            }
        }
    }
    assert(dir_ok(st2, dir2));
    assert forall|p: int| #[trigger] st.has_page(p) && !dir_owns(dir, p) implies st2.img(p)
        == st.img(p) && st2.has_page(p) by {
        assert(st1.has_page(p));
    }
    assert forall|p: int| #[trigger] dir_owns(dir2, p) implies dir_owns(dir, p) || st.n <= p
        < st2.n by {
        if !owns(shape2, p) {
            let k = choose|k: Key| dir2.subs.contains_key(k) && dir_owns(
                #[trigger] dir2.subs[k],
                p,
            );
            if grown && k == key {
                assert(p == st.n);
            } else {
                assert(dir.subs.contains_key(k) && dir_owns(dir.subs[k], p));
            }
        }
    }
    assert forall|q: Seq<Key>, k: Key| #[trigger]
        payload_in(st2, dir2, q, k) == if q.len() == 0 && k == key {
            Some(np)
        } else {
            payload_in(st, dir, q, k)
        } by {
        if q.len() > 0 {
            if grown && q[0] == key {
                assert(!dir.subs.contains_key(key));
                assert(dir2.subs[q[0]] == fresh);
                if q.skip(1).len() > 0 {
                    assert(!fresh.subs.contains_key(q.skip(1)[0]));
                } else {
                    assert(get(st2, fresh.shape, k) == get(st1, fresh.shape, k));
                }
            } else if dir.subs.contains_key(q[0]) {
                assert(dir2.subs[q[0]] == dir.subs[q[0]]);
                lemma_dir_frame_at(st, st2, dir.subs[q[0]], q.skip(1), k);
            }
        }
    }
    assert forall|q: Seq<Key>| (#[trigger] dir_at(dir2, q)) is Some <==> dir_at(dir, q) is Some || (
    grown && q == seq![key]) by {
        if q.len() > 0 {
            if grown && q[0] == key {
                assert(!dir.subs.contains_key(key));
                assert(dir2.subs[q[0]] == fresh);
                if q.skip(1).len() > 0 {
                    assert(!fresh.subs.contains_key(q.skip(1)[0]));
                    assert(dir_at(fresh, q.skip(1)) is None);
                    assert(q.len() != 1);
                } else {
                    assert(dir_at(fresh, q.skip(1)) is Some);
                    assert(q =~= seq![key]);
                }
            } else if dir.subs.contains_key(q[0]) {
                assert(dir2.subs[q[0]] == dir.subs[q[0]]);
            }
            if q == seq![key] {
                assert(q[0] == key);
            }
        }
    }
}

/// What the entries of the tree at the end of the path say of the change
/// that an insert there has made.
pub proof fn lemma_changed_target(
    st: Store,
    st2: Store,
    dir: Dir,
    dir2: Dir,
    key: Key,
    np: Seq<u8>,
    grown: bool,
)
    requires
        forall|q: Seq<Key>, k: Key|
            #[trigger] payload_in(st2, dir2, q, k) == if q.len() == 0 && k == key {
                Some(np)
            } else {
                payload_in(st, dir, q, k)
            },
        forall|q: Seq<Key>|
            (#[trigger] dir_at(dir2, q)) is Some <==> dir_at(dir, q) is Some || (grown && q
                == seq![key]),
        forall|q: Seq<Key>|
            q.len() > 0 && !(grown && q == seq![key]) ==> tree_idx(#[trigger] dir_at(dir2, q))
                == tree_idx(dir_at(dir, q)),
    ensures
        changed(st, st2, dir, dir2, Seq::empty(), key, payload_inline(np), grown),
{
    let path = Seq::<Key>::empty();
    assert(path.push(key) =~= seq![key]);
    assert forall|q: Seq<Key>| !is_prefix(q, path) && !(grown && q == path.push(key)) implies tree_idx(
        #[trigger] dir_at(dir2, q),
    ) == tree_idx(dir_at(dir, q)) by {
        if q.len() == 0 {
            assert(path.take(0) =~= q);
        }
    }
    assert forall|q: Seq<Key>, k: Key|
        inline_of(#[trigger] payload_in(st2, dir2, q, k)) == if q == path && k == key {
            payload_inline(np)
        } else {
            inline_of(payload_in(st, dir, q, k))
        } by {
        if q.len() == 0 {
            assert(q =~= path);
        }
    }
    assert forall|q: Seq<Key>, k: Key| (#[trigger] payload_in(st2, dir2, q, k)) is Some
        <==> payload_in(st, dir, q, k) is Some || (q == path && k == key) by {
        if q.len() == 0 {
            assert(q =~= path);
        }
    }
    assert(path.push(key) =~= seq![key]);
}

/// What a change to the tree of trees under a key, and the entry of the
/// key that names its new root where that has changed, have made of the
/// tree of trees above: every entry but the key's is as it was, and under
/// the key is the changed tree of trees.
pub proof fn lemma_parent(
    st: Store,
    st1: Store,
    st2: Store,
    dir: Dir,
    k0: Key,
    sub2: Dir,
    shape2: Node,
    np: Seq<u8>,
    relinked: bool,
)
    requires
        st.inv(),
        dir_ok(st, dir),
        dir.subs.contains_key(k0),
        dir_step(st, st1, dir.subs[k0], sub2),
        relinked ==> {
            &&& tree_ok(st2, shape2)
            &&& st2.bs == st.bs
            &&& st2.n >= st1.n
            &&& forall|p: int|
                #[trigger] st1.has_page(p) && !owns(dir.shape, p) ==> st2.img(p) == st1.img(p)
                    && st2.has_page(p)
            &&& forall|p: int|
                #[trigger] owns(shape2, p) ==> owns(dir.shape, p) || st1.n <= p < st2.n
            &&& forall|k: Key|
                #[trigger] get(st2, shape2, k) == if k == k0 {
                    Some(np)
                } else {
                    get(st1, dir.shape, k)
                }
            &&& child_of(Some(np)) == st.off(sub2.shape.idx)
            &&& inline_of(Some(np)) == inline_of(get(st1, dir.shape, k0))
        },
        !relinked ==> st2 == st1 && shape2 == dir.shape && sub2.shape.idx
            == dir.subs[k0].shape.idx,
    ensures
        dir_step(st, st2, dir, parent_dir(dir, shape2, k0, sub2)),
        forall|k: Key|
            inline_of(#[trigger] get(st2, shape2, k)) == inline_of(get(st, dir.shape, k)),
        dir_ok(st2, sub2),
        forall|q: Seq<Key>, k: Key|
            #[trigger] payload_in(st2, sub2, q, k) == payload_in(st1, sub2, q, k),
        forall|q: Seq<Key>, k: Key|
            q.len() > 0 && q[0] != k0 ==> #[trigger] payload_in(
                st2,
                parent_dir(dir, shape2, k0, sub2),
                q,
                k,
            ) == payload_in(st, dir, q, k),
{
    let dir2 = parent_dir(dir, shape2, k0, sub2);
    let sub = dir.subs[k0];
    // the tree itself, before its entry is changed
    assert forall|p: int| #[trigger] owns(dir.shape, p) && st.has_page(p) implies st1.img(p)
        == st.img(p) && st1.has_page(p) by {
        if dir_owns(sub, p) {
            assert(!owns(dir.shape, p));
        }
    }
    lemma_frame(st, st1, dir.shape, -1, u128::MAX as int);
    // the changed tree of trees
    assert forall|p: int| #[trigger] dir_owns(sub2, p) implies st2.img(p) == st1.img(p)
        && st2.has_page(p) && !owns(dir.shape, p) && !owns(shape2, p) by {
        lemma_dir_pages(st1, sub2, p);
        if owns(dir.shape, p) {
            lemma_owned_pages(st, dir.shape, p);
            assert(dir_owns(sub, p));
        }
    }
    lemma_dir_frame(st1, st2, sub2);
    assert forall|q: Seq<Key>, k: Key| #[trigger]
        payload_in(st2, sub2, q, k) == payload_in(st1, sub2, q, k) by {
        lemma_dir_frame_at(st1, st2, sub2, q, k);
    }
    // the other trees of trees
    assert forall|k: Key| dir.subs.contains_key(k) && k != k0 implies dir_kept(
        st,
        st2,
        #[trigger] dir.subs[k],
    ) by {
        assert forall|p: int| #[trigger] dir_owns(dir.subs[k], p) implies st2.img(p) == st.img(p)
            && st2.has_page(p) by {
            lemma_dir_pages(st, dir.subs[k], p);
            assert(!(dir_owns(dir.subs[k], p) && dir_owns(sub, p)));
            assert(!owns(dir.shape, p));
            assert(st1.has_page(p));
        }
    }
    assert forall|k: Key| #[trigger] dir2.subs.contains_key(k) implies st2.off(
        dir2.subs[k].shape.idx,
    ) == child_of(get(st2, shape2, k)) && dir_ok(st2, dir2.subs[k]) by {
        if k != k0 {
            assert(dir.subs.contains_key(k));
            assert(dir2.subs[k] == dir.subs[k]);
            lemma_dir_frame(st, st2, dir.subs[k]);
        }
    }
    assert forall|k: Key| #[trigger] dir2.subs.contains_key(k) <==> child_of(get(st2, shape2, k))
        != 0 by {
        assert(dir.subs.contains_key(k) <==> child_of(get(st, dir.shape, k)) != 0);
        if k == k0 && relinked {
            lemma_root_in_range_any(st1, sub2);
        }
    }
    assert forall|k: Key, p: int|
        dir2.subs.contains_key(k) && #[trigger] dir_owns(dir2.subs[k], p) implies !owns(
        shape2,
        p,
    ) by {
        if k != k0 {
            lemma_dir_pages(st, dir.subs[k], p);
            assert(!owns(dir.shape, p));
            assert(st1.has_page(p));
        }
    }
    assert forall|k1: Key, k2: Key, p: int|
        dir2.subs.contains_key(k1) && dir2.subs.contains_key(k2) && k1 != k2 implies !(
    #[trigger] dir_owns(dir2.subs[k1], p) && #[trigger] dir_owns(dir2.subs[k2], p)) by {
        if dir_owns(dir2.subs[k1], p) && dir_owns(dir2.subs[k2], p) {
            if k1 == k0 || k2 == k0 {
                let o = if k1 == k0 { k2 } else { k1 };
                lemma_dir_pages(st, dir.subs[o], p);
                assert(dir_owns(sub, p) || st.n <= p < st1.n);
                assert(!(dir_owns(dir.subs[o], p) && dir_owns(sub, p)));
            } else {
                assert(!(dir_owns(dir.subs[k1], p) && dir_owns(dir.subs[k2], p)));
            }
        }
    }
    assert(dir_ok(st2, dir2));
    assert forall|p: int| #[trigger] st.has_page(p) && !dir_owns(dir, p) implies st2.img(p)
        == st.img(p) && st2.has_page(p) by {
        assert(!dir_owns(sub, p));
        assert(st1.has_page(p));
    }
    assert forall|p: int| #[trigger] dir_owns(dir2, p) implies dir_owns(dir, p) || st.n <= p
        < st2.n by {
        if !owns(shape2, p) {
            let k = choose|k: Key| dir2.subs.contains_key(k) && dir_owns(
                #[trigger] dir2.subs[k],
                p,
            );
            if k == k0 {
                assert(dir_owns(sub, p) || st.n <= p < st1.n);
            } else {
                assert(dir.subs.contains_key(k) && dir_owns(dir.subs[k], p));
            }
        }
    }
    assert forall|q: Seq<Key>, k: Key| q.len() > 0 && q[0] != k0 implies #[trigger] payload_in(
        st2,
        dir2,
        q,
        k,
    ) == payload_in(st, dir, q, k) by {
        if dir.subs.contains_key(q[0]) {
            assert(dir2.subs[q[0]] == dir.subs[q[0]]);
            lemma_dir_frame_at(st, st2, dir.subs[q[0]], q.skip(1), k);
        }
    }
}

/// The offset of the tree of a tree of trees is not zero.
pub proof fn lemma_root_in_range_any(st: Store, dir: Dir)
    requires
        st.bs > 0,
        dir_ok(st, dir),
    ensures
        0 < st.off(dir.shape.idx),
{
    lemma_off(st, 0, dir.shape.idx);
}

/// What a change to the tree of trees under a key is to the tree of
/// trees above.
pub proof fn lemma_changed_parent(
    st: Store,
    st1: Store,
    st2: Store,
    dir: Dir,
    k0: Key,
    sub2: Dir,
    shape2: Node,
    rest: Seq<Key>,
    key: Key,
    nv: Option<Seq<u8>>,
    grown: bool,
)
    requires
        dir.subs.contains_key(k0),
        changed(st, st1, dir.subs[k0], sub2, rest, key, nv, grown),
        forall|k: Key|
            inline_of(#[trigger] get(st2, shape2, k)) == inline_of(get(st, dir.shape, k)),
        forall|k: Key| (#[trigger] get(st2, shape2, k)) is Some <==> get(st, dir.shape, k) is Some,
        forall|q: Seq<Key>, k: Key|
            #[trigger] payload_in(st2, sub2, q, k) == payload_in(st1, sub2, q, k),
        forall|q: Seq<Key>, k: Key|
            q.len() > 0 && q[0] != k0 ==> #[trigger] payload_in(
                st2,
                parent_dir(dir, shape2, k0, sub2),
                q,
                k,
            ) == payload_in(st, dir, q, k),
    ensures
        changed(
            st,
            st2,
            dir,
            parent_dir(dir, shape2, k0, sub2),
            seq![k0] + rest,
            key,
            nv,
            grown,
        ),
{
    let dir2 = parent_dir(dir, shape2, k0, sub2);
    let sub = dir.subs[k0];
    let path = seq![k0] + rest;
    assert(dir2.subs[k0] == sub2);
    assert forall|q: Seq<Key>, k: Key|
        inline_of(#[trigger] payload_in(st2, dir2, q, k)) == if q == path && k == key {
            nv
        } else {
            inline_of(payload_in(st, dir, q, k))
        } by {
        if q.len() == 0 {
            assert(payload_in(st2, dir2, q, k) == get(st2, shape2, k));
            assert(payload_in(st, dir, q, k) == get(st, dir.shape, k));
        } else if q[0] == k0 {
            assert(payload_in(st2, dir2, q, k) == payload_in(st2, sub2, q.skip(1), k));
            assert(payload_in(st, dir, q, k) == payload_in(st, sub, q.skip(1), k));
            assert(inline_of(payload_in(st1, sub2, q.skip(1), k)) == if q.skip(1) == rest && k
                == key {
                nv
            } else {
                inline_of(payload_in(st, sub, q.skip(1), k))
            });
            if q.skip(1) == rest {
                assert(q =~= path);
            }
            if q == path {
                assert(q.skip(1) =~= rest);
            }
        } else {
            assert(path[0] == k0);
        }
    }
    assert forall|q: Seq<Key>, k: Key| (#[trigger] payload_in(st2, dir2, q, k)) is Some
        <==> payload_in(st, dir, q, k) is Some || (q == path && k == key) by {
        if q.len() == 0 {
            assert(payload_in(st2, dir2, q, k) == get(st2, shape2, k));
            assert(payload_in(st, dir, q, k) == get(st, dir.shape, k));
        } else if q[0] == k0 {
            assert(payload_in(st2, dir2, q, k) == payload_in(st2, sub2, q.skip(1), k));
            assert(payload_in(st, dir, q, k) == payload_in(st, sub, q.skip(1), k));
            assert(payload_in(st1, sub2, q.skip(1), k) is Some <==> payload_in(
                st,
                sub,
                q.skip(1),
                k,
            ) is Some || (q.skip(1) == rest && k == key));
            if q.skip(1) == rest {
                assert(q =~= path);
            }
            if q == path {
                assert(q.skip(1) =~= rest);
            }
        } else {
            assert(path[0] == k0);
        }
    }
    assert forall|q: Seq<Key>| !is_prefix(q, path) && !(grown && q == path.push(key)) implies tree_idx(
        #[trigger] dir_at(dir2, q),
    ) == tree_idx(dir_at(dir, q)) by {
        if q.len() == 0 {
            assert(path.take(0) =~= q);
        } else if q[0] == k0 {
            let q1 = q.skip(1);
            assert(dir_at(dir2, q) == dir_at(sub2, q1));
            assert(dir_at(dir, q) == dir_at(sub, q1));
            if is_prefix(q1, rest) {
                assert(path.take(q.len() as int) =~= seq![k0] + rest.take(q1.len() as int));
                assert(seq![k0] + q1 =~= q);
            }
            if q1 == rest.push(key) {
                assert(q =~= path.push(key));
            }
            assert(tree_idx(dir_at(sub2, q1)) == tree_idx(dir_at(sub, q1)));
        } else if dir.subs.contains_key(q[0]) {
            assert(dir2.subs[q[0]] == dir.subs[q[0]]);
        }
    }
    assert forall|q: Seq<Key>| (#[trigger] dir_at(dir2, q)) is Some <==> dir_at(dir, q) is Some || (
    grown && q == path.push(key)) by {
        if q.len() == 0 {
        } else if q[0] == k0 {
            assert(dir_at(dir2, q) == dir_at(sub2, q.skip(1)));
            assert(dir_at(dir, q) == dir_at(sub, q.skip(1)));
            assert(dir_at(sub2, q.skip(1)) is Some <==> dir_at(sub, q.skip(1)) is Some || (grown
                && q.skip(1) == rest.push(key)));
            if q.skip(1) == rest.push(key) {
                assert(q =~= path.push(key));
            }
            if q == path.push(key) {
                assert(q.skip(1) =~= rest.push(key));
            }
        } else {
            assert(path.push(key)[0] == k0);
            if dir.subs.contains_key(q[0]) {
                assert(dir2.subs[q[0]] == dir.subs[q[0]]);
            }
        }
    }
}

/// Where the tree of a tree of trees is untouched, it is as it was.
pub proof fn lemma_parent_tree_kept(st: Store, st1: Store, dir: Dir, k0: Key, sub2: Dir)
    requires
        dir_ok(st, dir),
        dir.subs.contains_key(k0),
        dir_step(st, st1, dir.subs[k0], sub2),
    ensures
        tree_ok(st1, dir.shape),
        forall|k: Key| #[trigger] get(st1, dir.shape, k) == get(st, dir.shape, k),
{
    let sub = dir.subs[k0];
    assert forall|p: int| #[trigger] owns(dir.shape, p) && st.has_page(p) implies st1.img(p)
        == st.img(p) && st1.has_page(p) by {
        if dir_owns(sub, p) {
            assert(!owns(dir.shape, p));
        }
    }
    lemma_frame(st, st1, dir.shape, -1, u128::MAX as int);
}

/// A tree of trees that has not changed has made a step, and nothing has
/// changed in it.
pub proof fn lemma_dir_step_refl(st: Store, dir: Dir, path: Seq<Key>, key: Key)
    requires
        dir_ok(st, dir),
        payload_in(st, dir, path, key) is Some,
    ensures
        dir_step(st, st, dir, dir),
        changed(st, st, dir, dir, path, key, inline_of(payload_in(st, dir, path, key)), false),
{
}

/// A tree of trees on a store on which a header has been written, or
/// which has changed in block 0 only, is as it was.
pub proof fn lemma_dir_header(st: Store, st2: Store, dir: Dir)
    requires
        st.inv(),
        dir_ok(st, dir),
        st2.bs == st.bs,
        st2.n >= st.n,
        st2.d.len() >= st.d.len(),
        forall|i: int| HEADER_LEN <= i < st.d.len() ==> #[trigger] st2.d[i] == st.d[i],
    ensures
        dir_ok(st2, dir),
        dir_kept(st, st2, dir),
{
    assert forall|p: int| #[trigger] dir_owns(dir, p) implies st2.img(p) == st.img(p)
        && st2.has_page(p) by {
        lemma_dir_pages(st, dir, p);
        lemma_off(st, 0, p);
        assert(st2.img(p) =~= st.img(p));
    }
    lemma_dir_frame(st, st2, dir);
}

/// A path with one more key leads to a tree where the path leads to one
/// in which the key names a child tree.
pub proof fn lemma_dir_at_push(dir: Dir, path: Seq<Key>, key: Key)
    ensures
        dir_at(dir, path.push(key)) == match dir_at(dir, path) {
            Some(d) => if d.subs.contains_key(key) {
                Some(d.subs[key])
            } else {
                None
            },
            None => None,
        },
    decreases path.len(),
{
    let longer = path.push(key);
    if path.len() == 0 {
        assert(longer[0] == key);
        assert(longer.skip(1) =~= Seq::<Key>::empty());
        if dir.subs.contains_key(key) {
            assert(dir_at(dir.subs[key], longer.skip(1)) == Some(dir.subs[key]));
        }
    } else {
        assert(longer[0] == path[0]);
        assert(longer.skip(1) =~= path.skip(1).push(key));
        if dir.subs.contains_key(path[0]) {
            lemma_dir_at_push(dir.subs[path[0]], path.skip(1), key);
        }
    }
}

/// What the database holds, told from the shape of its root tree: the
/// trees that its paths lead to and the inline values in them.
pub proof fn lemma_database_at<D: Disk>(db: &Database<D>, dir: Dir, path: Seq<Key>, key: Key)
    requires
        db.inv(),
        root_dir(store_of(db), db.meta.root_btree_offset, dir),
    ensures
        db.meta.root_btree_offset != 0,
        db.has_tree(path) == dir_at(dir, path) is Some,
        dir_at(dir, path) matches Some(d) ==> root_dir(store_of(db), db.tree_at(path), d),
        db.value_at(path, key) == inline_of(payload_in(store_of(db), dir, path, key)),
        db.keys_at(path).contains(key) == payload_in(store_of(db), dir, path, key) is Some,
{
    lemma_store_inv(db);
    lemma_root_in_range(store_of(db), dir);
    lemma_tree_at(store_of(db), dir, path, key);
}

/// A database without a root tree holds nothing.
pub proof fn lemma_database_empty<D: Disk>(db: &Database<D>, path: Seq<Key>, key: Key)
    requires
        db.meta.root_btree_offset == 0,
    ensures
        !db.has_tree(path),
        db.value_at(path, key) is None,
        !db.keys_at(path).contains(key),
{
    lemma_tree_at_none(store_of(db), path);
}

/// Where the payloads on the way are small, those of the first tree are.
pub proof fn lemma_small_here(st: Store, dir: Dir, path: Seq<Key>)
    requires
        small_along(st, dir, path),
    ensures
        small_under(st, dir.shape),
{
    assert(path.take(0) =~= Seq::<Key>::empty());
    assert(dir_at(dir, path.take(0)) == Some(dir));
}

/// Where the payloads on the way are small, those on the way from the
/// second tree on are.
pub proof fn lemma_small_below(st: Store, dir: Dir, path: Seq<Key>)
    requires
        small_along(st, dir, path),
        path.len() > 0,
        dir.subs.contains_key(path[0]),
    ensures
        small_along(st, dir.subs[path[0]], path.skip(1)),
{
    let sub = dir.subs[path[0]];
    let rest = path.skip(1);
    assert forall|i: int| 0 <= i <= rest.len() implies ((#[trigger] dir_at(
        sub,
        rest.take(i),
    )) matches Some(d) ==> small_under(st, d.shape)) by {
        let q = path.take(i + 1);
        assert(q[0] == path[0]);
        assert(q.skip(1) =~= rest.take(i));
        assert(dir_at(dir, q) == dir_at(sub, rest.take(i)));
    }
}

/// A payload with a small inline value is small, and so is one without,
/// where eight bytes are.
pub proof fn lemma_small_payload(p: Seq<u8>, bs: int)
    requires
        small(8, bs),
        inline_of(Some(p)) matches Some(v) ==> small(8 + v.len() as int, bs),
    ensures
        small(p.len() as int, bs),
        small(at_least_8(p).len() as int, bs),
{
    if p.len() <= 8 {
        lemma_small_less(p.len() as int, 8, bs);
    }
}

/// Where the inline values of the trees on the way are small in a
/// database, the payloads on the way are.
pub proof fn lemma_small_database<D: Disk>(db: &Database<D>, dir: Dir, path: Seq<Key>)
    requires
        db.inv(),
        root_dir(store_of(db), db.meta.root_btree_offset, dir),
        small(8, db.spec_block_size()),
        forall|i: int, k: Key|
            0 <= i <= path.len() ==> ((#[trigger] db.value_at(path.take(i), k)) matches Some(v)
                ==> small(8 + v.len() as int, db.spec_block_size())),
    ensures
        small_along(store_of(db), dir, path),
{
    let st = store_of(db);
    assert forall|i: int| 0 <= i <= path.len() implies ((#[trigger] dir_at(
        dir,
        path.take(i),
    )) matches Some(d) ==> small_under(st, d.shape)) by {
        let q = path.take(i);
        if dir_at(dir, q) is Some {
            let d = dir_at(dir, q).unwrap();
            assert forall|k: Key| #[trigger] get(st, d.shape, k) is Some implies small(
                get(st, d.shape, k).unwrap().len() as int,
                st.bs,
            ) by {
                lemma_database_at(db, dir, q, k);
                assert(payload_in(st, dir, q, k) == get(st, d.shape, k));
                let v = db.value_at(path.take(i), k);
                lemma_small_payload(get(st, d.shape, k).unwrap(), st.bs);
            }
        }
    }
}

/// Where a path with one more key leads to a tree, the path leads to one.
pub proof fn lemma_tree_at_prefix(st: Store, root: u64, path: Seq<Key>, key: Key)
    requires
        tree_at(st, root, path.push(key)) != 0,
    ensures
        tree_at(st, root, path) != 0,
    decreases path.len(),
{
    let longer = path.push(key);
    if path.len() > 0 {
        assert(longer[0] == path[0]);
        assert(longer.skip(1) =~= path.skip(1).push(key));
        lemma_tree_at_prefix(
            st,
            child_of(BTree { root }.value_in(st, path[0])),
            path.skip(1),
            key,
        );
    }
}

/// The root page of the tree at the end of a path is a page of the tree
/// of trees.
pub proof fn lemma_dir_at_owns(dir: Dir, path: Seq<Key>)
    requires
        dir_at(dir, path) is Some,
    ensures
        dir_owns(dir, tree_idx(dir_at(dir, path))),
    decreases path.len(),
{
    if path.len() == 0 {
        assert(owns(dir.shape, dir.shape.idx));
    } else {
        let sub = dir.subs[path[0]];
        lemma_dir_at_owns(sub, path.skip(1));
        assert(dir.subs.contains_key(path[0]) && dir_owns(
            dir.subs[path[0]],
            tree_idx(dir_at(dir, path)),
        ));
    }
}

/// Where a path leads to a tree, every beginning of it leads to one.
pub proof fn lemma_dir_at_take(dir: Dir, path: Seq<Key>, j: int)
    requires
        dir_at(dir, path) is Some,
        0 <= j <= path.len(),
    ensures
        dir_at(dir, path.take(j)) is Some,
    decreases path.len(),
{
    if j > 0 {
        let q = path.take(j);
        assert(q[0] == path[0]);
        assert(q.skip(1) =~= path.skip(1).take(j - 1));
        lemma_dir_at_take(dir.subs[path[0]], path.skip(1), j - 1);
    }
}

} // verus!
