//! Insertion: the value goes to the leaf where its key belongs, and pages
//! without room on the way are split.

use crate::database::Database;
use crate::database::lemma_end_bounds;
use crate::disk::Disk;
use crate::error::Error;
use crate::error::io_failure;
use crate::key::Key;
use crate::page::Page;
use crate::page::btree::BTree;
use crate::page::btree::header_kept;
use crate::page::btree::lemma_synced_kept;
use crate::page::btree::synced_kept;
use crate::page::btree::tree_step;
use crate::page::image;
use crate::page::insert_steps::internal_split_shape;
use crate::page::insert_steps::leaf_split_shape;
use crate::page::insert_steps::lemma_insert_done;
use crate::page::insert_steps::lemma_internal_split_done;
use crate::page::insert_steps::lemma_leaf_split_done;
use crate::page::insert_steps::lemma_leaf_step;
use crate::page::insert_steps::lemma_new_root;
use crate::page::insert_steps::lemma_new_root_level;
use crate::page::insert_steps::lemma_split_depth;
use crate::page::insert_steps::lemma_split_leaf_level;
use crate::page::insert_steps::lemma_split_level;
use crate::page::insert_steps::lemma_step_refl;
use crate::page::insert_steps::lemma_step_trans;
use crate::page::insert_steps::new_root_shape;
use crate::page::internal_page::InternalPage;
use crate::page::internal_spec::internal_keys;
use crate::page::internal_spec::internal_pointers;
use crate::page::internal_spec::is_internal;
use crate::page::internal_spec::is_route;
use crate::page::internal_spec::lemma_keys_insert_sorted;
use crate::page::internal_spec::lemma_route;
use crate::page::internal_spec::max_children;
use crate::page::internal_spec::route;
use crate::page::leaf_page::LeafPage;
use crate::page::leaf_spec::is_leaf;
use crate::page::leaf_spec::leaf_entries;
use crate::page::leaf_spec::upsert_fits;
use crate::page::room::accommodates;
use crate::page::room::child_accommodates;
use crate::page::room::halves_of;
use crate::page::room::has_room_on_way;
use crate::page::room::insert_fits;
use crate::page::room::lemma_accommodated_fits;
use crate::page::room::lemma_fits_child;
use crate::page::room::lemma_fits_half;
use crate::page::room::lemma_halves_fit;
use crate::page::room::lemma_small_leaf;
use crate::page::room::lemma_small_same;
use crate::page::room::lemma_split_owed;
use crate::page::room::lemma_way_half;
use crate::page::room::split_halves;
use crate::page::room::split_key;
use crate::page::room::split_refused;
use crate::page::shape::Node;
use crate::page::shape::Store;
use crate::page::shape::block_off;
use crate::page::shape::child_hi;
use crate::page::shape::child_lo;
use crate::page::shape::depth_ok;
use crate::page::shape::disjoint;
use crate::page::shape::get;
use crate::page::shape::in_range;
use crate::page::shape::keeps_level;
use crate::page::shape::lemma_depth_more;
use crate::page::shape::lemma_depth_of_tree;
use crate::page::shape::lemma_level_replace;
use crate::page::shape::lemma_level_trans;
use crate::page::shape::lemma_off;
use crate::page::shape::lemma_off_end;
use crate::page::shape::level;
use crate::page::shape::owns;
use crate::page::shape::repr;
use crate::page::shape::store_of;
use crate::page::split_steps::lemma_route_exists;
use crate::page::split_steps::lemma_route_insert;
use crate::page::steps::kept_outside_of;
use crate::page::steps::sets;
use crate::page::steps::step;
use vstd::prelude::*;

verus! {

/// What has to hold for a split of child `i` of `node` to keep the tree:
/// the database holds a well-formed tree of shape `shape` within the
/// bounds, `node` is its root page as the device has it, and the child, if
/// it is an internal page, is full.
pub open spec fn split_ready(
    st: Store,
    shape: Node,
    node: InternalPage,
    i: int,
    lo: int,
    hi: int,
) -> bool {
    &&& repr(st, shape)
    &&& disjoint(shape)
    &&& in_range(st, shape, lo, hi)
    &&& node.offset == st.off(shape.idx)
    &&& node.reads(st.d, st.bs)
    &&& 0 <= i < shape.children.len()
    &&& is_internal(st.img(shape.children[i].idx)) ==> internal_pointers(
        st.img(shape.children[i].idx),
    ).len() >= max_children(st.bs)
}

/// What a split of child `i` has made of a tree of shape `shape`: a tree
/// of shape `shape2` that holds what it held, with one more child, whose
/// root page `node` is as the device has it, as are the halves.
pub open spec fn split_done(
    st: Store,
    st2: Store,
    shape: Node,
    shape2: Node,
    i: int,
    lo: int,
    hi: int,
    node: InternalPage,
    left: Page,
    right: Page,
) -> bool {
    &&& step(st, st2, shape, shape2, lo, hi)
    &&& forall|k: Key| #[trigger] get(st2, shape2, k) == get(st, shape, k)
    &&& shape2.children.len() == shape.children.len() + 1
    &&& node.reads(st2.d, st.bs)
    &&& left.reads(st2.d, st2.off(shape2.children[i].idx), st.bs)
    &&& right.reads(st2.d, st2.off(shape2.children[i + 1].idx), st.bs)
    &&& forall|b: int| #[trigger] depth_ok(shape, b) ==> depth_ok(shape2, b)
    &&& keeps_level(shape, shape2)
    &&& st2.bs == st.bs
    &&& st2.n == st.n + 1
    &&& split_halves(st, shape, i, left, right)
}

/// What a split of child `i` of a page has made of the page and of the
/// child, which had the image `img`: the left half is where the child
/// was, the right half is the block that was allocated, at `end`; the page
/// has the offset of the right half behind that of the left, and between
/// them the key that the split has set apart.
pub open spec fn split_made(
    img: Seq<u8>,
    node: InternalPage,
    node2: InternalPage,
    i: int,
    left: Page,
    right: Page,
    end: int,
) -> bool {
    &&& left.spec_offset() == node.pointers@[i]
    &&& right.spec_offset() == end
    &&& node2.pointers@ == node.pointers@.insert(i + 1, end as u64)
    &&& node2.keys@ == node.keys@.insert(i, split_key(img))
    &&& halves_of(img, left, right)
}

/// What a split leaves as it was, whatever comes of it: the block size and
/// the root tree of the database, and `node` as a valid page.
pub open spec fn split_kept<D: Disk>(
    db: &Database<D>,
    db2: &Database<D>,
    node: InternalPage,
    node2: InternalPage,
) -> bool {
    &&& db2.inv()
    &&& db2.meta.block_size_exp == db.meta.block_size_exp
    &&& db2.meta.root_btree_offset == db.meta.root_btree_offset
    &&& db2.meta.num_blocks_allocated >= db.meta.num_blocks_allocated
    &&& node2.offset == node.offset
    &&& node2.wf(db.spec_block_size())
}

/// Nothing has changed.
pub open spec fn split_undone<D: Disk>(
    db: &Database<D>,
    db2: &Database<D>,
    node: InternalPage,
    node2: InternalPage,
) -> bool {
    &&& db2.disk@ == db.disk@
    &&& db2.meta == db.meta
    &&& node2.keys@ == node.keys@
    &&& node2.pointers@ == node.pointers@
}

/// What has to hold for an insert under `page` to keep the tree: the
/// database holds a well-formed tree of shape `shape` within the bounds,
/// `page` is its root page as the device has it, the tree is no deeper
/// than the budget, and the key lies within the bounds.
pub open spec fn insert_ready(
    st: Store,
    shape: Node,
    page: Page,
    lo: int,
    hi: int,
    budget: int,
    key: Key,
) -> bool {
    &&& repr(st, shape)
    &&& disjoint(shape)
    &&& in_range(st, shape, lo, hi)
    &&& page.reads(st.d, st.off(shape.idx), st.bs)
    &&& depth_ok(shape, budget)
    &&& lo < key <= hi
}

/// The root page of a tree, if it is a leaf, has two slots or more.
pub open spec fn root_splits(st: Store, shape: Node) -> bool {
    is_leaf(st.img(shape.idx)) ==> leaf_entries(st.img(shape.idx)).len() >= 2
}

/// The root page of a tree, if it is an internal page, is full.
pub open spec fn root_full(st: Store, shape: Node) -> bool {
    is_internal(st.img(shape.idx)) ==> internal_pointers(st.img(shape.idx)).len() >= max_children(
        st.bs,
    )
}

/// What an insert above a new root has made of the tree: the steps of the
/// new root, the split and the insert are one step of the old tree.
pub proof fn lemma_above_root(
    st: Store,
    st1: Store,
    st2: Store,
    st3: Store,
    shape: Node,
    shape2: Node,
    shape3: Node,
    lo: int,
    hi: int,
)
    requires
        st1.n == st.n + 1,
        st1.bs == st.bs,
        forall|p: int| #[trigger] st.has_page(p) ==> st1.img(p) == st.img(p) && st1.has_page(p),
        forall|p: int|
            #[trigger] owns(new_root_shape(shape, st.n), p) ==> owns(shape, p) || p == st.n,
        step(st1, st2, new_root_shape(shape, st.n), shape2, lo, hi),
        step(st2, st3, shape2, shape3, lo, hi),
    ensures
        kept_outside_of(st, st3, shape),
        forall|p: int| #[trigger] owns(shape3, p) ==> owns(shape, p) || st.n <= p < st3.n,
{
    let root1 = new_root_shape(shape, st.n);
    lemma_step_trans(st1, st2, st3, root1, shape2, shape3, lo, hi);
    assert forall|p: int| #[trigger] st.has_page(p) && !owns(shape, p) implies st3.img(p) == st.img(
        p,
    ) && st3.has_page(p) by {
        assert(st1.has_page(p));
        if owns(root1, p) {
            assert(owns(shape, p) || p == st.n);
        }
    }
    assert forall|p: int| #[trigger] owns(shape3, p) implies owns(shape, p) || st.n <= p
        < st3.n by {
        if owns(root1, p) {
            assert(owns(shape, p) || p == st.n);
        }
    }
}

impl BTree {
    /// Splits the leaf `left_sibling`, which is child `insert_idx` of
    /// `node`, and puts the largest key that stays on the left and the new
    /// leaf into `node`.
    fn split_leaf_child<D: Disk>(
        node: &mut InternalPage,
        insert_idx: usize,
        left_sibling: LeafPage,
        db: &mut Database<D>,
        Ghost(shape): Ghost<Node>,
        Ghost(lo): Ghost<int>,
        Ghost(hi): Ghost<int>,
    ) -> (r: (Result<(Page, Page), Error>, Ghost<Node>))
        requires
            old(db).inv(),
            old(node).wf(old(db).spec_block_size()),
            insert_idx < old(node).pointers@.len(),
            old(node).pointers@.len() < max_children(old(db).spec_block_size()),
            left_sibling.offset == old(node).pointers@[insert_idx as int],
            left_sibling.reads(old(db).disk@, old(db).spec_block_size()),
        ensures
            final(db).disk.reliable() == old(db).disk.reliable(),
            split_kept(old(db), final(db), *old(node), *final(node)),
            match r.0 {
                Ok((left, right)) => {
                    &&& left.usable(final(db))
                    &&& right.usable(final(db))
                    &&& split_made(
                        image(
                            old(db).disk@,
                            old(node).pointers@[insert_idx as int] as int,
                            old(db).spec_block_size(),
                        ),
                        *old(node),
                        *final(node),
                        insert_idx as int,
                        left,
                        right,
                        old(db).spec_end(),
                    )
                },
                Err(_) => true,
            },
            split_ready(store_of(old(db)), shape, *old(node), insert_idx as int, lo, hi)
                ==> match r.0 {
                Ok((left, right)) => split_done(
                    store_of(old(db)),
                    store_of(final(db)),
                    shape,
                    r.1@,
                    insert_idx as int,
                    lo,
                    hi,
                    *final(node),
                    left,
                    right,
                ) && synced_kept(old(db), final(db)),
                Err(Error::Capacity) => {
                    &&& split_undone(old(db), final(db), *old(node), *final(node))
                    &&& split_refused(store_of(old(db)), shape, insert_idx as int)
                },
                Err(e) => io_failure(&old(db).disk, e),
            },
    {
        let mut left_sibling = left_sibling;
        let page_size: u64 = db.block_size();
        let end: u64 = db.end();
        let ghost st = store_of(db);
        let ghost ready = split_ready(st, shape, *node, insert_idx as int, lo, hi);
        let ghost c = shape.children[insert_idx as int];
        let ghost keys = node.keys@;
        proof {
            lemma_end_bounds(db.meta);
            lemma_off_end(db);
            if ready {
                assert(repr(st, c));
                assert(!is_leaf(st.img(shape.idx)));
                lemma_off(st, 0, c.idx);
                lemma_off(st, c.idx, st.n);
                assert(in_range(
                    st,
                    c,
                    child_lo(keys, insert_idx as int, lo),
                    child_hi(keys, insert_idx as int, hi),
                ));
            }
        }
        if left_sibling.keys.len() < 2 {
            return (Err(Error::Capacity), Ghost(shape));
        }
        if left_sibling.offset < page_size || left_sibling.offset > end - page_size {
            return (Err(Error::InvariantViolation), Ghost(shape));
        }
        let ghost s = left_sibling.keys@;
        let ghost split = (s.len() + 1) / 2;
        let new_right_sibling = match left_sibling.split_in_half(db) {
            Ok(page) => page,
            Err(e) => {
                proof {
                    lemma_off(st, st.n, st.n + 1);
                }
                return (Err(e), Ghost(shape));
            },
        };
        let ghost st1 = store_of(db);
        let sep: Key = left_sibling.keys[left_sibling.keys.len() - 1].key;
        proof {
            if ready {
                assert(sep == s[split - 1].key);
                assert(s[split - 1].key < s[s.len() - 1].key);
            }
        }
        if !((insert_idx == 0 || node.keys[insert_idx - 1] < sep) && (insert_idx == node.keys.len()
            || sep < node.keys[insert_idx])) {
            return (Err(Error::InvariantViolation), Ghost(shape));
        }
        proof {
            lemma_keys_insert_sorted(node.keys@, insert_idx as int, sep);
        }
        let ghost db1 = *db;
        match node.safe_insert(insert_idx, sep, new_right_sibling.offset, db) {
            Ok(()) => {},
            Err(e) => {
                return (Err(e), Ghost(shape));
            },
        }
        proof {
            if ready {
                lemma_off(st, 0, shape.idx);
                lemma_synced_kept(&db1, db, node.offset as int, node.offset + st.bs);
            }
        }
        let ghost shape2 = leaf_split_shape(shape, insert_idx as int, st.n);
        proof {
            let st2 = store_of(db);
            if ready {
                lemma_leaf_split_done(
                    st,
                    st1,
                    st2,
                    shape,
                    insert_idx as int,
                    s,
                    split as int,
                    new_right_sibling.keys@,
                    sep,
                    new_right_sibling.offset,
                    lo,
                    hi,
                );
                assert forall|b: int| #[trigger] depth_ok(shape, b) implies depth_ok(shape2, b) by {
                    lemma_split_depth(shape, insert_idx as int, 0, st.n, b);
                }
                lemma_split_leaf_level(shape, insert_idx as int, st.n);
            }
        }
        (Ok((Page::Leaf(left_sibling), Page::Leaf(new_right_sibling))), Ghost(shape2))
    }

    /// Splits the internal page `left_sibling`, which is child
    /// `insert_idx` of `node`, and puts the key that leaves it and the new
    /// page into `node`.
    fn split_internal_child<D: Disk>(
        node: &mut InternalPage,
        insert_idx: usize,
        left_sibling: InternalPage,
        db: &mut Database<D>,
        Ghost(shape): Ghost<Node>,
        Ghost(lo): Ghost<int>,
        Ghost(hi): Ghost<int>,
    ) -> (r: (Result<(Page, Page), Error>, Ghost<Node>))
        requires
            old(db).inv(),
            old(node).wf(old(db).spec_block_size()),
            insert_idx < old(node).pointers@.len(),
            old(node).pointers@.len() < max_children(old(db).spec_block_size()),
            left_sibling.offset == old(node).pointers@[insert_idx as int],
            left_sibling.reads(old(db).disk@, old(db).spec_block_size()),
        ensures
            final(db).disk.reliable() == old(db).disk.reliable(),
            split_kept(old(db), final(db), *old(node), *final(node)),
            match r.0 {
                Ok((left, right)) => {
                    &&& left.usable(final(db))
                    &&& right.usable(final(db))
                    &&& split_made(
                        image(
                            old(db).disk@,
                            old(node).pointers@[insert_idx as int] as int,
                            old(db).spec_block_size(),
                        ),
                        *old(node),
                        *final(node),
                        insert_idx as int,
                        left,
                        right,
                        old(db).spec_end(),
                    )
                },
                Err(_) => true,
            },
            split_ready(store_of(old(db)), shape, *old(node), insert_idx as int, lo, hi)
                ==> match r.0 {
                Ok((left, right)) => split_done(
                    store_of(old(db)),
                    store_of(final(db)),
                    shape,
                    r.1@,
                    insert_idx as int,
                    lo,
                    hi,
                    *final(node),
                    left,
                    right,
                ) && synced_kept(old(db), final(db)),
                Err(Error::Capacity) => {
                    &&& split_undone(old(db), final(db), *old(node), *final(node))
                    &&& split_refused(store_of(old(db)), shape, insert_idx as int)
                },
                Err(e) => io_failure(&old(db).disk, e),
            },
    {
        let mut left_sibling = left_sibling;
        let page_size: u64 = db.block_size();
        let end: u64 = db.end();
        let ghost st = store_of(db);
        let ghost ready = split_ready(st, shape, *node, insert_idx as int, lo, hi);
        let ghost c = shape.children[insert_idx as int];
        let ghost keys = node.keys@;
        proof {
            lemma_end_bounds(db.meta);
            lemma_off_end(db);
            if ready {
                assert(repr(st, c));
                assert(!is_leaf(st.img(shape.idx)));
                lemma_off(st, 0, c.idx);
                lemma_off(st, c.idx, st.n);
                assert(in_range(
                    st,
                    c,
                    child_lo(keys, insert_idx as int, lo),
                    child_hi(keys, insert_idx as int, hi),
                ));
            }
        }
        if left_sibling.keys.len() < 2 {
            return (Err(Error::InvariantViolation), Ghost(shape));
        }
        if left_sibling.offset < page_size || left_sibling.offset > end - page_size {
            return (Err(Error::InvariantViolation), Ghost(shape));
        }
        let ghost ck = left_sibling.keys@;
        let ghost cp = left_sibling.pointers@;
        let ghost m = ck.len() as int / 2;
        let (new_right_sibling, sep) = match left_sibling.split_in_half(db) {
            Ok(halves) => halves,
            Err(e) => {
                proof {
                    lemma_off(st, st.n, st.n + 1);
                }
                return (Err(e), Ghost(shape));
            },
        };
        let ghost st1 = store_of(db);
        proof {
            if ready {
                assert(ck[m - 1] < ck[ck.len() - 1]);
            }
        }
        if !((insert_idx == 0 || node.keys[insert_idx - 1] < sep) && (insert_idx == node.keys.len()
            || sep < node.keys[insert_idx])) {
            return (Err(Error::InvariantViolation), Ghost(shape));
        }
        proof {
            lemma_keys_insert_sorted(node.keys@, insert_idx as int, sep);
        }
        let ghost db1 = *db;
        match node.safe_insert(insert_idx, sep, new_right_sibling.offset, db) {
            Ok(()) => {},
            Err(e) => {
                return (Err(e), Ghost(shape));
            },
        }
        proof {
            if ready {
                lemma_off(st, 0, shape.idx);
                lemma_synced_kept(&db1, db, node.offset as int, node.offset + st.bs);
            }
        }
        let ghost shape2 = internal_split_shape(shape, insert_idx as int, m, st.n);
        proof {
            let st2 = store_of(db);
            if ready {
                lemma_internal_split_done(
                    st,
                    st1,
                    st2,
                    shape,
                    insert_idx as int,
                    ck,
                    cp,
                    m,
                    sep,
                    new_right_sibling.offset,
                    lo,
                    hi,
                );
                assert forall|b: int| #[trigger] depth_ok(shape, b) implies depth_ok(shape2, b) by {
                    lemma_split_depth(shape, insert_idx as int, m, st.n, b);
                }
                lemma_split_level(shape, insert_idx as int, m, st.n);
            }
        }
        (Ok((Page::Internal(left_sibling), Page::Internal(new_right_sibling))), Ghost(shape2))
    }

    /// Splits child `insert_idx` of `node` in half and puts the separator
    /// and the new right sibling into `node`: for a leaf the separator is
    /// the largest key that stays on the left, for an internal page the
    /// key that leaves it. Returns the two halves. A leaf with fewer than
    /// two slots cannot be split: that is a capacity error, as is a full
    /// device, and nothing is changed.
    fn btree_split_child<D: Disk>(
        &self,
        node: &mut InternalPage,
        insert_idx: usize,
        db: &mut Database<D>,
        Ghost(shape): Ghost<Node>,
        Ghost(lo): Ghost<int>,
        Ghost(hi): Ghost<int>,
    ) -> (r: (Result<(Page, Page), Error>, Ghost<Node>))
        requires
            old(db).inv(),
            old(node).wf(old(db).spec_block_size()),
            insert_idx < old(node).pointers@.len(),
            old(node).pointers@.len() < max_children(old(db).spec_block_size()),
        ensures
            final(db).disk.reliable() == old(db).disk.reliable(),
            split_kept(old(db), final(db), *old(node), *final(node)),
            match r.0 {
                Ok((left, right)) => {
                    &&& left.usable(final(db))
                    &&& right.usable(final(db))
                    &&& split_made(
                        image(
                            old(db).disk@,
                            old(node).pointers@[insert_idx as int] as int,
                            old(db).spec_block_size(),
                        ),
                        *old(node),
                        *final(node),
                        insert_idx as int,
                        left,
                        right,
                        old(db).spec_end(),
                    )
                },
                Err(_) => true,
            },
            split_ready(store_of(old(db)), shape, *old(node), insert_idx as int, lo, hi)
                ==> match r.0 {
                Ok((left, right)) => split_done(
                    store_of(old(db)),
                    store_of(final(db)),
                    shape,
                    r.1@,
                    insert_idx as int,
                    lo,
                    hi,
                    *final(node),
                    left,
                    right,
                ) && synced_kept(old(db), final(db)),
                Err(Error::Capacity) => {
                    &&& split_undone(old(db), final(db), *old(node), *final(node))
                    &&& split_refused(store_of(old(db)), shape, insert_idx as int)
                },
                Err(e) => io_failure(&old(db).disk, e),
            },
    {
        let ghost st = store_of(db);
        proof {
            lemma_end_bounds(db.meta);
            lemma_off_end(db);
            if split_ready(st, shape, *node, insert_idx as int, lo, hi) {
                let c = shape.children[insert_idx as int];
                assert(repr(st, c));
                assert(!is_leaf(st.img(shape.idx)));
                lemma_off(st, c.idx, st.n);
            }
        }
        let left_sibling = match Page::load(node.pointer(insert_idx), db) {
            Ok(page) => page,
            Err(e) => {
                return (Err(e), Ghost(shape));
            },
        };
        match left_sibling {
            Page::Leaf(left_sibling) => Self::split_leaf_child(
                node,
                insert_idx,
                left_sibling,
                db,
                Ghost(shape),
                Ghost(lo),
                Ghost(hi),
            ),
            Page::Internal(left_sibling) => Self::split_internal_child(
                node,
                insert_idx,
                left_sibling,
                db,
                Ghost(shape),
                Ghost(lo),
                Ghost(hi),
            ),
        }
    }

    /// Gives `key` the value `data` in the leaf `page`.
    fn insert_into_leaf<D: Disk>(
        page: LeafPage,
        key: Key,
        data: &[u8],
        db: &mut Database<D>,
        Ghost(shape): Ghost<Node>,
        Ghost(lo): Ghost<int>,
        Ghost(hi): Ghost<int>,
    ) -> (r: Result<(), Error>)
        requires
            old(db).inv(),
            page.fits(old(db)),
        ensures
            final(db).disk.reliable() == old(db).disk.reliable(),
            header_kept(old(db), final(db)),
            final(db).meta == old(db).meta,
            upsert_fits(page.keys@, key, data@.len() as int, old(db).spec_block_size()) ==> !(
            r matches Err(Error::Capacity)),
            insert_ready(store_of(old(db)), shape, Page::Leaf(page), lo, hi, 0, key) ==> match r {
                Ok(()) => {
                    &&& step(store_of(old(db)), store_of(final(db)), shape, shape, lo, hi)
                    &&& sets(
                        store_of(old(db)),
                        store_of(final(db)),
                        shape,
                        shape,
                        key,
                        Some(data@),
                    )
                    &&& synced_kept(old(db), final(db))
                },
                Err(Error::Capacity) => {
                    &&& step(store_of(old(db)), store_of(final(db)), shape, shape, lo, hi)
                    &&& sets(
                        store_of(old(db)),
                        store_of(final(db)),
                        shape,
                        shape,
                        key,
                        get(store_of(old(db)), shape, key),
                    )
                    &&& synced_kept(old(db), final(db))
                },
                Err(e) => io_failure(&old(db).disk, e),
            },
    {
        let mut page = page;
        let ghost st = store_of(db);
        let ghost ready = insert_ready(st, shape, Page::Leaf(page), lo, hi, 0, key);
        proof {
            lemma_end_bounds(db.meta);
        }
        let ghost db0 = *db;
        let r = page.upsert_value(key, data, db);
        proof {
            let st2 = store_of(db);
            if ready {
                match r {
                    Ok(()) => {
                        lemma_leaf_step(st, st2, shape, lo, hi, key, Some(data@));
                        lemma_off(st, 0, shape.idx);
                        lemma_synced_kept(&db0, db, page.offset as int, page.offset + st.bs);
                    },
                    Err(Error::Capacity) => {
                        assert(st2 == st);
                        lemma_step_refl(st, shape, lo, hi);
                    },
                    Err(_) => {},
                }
            }
        }
        r
    }

    /// Gives `key` the value `data` under `page`, which has room: a leaf
    /// takes the value; an internal page hands it to the child where the
    /// key belongs, which is split first if it has no room.
    fn btree_insert_nonfull<D: Disk>(
        &self,
        page: Page,
        key: Key,
        data: &[u8],
        db: &mut Database<D>,
        budget: u64,
        Ghost(shape): Ghost<Node>,
        Ghost(lo): Ghost<int>,
        Ghost(hi): Ghost<int>,
    ) -> (r: (Result<(), Error>, Ghost<Node>))
        requires
            old(db).inv(),
            page.usable(old(db)),
        ensures
            final(db).disk.reliable() == old(db).disk.reliable(),
            header_kept(old(db), final(db)),
            insert_ready(store_of(old(db)), shape, page, lo, hi, budget as int, key)
                ==> match r.0 {
                Ok(()) => {
                    &&& step(store_of(old(db)), store_of(final(db)), shape, r.1@, lo, hi)
                    &&& sets(
                        store_of(old(db)),
                        store_of(final(db)),
                        shape,
                        r.1@,
                        key,
                        Some(data@),
                    )
                    &&& synced_kept(old(db), final(db))
                    &&& keeps_level(shape, r.1@)
                    &&& store_of(final(db)).n <= store_of(old(db)).n + budget
                    &&& is_leaf(store_of(old(db)).img(shape.idx)) ==> r.1@ == shape
                },
                Err(Error::Capacity) => {
                    &&& step(store_of(old(db)), store_of(final(db)), shape, r.1@, lo, hi)
                    &&& sets(
                        store_of(old(db)),
                        store_of(final(db)),
                        shape,
                        r.1@,
                        key,
                        get(store_of(old(db)), shape, key),
                    )
                    &&& synced_kept(old(db), final(db))
                    &&& keeps_level(shape, r.1@)
                    &&& is_leaf(store_of(old(db)).img(shape.idx)) ==> r.1@ == shape
                },
                Err(e) => io_failure(&old(db).disk, e),
            },
            insert_ready(store_of(old(db)), shape, page, lo, hi, budget as int, key) && (
            insert_fits(store_of(old(db)), shape, key, data@.len() as int, budget as int)
                || has_room_on_way(store_of(old(db)), shape, key, data@.len() as int)) ==> !(
            r.0 matches Err(Error::Capacity)),
        decreases budget,
    {
        let ghost st = store_of(db);
        let ghost ready = insert_ready(st, shape, page, lo, hi, budget as int, key);
        let ghost len = data@.len() as int;
        let ghost owed = ready && insert_fits(
            st,
            shape,
            key,
            len,
            budget as int,
        );
        let ghost way = ready && has_room_on_way(st, shape, key, len);
        match page {
            Page::Leaf(page) => {
                let r = Self::insert_into_leaf(
                    page,
                    key,
                    data,
                    db,
                    Ghost(shape),
                    Ghost(lo),
                    Ghost(hi),
                );
                (r, Ghost(shape))
            },
            Page::Internal(mut page) => {
                if budget == 0 {
                    return (Err(Error::InvariantViolation), Ghost(shape));
                }
                let page_size: u64 = db.block_size();
                let i: usize = page.find_child(key);
                let ghost keys = page.keys@;
                proof {
                    lemma_end_bounds(db.meta);
                    lemma_off_end(db);
                    if ready {
                        let c = shape.children[i as int];
                        assert(repr(st, c));
                        lemma_off(st, c.idx, st.n);
                    }
                }
                let child = match Page::load(page.pointer(i), db) {
                    Ok(child) => child,
                    Err(e) => {
                        return (Err(e), Ghost(shape));
                    },
                };
                let ghost mut st1 = st;
                let ghost mut shape1 = shape;
                let mut idx: usize = i;
                let child = if child.can_accommodate(data.len() as u64, page_size) {
                    proof {
                        if ready {
                            lemma_step_refl(st, shape, lo, hi);
                        }
                        if owed {
                            lemma_fits_child(st, shape, i as int, key, len, budget as int, lo, hi);
                        }
                    }
                    child
                } else {
                    proof {
                        if owed {
                            lemma_split_owed(st, shape, i as int, key, len, budget as int, lo, hi);
                        }
                        if way {
                            assert(!child_accommodates(st, shape, i as int, len));
                            assert(!split_refused(st, shape, i as int));
                            assert(st.has_page(shape.children[i as int].idx));
                        }
                    }
                    let (halves, split_shape) = self.btree_split_child(
                        &mut page,
                        i,
                        db,
                        Ghost(shape),
                        Ghost(lo),
                        Ghost(hi),
                    );
                    let (left_child, right_child) = match halves {
                        Ok(halves) => halves,
                        Err(e) => {
                            proof {
                                if ready {
                                    lemma_step_refl(st, shape, lo, hi);
                                }
                            }
                            return (Err(e), Ghost(shape));
                        },
                    };
                    proof {
                        st1 = store_of(db);
                        shape1 = split_shape@;
                        if ready {
                            lemma_route_insert(keys, i as int, page.keys@[i as int], key);
                        }
                        if way {
                            let j = if key > page.keys@[i as int] {
                                i + 1
                            } else {
                                i as int
                            };
                            lemma_way_half(
                                st,
                                st1,
                                shape,
                                shape1,
                                i as int,
                                j,
                                left_child,
                                right_child,
                                key,
                                len,
                                page.keys@[i as int],
                            );
                        }
                        if owed {
                            let j = if key > page.keys@[i as int] {
                                i + 1
                            } else {
                                i as int
                            };
                            lemma_fits_half(
                                st,
                                st1,
                                shape,
                                shape1,
                                i as int,
                                j,
                                left_child,
                                right_child,
                                key,
                                len,
                                budget as int,
                                lo,
                                hi,
                            );
                        }
                    }
                    if key > page.key(i) {
                        idx = i + 1;
                        right_child
                    } else {
                        left_child
                    }
                };
                let ghost keys1 = page.keys@;
                let ghost clo = child_lo(keys1, idx as int, lo);
                let ghost chi = child_hi(keys1, idx as int, hi);
                proof {
                    if ready {
                        assert(!is_leaf(st1.img(shape1.idx)));
                        assert(keys1 == internal_keys(st1.img(shape1.idx)));
                        assert(idx as int == route(keys1, key));
                        lemma_route_exists(keys1, key);
                        assert(repr(st1, shape1.children[idx as int]));
                        assert(in_range(st1, shape1.children[idx as int], clo, chi));
                        assert(depth_ok(shape1.children[idx as int], budget - 1));
                    }
                }
                let (r, child_shape) = self.btree_insert_nonfull(
                    child,
                    key,
                    data,
                    db,
                    budget - 1,
                    Ghost(shape1.children[idx as int]),
                    Ghost(clo),
                    Ghost(chi),
                );
                let ghost shape2 = Node {
                    idx: shape1.idx,
                    children: shape1.children.update(idx as int, child_shape@),
                };
                proof {
                    let st2 = store_of(db);
                    if ready && (r is Ok || r == Err::<(), Error>(Error::Capacity)) {
                        lemma_level_replace(shape1, idx as int, child_shape@);
                        lemma_level_trans(shape, shape1, shape2);
                    }
                    if ready {
                        match r {
                            Ok(()) => {
                                lemma_insert_done(
                                    st,
                                    st1,
                                    st2,
                                    shape,
                                    shape1,
                                    idx as int,
                                    child_shape@,
                                    lo,
                                    hi,
                                    key,
                                    Some(data@),
                                );
                            },
                            Err(Error::Capacity) => {
                                lemma_insert_done(
                                    st,
                                    st1,
                                    st2,
                                    shape,
                                    shape1,
                                    idx as int,
                                    child_shape@,
                                    lo,
                                    hi,
                                    key,
                                    get(st1, shape1.children[idx as int], key),
                                );
                            },
                            Err(_) => {},
                        }
                    }
                }
                (r, Ghost(shape2))
            },
        }
    }

    /// Gives `key` the value `data` in a tree whose root has no room: a
    /// new internal page becomes the root, with the old root as its one
    /// child, which is split.
    fn insert_above_root<D: Disk>(&mut self, key: Key, data: &[u8], db: &mut Database<D>) -> (r:
        Result<(), Error>)
        requires
            old(db).inv(),
        ensures
            final(db).disk.reliable() == old(db).disk.reliable(),
            header_kept(old(db), final(db)),
            old(self).wf(old(db)) && root_full(store_of(old(db)), old(self).shape(old(db)))
                ==> match r {
                Ok(()) => {
                    &&& tree_step(*old(self), old(db), *final(self), final(db))
                    &&& final(self).contents(final(db)) == old(self).contents(old(db)).insert(
                        key,
                        data@,
                    )
                    &&& synced_kept(old(db), final(db))
                    &&& old(self).balanced(old(db)) ==> final(self).balanced(final(db))
                    &&& old(db).grown_by(final(db), 1)
                },
                Err(Error::Capacity) => {
                    &&& tree_step(*old(self), old(db), *final(self), final(db))
                    &&& final(self).contents(final(db)) == old(self).contents(old(db))
                    &&& synced_kept(old(db), final(db))
                    &&& old(self).balanced(old(db)) ==> final(self).balanced(final(db))
                },
                Err(e) => io_failure(&old(db).disk, e),
            },
            old(self).wf(old(db)) && root_full(store_of(old(db)), old(self).shape(old(db)))
                && root_splits(store_of(old(db)), old(self).shape(old(db))) && old(self).takes(
                old(db),
                data@.len() as int,
            ) ==> !(r matches Err(Error::Capacity)),
            old(self).wf(old(db)) && root_full(store_of(old(db)), old(self).shape(old(db)))
                && !old(self).root_has_room(old(db), data@.len() as int) && old(self).has_room(
                old(db),
                key,
                data@.len() as int,
            ) ==> !(r matches Err(Error::Capacity)),
            r is Ok ==> final(self).root == old(db).spec_end(),
            r matches Err(Error::Capacity) ==> final(self).root == if final(db).meta
                .num_blocks_allocated == old(db).meta.num_blocks_allocated {
                old(self).root
            } else {
                old(db).spec_end() as u64
            },
    {
        let ghost st = store_of(db);
        let ghost shape = self.shape(db);
        let ghost ready = self.wf(db) && root_full(st, shape);
        let ghost len = data@.len() as int;
        let ghost owed = ready && root_splits(st, shape) && self.takes(
            db,
            len,
        );
        let ghost way = ready && !self.root_has_room(db, len) && self.has_room(db, key, len);
        proof {
            if way {
                lemma_off(st, 0, shape.idx);
                lemma_off(st, st.n, st.n + 1);
                lemma_off(st, st.n + 1, st.n + 2);
                assert(st.img(shape.idx) == image(db.disk@, self.root as int, db.spec_block_size()));
            }
        }
        proof {
            if owed {
                self.lemma_takes(db, len);
                lemma_off(st, st.n, st.n + 1);
                lemma_off(st, st.n + 1, 2 * st.n + 4);
                lemma_off(st, st.n + 2, 2 * st.n + 4);
            }
        }
        let ghost lo = -1int;
        let ghost hi = u128::MAX as int;
        let ghost tree0 = *self;
        let ghost db0 = *db;
        proof {
            lemma_end_bounds(db.meta);
            lemma_off_end(db);
        }
        let mut page = match InternalPage::init(db, self.root) {
            Ok(page) => page,
            Err(e) => {
                proof {
                    if ready && e == Error::Capacity {
                        lemma_step_refl(st, shape, lo, hi);
                        tree0.lemma_tree_step(
                            &db0,
                            *self,
                            db,
                            shape,
                            shape,
                            key,
                            get(st, shape, key),
                        );
                    }
                }
                return Err(e);
            },
        };
        self.root = page.offset();
        let ghost st1 = store_of(db);
        let ghost root1 = new_root_shape(shape, st.n);
        proof {
            lemma_end_bounds(db.meta);
            if ready {
                lemma_new_root(st, st1, shape, tree0.root, lo, hi);
            }
        }
        let (halves, split_shape) = self.btree_split_child(
            &mut page,
            0,
            db,
            Ghost(root1),
            Ghost(lo),
            Ghost(hi),
        );
        let ghost halves0 = halves;
        match halves {
            Ok(_) => {},
            Err(e) => {
                proof {
                    if way {
                        assert(st1.img(shape.idx) == st.img(shape.idx));
                        assert(root1.children[0] == shape);
                        assert(!split_refused(st1, root1, 0));
                    }
                    if ready && e == Error::Capacity {
                        tree0.lemma_tree_step(
                            &db0,
                            *self,
                            db,
                            shape,
                            root1,
                            key,
                            get(st, shape, key),
                        );
                        if tree0.balanced(&db0) {
                            let h = choose|h: int| level(shape, h);
                            lemma_new_root_level(shape, st.n, h);
                        }
                    }
                }
                return Err(e);
            },
        }
        let ghost st2 = store_of(db);
        let ghost shape2 = split_shape@;
        proof {
            lemma_end_bounds(db.meta);
            if ready {
                lemma_depth_of_tree(st2, shape2);
                lemma_depth_more(shape2, st2.n - 2, st2.n);
            }
            if way {
                match halves0 {
                    Ok((left, right)) => {
                        let sep = page.keys@[0];
                        let j = if key > sep {
                            1int
                        } else {
                            0int
                        };
                        assert(st1.img(shape.idx) == st.img(shape.idx));
                        assert(root1.children[0] == shape);
                        assert(st.has_page(shape.idx));
                        lemma_way_half(st1, st2, root1, shape2, 0, j, left, right, key, len, sep);
                        let keys2 = internal_keys(st2.img(shape2.idx));
                        assert(keys2 == page.keys@);
                        assert(keys2.len() == 1);
                        assert(is_route(keys2, key, j));
                        lemma_route(keys2, key, j);
                        assert(has_room_on_way(st2, shape2, key, len));
                    },
                    Err(_) => {},
                }
            }
            if owed {
                lemma_small_same(st, shape, st1, root1);
                lemma_small_same(st1, root1, st2, shape2);
                assert(st2.off(st2.n + st2.n) == st.off(2 * st.n + 4)) by {
                    reveal(block_off);
                }
            }
        }
        let budget: u64 = db.meta.num_blocks_allocated;
        let (r, last_shape) = self.btree_insert_nonfull(
            Page::Internal(page),
            key,
            data,
            db,
            budget,
            Ghost(shape2),
            Ghost(lo),
            Ghost(hi),
        );
        proof {
            let st3 = store_of(db);
            let shape3 = last_shape@;
            if ready && tree0.balanced(&db0) && (r is Ok || r == Err::<(), Error>(Error::Capacity)) {
                let h = choose|h: int| level(shape, h);
                lemma_new_root_level(shape, st.n, h);
                assert(level(shape2, h + 1));
                assert(level(shape3, h + 1));
            }
            if ready {
                match r {
                    Ok(()) => {
                        db0.lemma_grown_once(db);
                        lemma_above_root(st, st1, st2, st3, shape, shape2, shape3, lo, hi);
                        tree0.lemma_tree_step(&db0, *self, db, shape, shape3, key, Some(data@));
                    },
                    Err(Error::Capacity) => {
                        lemma_above_root(st, st1, st2, st3, shape, shape2, shape3, lo, hi);
                        tree0.lemma_tree_step(
                            &db0,
                            *self,
                            db,
                            shape,
                            shape3,
                            key,
                            get(st, shape, key),
                        );
                    },
                    Err(_) => {},
                }
            }
        }
        r
    }

    /// Gives `key` the value `data`, in place of the one it has, if any.
    /// A value for which no leaf has room, also after a split, is a
    /// capacity error, as is a full device: the tree then holds what it
    /// held. A tree that has room for the value on the way to its leaf, or
    /// is sure to take it, gives no capacity error, and takes the value on
    /// a reliable device. The leaves of a tree that are at one depth stay at one
    /// depth. Where the root page has no room, the tree gets a new root,
    /// the block that is allocated first.
    pub fn insert<D: Disk>(&mut self, key: Key, data: &[u8], db: &mut Database<D>) -> (r: Result<
        (),
        Error,
    >)
        requires
            old(db).inv(),
        ensures
            final(db).disk.reliable() == old(db).disk.reliable(),
            header_kept(old(db), final(db)),
            old(self).wf(old(db)) ==> match r {
                Ok(()) => {
                    &&& tree_step(*old(self), old(db), *final(self), final(db))
                    &&& final(self).contents(final(db)) == old(self).contents(old(db)).insert(
                        key,
                        data@,
                    )
                    &&& synced_kept(old(db), final(db))
                    &&& old(self).balanced(old(db)) ==> final(self).balanced(final(db))
                    &&& old(db).grown_by(final(db), 1)
                    &&& old(self).leaf_root(old(db)) && final(self).root == old(self).root
                        ==> final(self).leaf_root(final(db))
                },
                Err(Error::Capacity) => {
                    &&& tree_step(*old(self), old(db), *final(self), final(db))
                    &&& final(self).contents(final(db)) == old(self).contents(old(db))
                    &&& synced_kept(old(db), final(db))
                    &&& old(self).balanced(old(db)) ==> final(self).balanced(final(db))
                },
                Err(e) => io_failure(&old(db).disk, e),
            },
            old(self).wf(old(db)) && old(db).disk.reliable() && old(self).takes(
                old(db),
                data@.len() as int,
            ) ==> r is Ok,
            old(self).wf(old(db)) && old(db).disk.reliable() && old(self).has_room(
                old(db),
                key,
                data@.len() as int,
            ) ==> r is Ok,
            old(self).wf(old(db)) && (r matches Err(Error::Capacity)) ==> !old(self).has_room(
                old(db),
                key,
                data@.len() as int,
            ) && !old(self).takes(old(db), data@.len() as int),
            r is Ok ==> final(self).root == if old(self).root_has_room(
                old(db),
                data@.len() as int,
            ) {
                old(self).root
            } else {
                old(db).spec_end() as u64
            },
            r matches Err(Error::Capacity) ==> final(self).root == if old(self).root_has_room(
                old(db),
                data@.len() as int,
            ) || final(db).meta.num_blocks_allocated == old(db).meta.num_blocks_allocated {
                old(self).root
            } else {
                old(db).spec_end() as u64
            },
    {
        let ghost st = store_of(db);
        let ghost shape = self.shape(db);
        let ghost ready = self.wf(db);
        let ghost len = data@.len() as int;
        let ghost owed = ready && self.takes(db, len);
        proof {
            if owed {
                self.lemma_takes(db, len);
                lemma_off(st, st.n + st.n, 2 * st.n + 4);
            }
        }
        let ghost lo = -1int;
        let ghost hi = u128::MAX as int;
        let ghost tree0 = *self;
        let ghost db0 = *db;
        proof {
            lemma_end_bounds(db.meta);
            lemma_off_end(db);
            if ready {
                lemma_depth_of_tree(st, shape);
                lemma_depth_more(shape, st.n - 2, st.n);
                lemma_off(st, shape.idx, st.n);
            }
        }
        let root = match Page::load(self.root, db) {
            Ok(root) => root,
            Err(e) => {
                return Err(e);
            },
        };
        let page_size: u64 = db.block_size();
        proof {
            if owed && is_leaf(st.img(shape.idx)) {
                let s = leaf_entries(st.img(shape.idx));
                lemma_small_leaf(st, shape);
                if accommodates(s, len, st.bs) {
                    lemma_accommodated_fits(s, key, len, st.bs);
                } else {
                    lemma_halves_fit(s, key, len, st.bs);
                }
            }
        }
        if root.can_accommodate(data.len() as u64, page_size) {
            let budget: u64 = db.meta.num_blocks_allocated;
            let (r, last_shape) = self.btree_insert_nonfull(
                root,
                key,
                data,
                db,
                budget,
                Ghost(shape),
                Ghost(lo),
                Ghost(hi),
            );
            proof {
                if ready && tree0.balanced(&db0) && (r is Ok || r == Err::<(), Error>(
                    Error::Capacity,
                )) {
                    let h = choose|h: int| level(shape, h);
                    assert(level(last_shape@, h));
                }
                if ready {
                    match r {
                        Ok(()) => {
                            db0.lemma_grown_once(db);
                            tree0.lemma_tree_step(
                                &db0,
                                *self,
                                db,
                                shape,
                                last_shape@,
                                key,
                                Some(data@),
                            );
                        },
                        Err(Error::Capacity) => {
                            tree0.lemma_tree_step(
                                &db0,
                                *self,
                                db,
                                shape,
                                last_shape@,
                                key,
                                get(st, shape, key),
                            );
                        },
                        Err(_) => {},
                    }
                }
            }
            r
        } else {
            let splits: bool = match &root {
                Page::Leaf(leaf) => leaf.keys.len() >= 2,
                Page::Internal(_) => true,
            };
            if !splits {
                // a leaf with one slot is not split: nothing is allocated for
                // a new root that would be of no use
                proof {
                    if ready {
                        lemma_step_refl(st, shape, lo, hi);
                        tree0.lemma_tree_step(
                            &db0,
                            *self,
                            db,
                            shape,
                            shape,
                            key,
                            get(st, shape, key),
                        );
                    }
                }
                return Err(Error::Capacity);
            }
            self.insert_above_root(key, data, db)
        }
    }
}

} // verus!
