//! Deletion: the slot leaves its leaf, an empty leaf leaves its parent, and
//! an internal page without keys gives way to its one child.

use crate::database::Database;
use crate::database::lemma_end_bounds;
use crate::disk::Disk;
use crate::error::Error;
use crate::error::io_failure;
use crate::key::Key;
use crate::page::Page;
use crate::page::btree::BTree;
use crate::page::btree::lemma_synced_kept;
use crate::page::btree::synced_kept;
use crate::page::btree::tree_step;
use crate::page::delete_steps::collapsed_shape;
use crate::page::delete_steps::lemma_collapse;
use crate::page::delete_steps::lemma_delete_done;
use crate::page::delete_steps::lemma_delete_under_child;
use crate::page::delete_steps::lemma_root_collapse;
use crate::page::delete_steps::lemma_settled_root;
use crate::page::delete_steps::lemma_unlink;
use crate::page::delete_steps::settled;
use crate::page::delete_steps::settled_root;
use crate::page::delete_steps::unlinked_key;
use crate::page::delete_steps::unlinked_shape;
use crate::page::image;
use crate::page::insert_steps::lemma_leaf_step;
use crate::page::insert_steps::lemma_step_refl;
use crate::page::internal_page::InternalPage;
use crate::page::internal_spec::internal_keys;
use crate::page::internal_spec::internal_pointers;
use crate::page::internal_spec::is_internal;
use crate::page::internal_spec::route;
use crate::page::leaf_page::LeafPage;
use crate::page::leaf_spec::is_leaf;
use crate::page::leaf_spec::leaf_entries;
use crate::page::shape::Node;
use crate::page::shape::Store;
use crate::page::shape::child_hi;
use crate::page::shape::child_lo;
use crate::page::shape::depth_ok;
use crate::page::shape::disjoint;
use crate::page::shape::get;
use crate::page::shape::in_range;
use crate::page::shape::lemma_depth_more;
use crate::page::shape::lemma_depth_of_tree;
use crate::page::shape::lemma_off;
use crate::page::shape::lemma_off_end;
use crate::page::shape::lemma_value_in_image;
use crate::page::shape::owns;
use crate::page::shape::repr;
use crate::page::shape::store_of;
use crate::page::split_steps::lemma_route_exists;
use crate::page::steps::lemma_kept_pages;
use crate::page::steps::sets;
use crate::page::steps::step;
use vstd::prelude::*;

verus! {

/// What has to hold for a delete under `node` to keep the tree: the
/// database holds a well-formed tree of shape `shape` within the bounds,
/// `node` is its root page as the device has it, the tree is no deeper
/// than the budget, and the key lies within the bounds.
pub open spec fn delete_ready(
    st: Store,
    shape: Node,
    node: InternalPage,
    lo: int,
    hi: int,
    budget: int,
    key: Key,
) -> bool {
    &&& repr(st, shape)
    &&& disjoint(shape)
    &&& in_range(st, shape, lo, hi)
    &&& node.offset == st.off(shape.idx)
    &&& node.reads(st.d, st.bs)
    &&& depth_ok(shape, budget)
    &&& lo < key <= hi
}

/// What a delete under `node` has made of a tree of shape `shape`: a tree
/// of shape `shape2` without the key, whose root page `node` is as the
/// device has it.
pub open spec fn delete_done(
    st: Store,
    st2: Store,
    shape: Node,
    shape2: Node,
    node: InternalPage,
    lo: int,
    hi: int,
    key: Key,
) -> bool {
    &&& step(st, st2, shape, shape2, lo, hi)
    &&& sets(st, st2, shape, shape2, key, None)
    &&& node.reads(st2.d, st.bs)
}

/// What a delete under child `i` of the page `node` has made of the keys
/// and child offsets of the page, told from the child as the device has
/// it then. Where the key was found: a leaf left empty is unlinked, with
/// the key before it, or with the first key where it is the first child,
/// unless the page has no key; an internal page left without keys gives
/// way to its one child; any other child stays, and the page is as it
/// was. Where the key was not found, the page is as it was.
pub open spec fn delete_made(
    d2: Seq<u8>,
    bs: int,
    node: InternalPage,
    node2: InternalPage,
    i: int,
    found: bool,
) -> bool {
    let img = image(d2, node.pointers@[i] as int, bs);
    if !found {
        &&& node2.pointers@ == node.pointers@
        &&& node2.keys@ == node.keys@
    } else if is_leaf(img) && leaf_entries(img).len() == 0 && node.keys@.len() > 0 {
        &&& node2.pointers@ == node.pointers@.remove(i)
        &&& node2.keys@ == node.keys@.remove(unlinked_key(i))
    } else if is_internal(img) && internal_keys(img).len() == 0 {
        &&& node2.pointers@ == node.pointers@.update(i, internal_pointers(img)[0])
        &&& node2.keys@ == node.keys@
    } else {
        &&& node2.pointers@ == node.pointers@
        &&& node2.keys@ == node.keys@
    }
}

/// A delete has done nothing: the device, the shape of the tree and the
/// page are as they were.
pub open spec fn delete_idle<D: Disk>(
    db: &Database<D>,
    db2: &Database<D>,
    shape: Node,
    shape2: Node,
    node: InternalPage,
    node2: InternalPage,
) -> bool {
    &&& db2.disk@ == db.disk@
    &&& shape2 == shape
    &&& node2.keys@ == node.keys@
    &&& node2.pointers@ == node.pointers@
}

/// What a delete leaves as it was, whatever comes of it: the header of the
/// database, and `node` as a valid page.
pub open spec fn delete_kept<D: Disk>(
    db: &Database<D>,
    db2: &Database<D>,
    node: InternalPage,
    node2: InternalPage,
) -> bool {
    &&& db2.meta == db.meta
    &&& node2.offset == node.offset
    &&& node2.wf(db.spec_block_size())
}

impl InternalPage {
    /// Deletes `key` from the leaf `leaf`, which is child `i` of this
    /// page, and unlinks the leaf if it is empty then: the separator
    /// before it leaves with it, or the first separator with the first
    /// child. A page without keys keeps its one child.
    fn delete_in_leaf<D: Disk>(
        &mut self,
        i: usize,
        leaf: LeafPage,
        key: Key,
        db: &mut Database<D>,
        Ghost(budget): Ghost<int>,
        Ghost(shape): Ghost<Node>,
        Ghost(lo): Ghost<int>,
        Ghost(hi): Ghost<int>,
    ) -> (r: (Result<bool, Error>, Ghost<Node>))
        requires
            old(db).inv(),
            old(self).wf(old(db).spec_block_size()),
            i < old(self).pointers@.len(),
            leaf.offset == old(self).pointers@[i as int],
            leaf.reads(old(db).disk@, old(db).spec_block_size()),
        ensures
            final(db).disk.reliable() == old(db).disk.reliable(),
            delete_kept(old(db), final(db), *old(self), *final(self)),
            delete_ready(store_of(old(db)), shape, *old(self), lo, hi, budget, key) && i == route(
                old(self).keys@,
                key,
            ) ==> match r.0 {
                Ok(found) => found == (get(store_of(old(db)), shape, key) is Some)
                    && delete_done(
                    store_of(old(db)),
                    store_of(final(db)),
                    shape,
                    r.1@,
                    *final(self),
                    lo,
                    hi,
                    key,
                ) && synced_kept(old(db), final(db)) && delete_made(
                    final(db).disk@,
                    old(db).spec_block_size(),
                    *old(self),
                    *final(self),
                    i as int,
                    found,
                ),
                Err(e) => io_failure(&old(db).disk, e),
            },
            delete_ready(store_of(old(db)), shape, *old(self), lo, hi, budget, key)
                && i == route(old(self).keys@, key)
                && get(store_of(old(db)), shape, key) is None && r.0 is Ok ==> delete_idle(
                old(db),
                final(db),
                shape,
                r.1@,
                *old(self),
                *final(self),
            ),
    {
        let mut leaf = leaf;
        let ghost st = store_of(db);
        let ghost ready = delete_ready(st, shape, *self, lo, hi, budget, key) && i == route(
            self.keys@,
            key,
        );
        let ghost keys = self.keys@;
        let ghost c = shape.children[i as int];
        let ghost clo = child_lo(keys, i as int, lo);
        let ghost chi = child_hi(keys, i as int, hi);
        proof {
            lemma_end_bounds(db.meta);
            if ready {
                assert(!is_leaf(st.img(shape.idx)));
                assert(repr(st, c) && in_range(st, c, clo, chi));
                lemma_route_exists(keys, key);
            }
        }
        let ghost db0 = *db;
        let found = match leaf.delete_stored(key, db) {
            Ok(found) => found,
            Err(e) => {
                return (Err(e), Ghost(shape));
            },
        };
        let ghost st1 = store_of(db);
        let ghost db1 = *db;
        proof {
            if ready {
                lemma_off(st, 0, c.idx);
                lemma_synced_kept(&db0, db, leaf.offset as int, leaf.offset + st.bs);
                if found {
                    lemma_leaf_step(st, st1, c, clo, chi, key, None);
                } else {
                    assert(st1 == st);
                    lemma_step_refl(st, c, clo, chi);
                    lemma_value_in_image(st.d, leaf.offset as int, st.bs, leaf.keys@, key);
                    assert(get(st, c, key) == None::<Seq<u8>>);
                }
                lemma_delete_under_child(st, st1, shape, i as int, c, lo, hi, key);
            }
        }
        if found && leaf.keys.len() == 0 && self.keys.len() > 0 {
            let r = if i == 0 {
                self.remove_first(db)
            } else {
                self.safe_remove(i - 1, db)
            };
            match r {
                Ok(()) => {},
                Err(e) => {
                    return (Err(e), Ghost(shape));
                },
            }
            proof {
                let st2 = store_of(db);
                if ready {
                    lemma_off(st, 0, shape.idx);
                    lemma_synced_kept(&db1, db, self.offset as int, self.offset + st.bs);
                    lemma_kept_pages(st1, st2, shape.idx);
                    lemma_unlink(st1, st2, shape, i as int, lo, hi);
                    lemma_delete_done(
                        st,
                        st1,
                        st2,
                        shape,
                        shape,
                        unlinked_shape(shape, i as int),
                        lo,
                        hi,
                        key,
                    );
                }
            }
            (Ok(true), Ghost(unlinked_shape(shape, i as int)))
        } else {
            (Ok(found), Ghost(shape))
        }
    }

    /// Deletes `key` under the internal page `internal`, which is child
    /// `i` of this page, and puts the child's one child in its place if
    /// the child has no key then.
    fn delete_in_internal<D: Disk>(
        &mut self,
        i: usize,
        internal: InternalPage,
        key: Key,
        db: &mut Database<D>,
        budget: u64,
        Ghost(shape): Ghost<Node>,
        Ghost(lo): Ghost<int>,
        Ghost(hi): Ghost<int>,
    ) -> (r: (Result<bool, Error>, Ghost<Node>))
        requires
            old(db).inv(),
            old(self).wf(old(db).spec_block_size()),
            i < old(self).pointers@.len(),
            internal.offset == old(self).pointers@[i as int],
            internal.reads(old(db).disk@, old(db).spec_block_size()),
            budget > 0,
        ensures
            final(db).disk.reliable() == old(db).disk.reliable(),
            delete_kept(old(db), final(db), *old(self), *final(self)),
            delete_ready(store_of(old(db)), shape, *old(self), lo, hi, budget as int, key) && i
                == route(old(self).keys@, key) ==> match r.0 {
                Ok(found) => found == (get(store_of(old(db)), shape, key) is Some)
                    && delete_done(
                    store_of(old(db)),
                    store_of(final(db)),
                    shape,
                    r.1@,
                    *final(self),
                    lo,
                    hi,
                    key,
                ) && synced_kept(old(db), final(db)) && delete_made(
                    final(db).disk@,
                    old(db).spec_block_size(),
                    *old(self),
                    *final(self),
                    i as int,
                    found,
                ),
                Err(e) => io_failure(&old(db).disk, e),
            },
            delete_ready(store_of(old(db)), shape, *old(self), lo, hi, budget as int, key)
                && i == route(old(self).keys@, key)
                && get(store_of(old(db)), shape, key) is None && r.0 is Ok ==> delete_idle(
                old(db),
                final(db),
                shape,
                r.1@,
                *old(self),
                *final(self),
            ),
        decreases budget, 0nat,
    {
        let mut internal = internal;
        let ghost st = store_of(db);
        let ghost ready = delete_ready(st, shape, *self, lo, hi, budget as int, key) && i == route(
            self.keys@,
            key,
        );
        let ghost keys = self.keys@;
        let ghost c = shape.children[i as int];
        let ghost clo = child_lo(keys, i as int, lo);
        let ghost chi = child_hi(keys, i as int, hi);
        proof {
            lemma_end_bounds(db.meta);
            if ready {
                assert(!is_leaf(st.img(shape.idx)));
                assert(repr(st, c) && in_range(st, c, clo, chi));
                assert(depth_ok(c, budget - 1));
                lemma_route_exists(keys, key);
            }
        }
        let (r, child_shape) = internal.delete_under(
            key,
            db,
            budget - 1,
            Ghost(c),
            Ghost(clo),
            Ghost(chi),
        );
        let found: bool = match r {
            Ok(found) => found,
            Err(e) => {
                return (Err(e), Ghost(shape));
            },
        };
        let ghost st1 = store_of(db);
        let ghost db1 = *db;
        let ghost c1 = child_shape@;
        let ghost shape1 = Node { idx: shape.idx, children: shape.children.update(i as int, c1) };
        proof {
            if ready {
                lemma_delete_under_child(st, st1, shape, i as int, c1, lo, hi, key);
            }
        }
        proof {
            if ready {
                assert(!is_leaf(st.img(shape.idx)));
                assert(get(st, c, key) == get(st, shape, key));
                if !found {
                    assert(c1 == c);
                    assert(shape.children.update(i as int, c) =~= shape.children);
                    assert(shape1 == shape);
                }
            }
        }
        if found && internal.keys.len() == 0 {
            match self.set_pointer(i, internal.pointer(0), db) {
                Ok(()) => {},
                Err(e) => {
                    return (Err(e), Ghost(shape));
                },
            }
            proof {
                let st2 = store_of(db);
                if ready {
                    lemma_off(st, 0, shape.idx);
                    lemma_synced_kept(&db1, db, self.offset as int, self.offset + st.bs);
                    lemma_kept_pages(st1, st2, shape.idx);
                    lemma_collapse(st1, st2, shape1, i as int, lo, hi);
                    lemma_delete_done(
                        st,
                        st1,
                        st2,
                        shape,
                        shape1,
                        collapsed_shape(shape1, i as int),
                        lo,
                        hi,
                        key,
                    );
                }
            }
            (Ok(true), Ghost(collapsed_shape(shape1, i as int)))
        } else {
            (Ok(found), Ghost(shape1))
        }
    }

    /// Deletes `key` under this page, which is no more than `budget`
    /// internal pages above its leaves.
    pub(crate) fn delete_under<D: Disk>(
        &mut self,
        key: Key,
        db: &mut Database<D>,
        budget: u64,
        Ghost(shape): Ghost<Node>,
        Ghost(lo): Ghost<int>,
        Ghost(hi): Ghost<int>,
    ) -> (r: (Result<bool, Error>, Ghost<Node>))
        requires
            old(db).inv(),
            old(self).wf(old(db).spec_block_size()),
        ensures
            final(db).disk.reliable() == old(db).disk.reliable(),
            delete_kept(old(db), final(db), *old(self), *final(self)),
            delete_ready(store_of(old(db)), shape, *old(self), lo, hi, budget as int, key)
                ==> match r.0 {
                Ok(found) => found == (get(store_of(old(db)), shape, key) is Some)
                    && delete_done(
                    store_of(old(db)),
                    store_of(final(db)),
                    shape,
                    r.1@,
                    *final(self),
                    lo,
                    hi,
                    key,
                ) && synced_kept(old(db), final(db)) && delete_made(
                    final(db).disk@,
                    old(db).spec_block_size(),
                    *old(self),
                    *final(self),
                    route(old(self).keys@, key),
                    found,
                ),
                Err(e) => io_failure(&old(db).disk, e),
            },
            delete_ready(store_of(old(db)), shape, *old(self), lo, hi, budget as int, key)
                && get(store_of(old(db)), shape, key) is None && r.0 is Ok ==> delete_idle(
                old(db),
                final(db),
                shape,
                r.1@,
                *old(self),
                *final(self),
            ),
        decreases budget, 1nat,
    {
        if budget == 0 {
            return (Err(Error::InvariantViolation), Ghost(shape));
        }
        let ghost st = store_of(db);
        let i: usize = self.find_child(key);
        proof {
            lemma_end_bounds(db.meta);
            lemma_off_end(db);
            if delete_ready(st, shape, *self, lo, hi, budget as int, key) {
                let c = shape.children[i as int];
                assert(!is_leaf(st.img(shape.idx)));
                assert(repr(st, c));
                lemma_off(st, c.idx, st.n);
            }
        }
        let child = match Page::load(self.pointer(i), db) {
            Ok(child) => child,
            Err(e) => {
                return (Err(e), Ghost(shape));
            },
        };
        match child {
            Page::Leaf(leaf) => self.delete_in_leaf(
                i,
                leaf,
                key,
                db,
                Ghost(budget as int),
                Ghost(shape),
                Ghost(lo),
                Ghost(hi),
            ),
            Page::Internal(internal) => self.delete_in_internal(
                i,
                internal,
                key,
                db,
                budget,
                Ghost(shape),
                Ghost(lo),
                Ghost(hi),
            ),
        }
    }

    /// The tree of which this page is the root.
    pub open spec fn tree(&self) -> BTree {
        BTree { root: self.offset }
    }

    /// Deletes `key` from the tree under this page. An empty leaf is
    /// unlinked from its parent, and an internal page without keys gives
    /// way to its one child; this page itself stays, also without keys.
    pub fn delete_value<D: Disk>(
        &mut self,
        key: Key,
        db: &mut Database<D>,
    ) -> (r: Result<(), Error>)
        requires
            old(db).inv(),
            old(self).wf(old(db).spec_block_size()),
        ensures
            final(db).disk.reliable() == old(db).disk.reliable(),
            delete_kept(old(db), final(db), *old(self), *final(self)),
            old(self).tree().wf(old(db)) && old(self).reads(
                old(db).disk@,
                old(db).spec_block_size(),
            ) ==> match r {
                Ok(()) => {
                    &&& tree_step(old(self).tree(), old(db), old(self).tree(), final(db))
                    &&& old(self).tree().contents(final(db)) == old(self).tree().contents(
                        old(db),
                    ).remove(key)
                    &&& synced_kept(old(db), final(db))
                    &&& final(self).reads(final(db).disk@, old(db).spec_block_size())
                    &&& delete_made(
                        final(db).disk@,
                        old(db).spec_block_size(),
                        *old(self),
                        *final(self),
                        route(old(self).keys@, key),
                        old(self).tree().contents(old(db)).contains_key(key),
                    )
                },
                Err(e) => io_failure(&old(db).disk, e),
            },
    {
        let ghost tree = self.tree();
        let ghost st = store_of(db);
        let ghost shape = tree.shape(db);
        let ghost db0 = *db;
        proof {
            lemma_end_bounds(db.meta);
            if tree.wf(db) {
                lemma_depth_of_tree(st, shape);
                lemma_depth_more(shape, st.n - 2, st.n);
            }
        }
        let budget: u64 = db.meta.num_blocks_allocated;
        let (r, after) = self.delete_under(
            key,
            db,
            budget,
            Ghost(shape),
            Ghost(-1int),
            Ghost(u128::MAX as int),
        );
        proof {
            if tree.wf(&db0) && old(self).reads(st.d, st.bs) && r is Ok {
                tree.lemma_tree_step(&db0, tree, db, shape, after@, key, None);
                tree.lemma_value_of_contents(&db0, key);
            }
        }
        match r {
            Ok(_) => Ok(()),
            Err(e) => Err(e),
        }
    }
}

impl BTree {
    /// Makes the one child of a root without keys the root, and so on,
    /// until the root has a key or is a leaf.
    fn collapse_root<D: Disk>(
        &mut self,
        page: InternalPage,
        db: &mut Database<D>,
        budget: u64,
        Ghost(shape): Ghost<Node>,
    ) -> (r: (Result<(), Error>, Ghost<Node>))
        requires
            old(db).inv(),
            page.wf(old(db).spec_block_size()),
        ensures
            final(db).disk.reliable() == old(db).disk.reliable(),
            final(db).meta == old(db).meta,
            final(db).disk@ == old(db).disk@,
            old(self).is_shape(store_of(old(db)), shape) && page.offset == old(self).root
                && page.reads(old(db).disk@, old(db).spec_block_size()) && depth_ok(
                shape,
                budget as int,
            ) ==> match r.0 {
                Ok(()) => {
                    &&& final(self).is_shape(store_of(old(db)), r.1@)
                    &&& forall|k: Key|
                        #[trigger] get(store_of(old(db)), r.1@, k) == get(
                            store_of(old(db)),
                            shape,
                            k,
                        )
                    &&& forall|p: int| #[trigger] owns(r.1@, p) ==> owns(shape, p)
                    &&& r.1@ == settled(store_of(old(db)), shape)
                },
                Err(e) => io_failure(&old(db).disk, e),
            },
        decreases budget,
    {
        let ghost st = store_of(db);
        let ghost ready = self.is_shape(st, shape) && page.offset == self.root && page.reads(
            db.disk@,
            db.spec_block_size(),
        ) && depth_ok(shape, budget as int);
        if page.keys.len() > 0 {
            return (Ok(()), Ghost(shape));
        }
        if budget == 0 {
            proof {
                if ready {
                    assert(!is_leaf(st.img(shape.idx)));
                }
            }
            return (Err(Error::InvariantViolation), Ghost(shape));
        }
        let ghost child = shape.children[0];
        proof {
            lemma_end_bounds(db.meta);
            lemma_off_end(db);
            if ready {
                lemma_root_collapse(st, shape, -1, u128::MAX as int);
                lemma_off(st, child.idx, st.n);
            }
        }
        self.root = page.pointer(0);
        let next = match Page::load(self.root, db) {
            Ok(next) => next,
            Err(e) => {
                return (Err(e), Ghost(shape));
            },
        };
        proof {
            if ready {
                assert(!is_leaf(st.img(shape.idx)));
                assert(internal_keys(st.img(shape.idx)).len() == 0);
                assert(shape.children.len() > 0);
                assert(settled(st, shape) == settled(st, child));
                assert(st.img(child.idx) == image(st.d, self.root as int, st.bs));
            }
        }
        match next {
            Page::Leaf(_) => {
                proof {
                    if ready {
                        assert(is_leaf(st.img(child.idx)));
                        assert(settled(st, child) == child);
                    }
                }
                (Ok(()), Ghost(child))
            },
            Page::Internal(next) => {
                let (r, last) = self.collapse_root(next, db, budget - 1, Ghost(child));
                proof {
                    if ready && r is Ok {
                        assert forall|k: Key| #[trigger]
                            get(st, last@, k) == get(st, shape, k) by {
                            assert(get(st, child, k) == get(st, shape, k));
                        }
                        assert forall|p: int| #[trigger] owns(last@, p) implies owns(shape, p) by {
                            assert(owns(child, p));
                        }
                    }
                }
                (r, last)
            },
        }
    }

    /// Deletes `key` from under the internal page that is the root.
    fn delete_under_root<D: Disk>(
        &mut self,
        root: InternalPage,
        key: Key,
        db: &mut Database<D>,
    ) -> (r: Result<(), Error>)
        requires
            old(db).inv(),
            root.offset == old(self).root,
            root.reads(old(db).disk@, old(db).spec_block_size()),
        ensures
            final(db).disk.reliable() == old(db).disk.reliable(),
            final(db).meta == old(db).meta,
            old(self).wf(old(db)) ==> match r {
                Ok(()) => {
                    &&& tree_step(*old(self), old(db), *final(self), final(db))
                    &&& final(self).contents(final(db)) == old(self).contents(old(db)).remove(key)
                    &&& synced_kept(old(db), final(db))
                    &&& old(self).contents(old(db)).contains_key(key) ==> final(self).root
                        == settled_root(
                        final(db).disk@,
                        old(db).spec_block_size(),
                        old(self).root as int,
                        old(db).meta.num_blocks_allocated as nat,
                    ) && final(self).settled(final(db))
                    &&& !old(self).contents(old(db)).contains_key(key) ==> final(db).disk@ == old(
                        db,
                    ).disk@ && final(self).root == old(self).root
                },
                Err(e) => io_failure(&old(db).disk, e),
            },
    {
        let mut root = root;
        let ghost st = store_of(db);
        let ghost shape = self.shape(db);
        let ghost ready = self.wf(db);
        let ghost lo = -1int;
        let ghost hi = u128::MAX as int;
        let ghost tree0 = *self;
        let ghost db0 = *db;
        proof {
            lemma_end_bounds(db.meta);
            if ready {
                lemma_depth_of_tree(st, shape);
                lemma_depth_more(shape, st.n - 2, st.n);
            }
        }
        let budget: u64 = db.meta.num_blocks_allocated;
        let (r, after) = root.delete_under(key, db, budget, Ghost(shape), Ghost(lo), Ghost(hi));
        let found: bool = match r {
            Ok(found) => found,
            Err(e) => {
                return Err(e);
            },
        };
        let ghost st1 = store_of(db);
        let ghost shape1 = after@;
        if !found {
            proof {
                if ready {
                    tree0.lemma_value_of_contents(&db0, key);
                    tree0.lemma_tree_step(&db0, *self, db, shape, shape, key, None);
                }
            }
            return Ok(());
        }
        proof {
            if ready {
                lemma_depth_of_tree(st1, shape1);
                lemma_depth_more(shape1, st1.n - 2, st1.n);
            }
        }
        let (r, last) = self.collapse_root(root, db, budget, Ghost(shape1));
        proof {
            if ready && r is Ok {
                let shape2 = last@;
                assert forall|k: Key| #[trigger] get(st1, shape2, k) == if k == key {
                    None
                } else {
                    get(st, shape, k)
                } by {
                    assert(get(st1, shape2, k) == get(st1, shape1, k));
                }
                assert forall|p: int| #[trigger] owns(shape2, p) implies owns(shape, p) || st.n <= p
                    < st1.n by {
                    assert(owns(shape1, p));
                }
                tree0.lemma_tree_step(&db0, *self, db, shape, shape2, key, None);
                lemma_settled_root(st1, shape1, budget as int, budget as nat);
                tree0.lemma_value_of_contents(&db0, key);
            }
        }
        r
    }

    /// Deletes `key`, if the tree has it. A leaf left empty is unlinked
    /// from its parent, an internal page left without keys gives way to
    /// its one child, and so does the root. No page is merged or freed.
    /// Where the tree does not have the key nothing is written, and the
    /// root stays.
    pub fn delete<D: Disk>(&mut self, key: Key, db: &mut Database<D>) -> (r: Result<(), Error>)
        requires
            old(db).inv(),
        ensures
            final(db).disk.reliable() == old(db).disk.reliable(),
            final(db).inv(),
            final(db).meta == old(db).meta,
            old(self).wf(old(db)) ==> match r {
                Ok(()) => {
                    &&& tree_step(*old(self), old(db), *final(self), final(db))
                    &&& final(self).contents(final(db)) == old(self).contents(old(db)).remove(key)
                    &&& synced_kept(old(db), final(db))
                    &&& old(self).contents(old(db)).contains_key(key) ==> final(self).root
                        == settled_root(
                        final(db).disk@,
                        old(db).spec_block_size(),
                        old(self).root as int,
                        old(db).meta.num_blocks_allocated as nat,
                    ) && final(self).settled(final(db))
                    &&& !old(self).contents(old(db)).contains_key(key) ==> final(db).disk@ == old(
                        db,
                    ).disk@ && final(self).root == old(self).root
                },
                Err(e) => io_failure(&old(db).disk, e),
            },
    {
        let ghost st = store_of(db);
        let ghost shape = self.shape(db);
        let ghost ready = self.wf(db);
        let ghost lo = -1int;
        let ghost hi = u128::MAX as int;
        let ghost tree0 = *self;
        let ghost db0 = *db;
        proof {
            lemma_end_bounds(db.meta);
            lemma_off_end(db);
            if ready {
                lemma_off(st, shape.idx, st.n);
            }
        }
        let root = match Page::load(self.root, db) {
            Ok(root) => root,
            Err(e) => {
                return Err(e);
            },
        };
        match root {
            Page::Leaf(mut leaf) => {
                let found = match leaf.delete_stored(key, db) {
                    Ok(found) => found,
                    Err(e) => {
                        return Err(e);
                    },
                };
                proof {
                    let st1 = store_of(db);
                    if ready {
                        lemma_off(st, 0, shape.idx);
                        lemma_synced_kept(&db0, db, leaf.offset as int, leaf.offset + st.bs);
                        if found {
                            lemma_leaf_step(st, st1, shape, lo, hi, key, None);
                        } else {
                            assert(st1 == st);
                            lemma_step_refl(st, shape, lo, hi);
                            lemma_value_in_image(st.d, leaf.offset as int, st.bs, leaf.keys@, key);
                            assert(get(st, shape, key) == None::<Seq<u8>>);
                        }
                        tree0.lemma_tree_step(&db0, *self, db, shape, shape, key, None);
                    }
                }
                Ok(())
            },
            Page::Internal(internal) => self.delete_under_root(internal, key, db),
        }
    }
}

} // verus!
