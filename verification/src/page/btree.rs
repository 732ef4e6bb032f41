//! The B+-tree: what a tree holds, a new tree, and lookup. Insertion,
//! deletion and the keys in order have modules of their own.

use crate::database::Database;
use crate::database::DatabaseMeta;
use crate::database::HEADER_LEN;
use crate::database::lemma_end_bounds;
use crate::database::max_device_size;
use crate::disk::Disk;
use crate::error::Error;
use crate::error::io_failure;
use crate::key::Key;
use crate::page::Page;
use crate::page::PageOffset;
use crate::page::delete_steps::settled;
use crate::page::frame::kept_below;
use crate::page::frame::kept_outside;
use crate::page::frame::lemma_frame_header;
use crate::page::image;
use crate::page::internal_spec::internal_keys;
use crate::page::internal_spec::internal_pointers;
use crate::page::internal_spec::max_children;
use crate::page::leaf_page::LeafPage;
use crate::page::leaf_page::LeafPageEntry;
use crate::page::leaf_spec::has_key;
use crate::page::leaf_spec::has_room;
use crate::page::leaf_spec::is_leaf;
use crate::page::leaf_spec::leaf_entries;
use crate::page::leaf_spec::lemma_index_of_wf;
use crate::page::room::accommodates;
use crate::page::room::has_room_on_way;
use crate::page::room::leaf_split_takes;
use crate::page::room::small;
use crate::page::room::small_under;
use crate::page::shape::Node;
use crate::page::shape::Store;
use crate::page::shape::block_off;
use crate::page::shape::depth_ok;
use crate::page::shape::disjoint;
use crate::page::shape::get;
use crate::page::shape::in_range;
use crate::page::shape::lemma_depth_more;
use crate::page::shape::lemma_depth_of_tree;
use crate::page::shape::lemma_off;
use crate::page::shape::lemma_off_end;
use crate::page::shape::lemma_unique;
use crate::page::shape::lemma_value_in_image;
use crate::page::shape::level;
use crate::page::shape::owns;
use crate::page::shape::repr;
use crate::page::shape::store_of;
use crate::page::steps::kept_but;
use crate::page::steps::kept_outside_of;
use crate::page::steps::lemma_kept_pages_below;
use crate::page::steps::sets;
use vstd::arithmetic::power2::lemma2_to64;
use vstd::prelude::*;

verus! {

/// A tree, known by the offset of its root page.
pub struct BTree {
    pub root: PageOffset,
}

/// What an optional value in memory stands for.
pub open spec fn option_view(v: Option<Vec<u8>>) -> Option<Seq<u8>> {
    match v {
        Some(v) => Some(v@),
        None => None,
    }
}

/// The header on the device is still the one in memory, if it was.
pub open spec fn synced_kept<D: Disk>(db: &Database<D>, db2: &Database<D>) -> bool {
    db.synced() ==> db2.synced()
}

/// What an operation on a tree leaves as it was, whatever comes of it: the
/// block size and the root tree of the database.
pub open spec fn header_kept<D: Disk>(db: &Database<D>, db2: &Database<D>) -> bool {
    &&& db2.inv()
    &&& db2.meta.block_size_exp == db.meta.block_size_exp
    &&& db2.meta.root_btree_offset == db.meta.root_btree_offset
    &&& db2.meta.num_blocks_allocated >= db.meta.num_blocks_allocated
}

/// A tree has become another by an operation on it: the new one is
/// well-formed, no page outside the old one has changed, and the new one
/// has pages of the old one and new blocks only.
pub open spec fn tree_step<D: Disk>(
    tree: BTree,
    db: &Database<D>,
    tree2: BTree,
    db2: &Database<D>,
) -> bool {
    &&& tree2.wf(db2)
    &&& kept_outside_of(store_of(db), store_of(db2), tree.shape(db))
    &&& forall|p: int|
        #[trigger] owns(tree2.shape(db2), p) ==> owns(tree.shape(db), p) || store_of(db).n <= p
            < store_of(db2).n
}

/// A write behind the file header leaves the header on the device as it
/// was.
pub proof fn lemma_synced_kept<D: Disk>(db: &Database<D>, db2: &Database<D>, lo: int, hi: int)
    requires
        db2.meta == db.meta,
        kept_outside(db.disk@, db2.disk@, lo, hi),
        HEADER_LEN <= lo,
    ensures
        synced_kept(db, db2),
{
    if db.synced() {
        reveal(kept_outside);
        lemma_frame_header(db.disk@, db2.disk@, lo, hi);
    }
}

impl BTree {
    /// `node` is the shape of a well-formed tree with this root: the
    /// store holds a tree of this shape, no block is a page of it twice,
    /// and its keys lie between the separators above them.
    pub open spec fn is_shape(&self, st: Store, node: Node) -> bool {
        &&& st.off(node.idx) == self.root
        &&& repr(st, node)
        &&& disjoint(node)
        &&& in_range(st, node, -1, u128::MAX as int)
    }

    /// The store holds a well-formed tree with this root.
    pub open spec fn wf_in(&self, st: Store) -> bool {
        exists|node: Node| self.is_shape(st, node)
    }

    /// The shape of the tree in a store.
    pub open spec fn shape_in(&self, st: Store) -> Node {
        choose|node: Node| self.is_shape(st, node)
    }

    /// The value that the tree gives `key` in a store.
    pub open spec fn value_in(&self, st: Store, key: Key) -> Option<Seq<u8>> {
        get(st, self.shape_in(st), key)
    }

    /// The database holds a well-formed tree with this root.
    pub open spec fn wf<D: Disk>(&self, db: &Database<D>) -> bool {
        self.wf_in(store_of(db))
    }

    /// The shape of the tree.
    pub open spec fn shape<D: Disk>(&self, db: &Database<D>) -> Node {
        self.shape_in(store_of(db))
    }

    /// All leaves of the tree are at one depth.
    pub open spec fn balanced<D: Disk>(&self, db: &Database<D>) -> bool {
        exists|h: int| level(self.shape(db), h)
    }

    /// The root page is a leaf.
    pub open spec fn leaf_root<D: Disk>(&self, db: &Database<D>) -> bool {
        is_leaf(image(db.disk@, self.root as int, db.spec_block_size()))
    }

    /// The root page is a leaf or has a key.
    pub open spec fn settled<D: Disk>(&self, db: &Database<D>) -> bool {
        let img = image(db.disk@, self.root as int, db.spec_block_size());
        is_leaf(img) || internal_keys(img).len() > 0
    }

    /// Whether the root page takes what an insert of a value of `len`
    /// bytes may bring it without being split: a leaf, the value with its
    /// slot; an internal page, one more child.
    pub open spec fn root_has_room<D: Disk>(&self, db: &Database<D>, len: int) -> bool {
        let img = image(db.disk@, self.root as int, db.spec_block_size());
        if is_leaf(img) {
            accommodates(leaf_entries(img), len, db.spec_block_size())
        } else {
            internal_pointers(img).len() < max_children(db.spec_block_size())
        }
    }

    /// Whether the tree has room for a value of `len` bytes for `key`: no
    /// internal page on the way to the leaf where the key belongs has to
    /// be split, and the leaf has room for the value as it is, or can be
    /// split into halves of which the one where the key belongs has room,
    /// with the blocks that this takes: one, or two where the leaf is the
    /// root.
    pub open spec fn has_room<D: Disk>(&self, db: &Database<D>, key: Key, len: int) -> bool {
        if self.root_has_room(db, len) {
            has_room_on_way(store_of(db), self.shape(db), key, len)
        } else {
            let img = image(db.disk@, self.root as int, db.spec_block_size());
            &&& is_leaf(img)
            &&& leaf_split_takes(leaf_entries(img), key, len, db.spec_block_size())
            &&& db.spec_end() + 2 * db.spec_block_size() <= max_device_size()
        }
    }

    /// Whether the tree is sure to take a value of `len` bytes for any
    /// key: the value and every value of the tree are small for the block
    /// size, and the device can grow.
    pub open spec fn takes<D: Disk>(&self, db: &Database<D>, len: int) -> bool {
        &&& small(len, db.spec_block_size())
        &&& forall|k: Key| #[trigger]
            self.contents(db).contains_key(k) ==> small(
                self.contents(db)[k].len() as int,
                db.spec_block_size(),
            )
        &&& db.roomy_for(1)
    }

    /// What the tree holds in a store: its keys, each with its value.
    pub open spec fn contents_in(&self, st: Store) -> Map<Key, Seq<u8>> {
        Map::new(|k: Key| self.value_in(st, k) is Some, |k: Key| self.value_in(st, k).unwrap())
    }

    /// The value that the tree gives `key`.
    pub open spec fn value<D: Disk>(&self, db: &Database<D>, key: Key) -> Option<Seq<u8>> {
        self.value_in(store_of(db), key)
    }

    /// What the tree holds: its keys, each with its value.
    pub open spec fn contents<D: Disk>(&self, db: &Database<D>) -> Map<Key, Seq<u8>> {
        self.contents_in(store_of(db))
    }

    /// A tree has one shape.
    pub proof fn lemma_shape(&self, st: Store, node: Node)
        requires
            st.bs > 0,
            self.is_shape(st, node),
        ensures
            self.wf_in(st),
            self.shape_in(st) == node,
    {
        let other = self.shape_in(st);
        if other.idx < node.idx {
            lemma_off(st, other.idx, node.idx);
        }
        if node.idx < other.idx {
            lemma_off(st, node.idx, other.idx);
        }
        lemma_unique(st, node, other);
    }

    /// What a tree holds, once `node` is known to be its shape.
    pub proof fn lemma_contents<D: Disk>(&self, db: &Database<D>, node: Node)
        requires
            db.inv(),
            self.is_shape(store_of(db), node),
        ensures
            self.wf(db),
            self.shape(db) == node,
            forall|k: Key| #[trigger] self.value(db, k) == get(store_of(db), node, k),
    {
        lemma_end_bounds(db.meta);
        self.lemma_shape(store_of(db), node);
    }

    /// What a tree that is sure to take a value means for its shape: under
    /// it are small values, and the store can grow.
    pub proof fn lemma_takes<D: Disk>(&self, db: &Database<D>, len: int)
        requires
            db.inv(),
            self.wf(db),
            self.takes(db, len),
        ensures
            small_under(store_of(db), self.shape(db)),
            store_of(db).off(2 * store_of(db).n + 4) <= max_device_size(),
    {
        let st = store_of(db);
        let shape = self.shape(db);
        assert forall|k: Key| #[trigger] get(st, shape, k) is Some implies small(
            get(st, shape, k).unwrap().len() as int,
            st.bs,
        ) by {
            assert(self.contents(db).contains_key(k));
        }
        reveal(block_off);
        reveal(DatabaseMeta::spec_end);
        lemma2_to64();
        assert((2 * st.n + 4) * st.bs == 2 * (st.n * st.bs) + 4 * st.bs) by (nonlinear_arith);
    }

    /// The value that a tree gives a key is the one that its contents hold
    /// for it.
    pub proof fn lemma_value_of_contents<D: Disk>(&self, db: &Database<D>, key: Key)
        ensures
            self.value(db, key) == if self.contents(db).contains_key(key) {
                Some(self.contents(db)[key])
            } else {
                None
            },
    {
    }

    /// A tree without contents gives no key a value.
    pub proof fn lemma_value_none<D: Disk>(&self, db: &Database<D>)
        requires
            self.contents(db) == Map::<Key, Seq<u8>>::empty(),
        ensures
            forall|k: Key| (#[trigger] self.value(db, k)) is None,
    {
        assert forall|k: Key| (#[trigger] self.value(db, k)) is None by {
            assert(!self.contents(db).contains_key(k));
        }
    }

    /// What an operation has done to the tree, told from the step that its
    /// shape has made.
    pub proof fn lemma_tree_step<D: Disk>(
        self,
        db: &Database<D>,
        tree2: BTree,
        db2: &Database<D>,
        shape: Node,
        shape2: Node,
        key: Key,
        nv: Option<Seq<u8>>,
    )
        requires
            db.inv(),
            db2.inv(),
            self.is_shape(store_of(db), shape),
            store_of(db2).off(shape2.idx) == tree2.root,
            repr(store_of(db2), shape2),
            disjoint(shape2),
            in_range(store_of(db2), shape2, -1, u128::MAX as int),
            kept_outside_of(store_of(db), store_of(db2), shape),
            forall|p: int|
                #[trigger] owns(shape2, p) ==> owns(shape, p) || store_of(db).n <= p < store_of(
                    db2,
                ).n,
            sets(store_of(db), store_of(db2), shape, shape2, key, nv),
        ensures
            tree_step(self, db, tree2, db2),
            nv is Some ==> tree2.contents(db2) == self.contents(db).insert(key, nv.unwrap()),
            nv is None ==> tree2.contents(db2) == self.contents(db).remove(key),
            nv == self.value(db, key) ==> tree2.contents(db2) == self.contents(db),
            tree2.shape(db2) == shape2,
    {
        self.lemma_contents(db, shape);
        tree2.lemma_contents(db2, shape2);
        assert forall|k: Key| #[trigger] tree2.value(db2, k) == if k == key {
            nv
        } else {
            self.value(db, k)
        } by {
            assert(get(store_of(db2), shape2, k) == if k == key {
                nv
            } else {
                get(store_of(db), shape, k)
            });
        }
        if nv is Some {
            assert(tree2.contents(db2) =~= self.contents(db).insert(key, nv.unwrap()));
        }
        if nv is None {
            assert(tree2.contents(db2) =~= self.contents(db).remove(key));
        }
        if nv == self.value(db, key) {
            assert(tree2.contents(db2) =~= self.contents(db));
        }
    }

    /// A new tree: a block is allocated and made an empty leaf, the root
    /// of the tree. Every page that the database had is left as it was.
    /// Where the device is full nothing is changed.
    pub fn init<D: Disk>(db: &mut Database<D>) -> (r: Result<BTree, Error>)
        requires
            old(db).inv(),
        ensures
            final(db).disk.reliable() == old(db).disk.reliable(),
            header_kept(old(db), final(db)),
            match r {
                Ok(tree) => {
                    &&& tree.root == old(db).spec_end()
                    &&& tree.wf(final(db))
                    &&& tree.shape(final(db)) == Node {
                        idx: old(db).meta.num_blocks_allocated as int,
                        children: Seq::empty(),
                    }
                    &&& tree.contents(final(db)) == Map::<Key, Seq<u8>>::empty()
                    &&& is_leaf(
                        image(final(db).disk@, old(db).spec_end(), old(db).spec_block_size()),
                    )
                    &&& leaf_entries(
                        image(final(db).disk@, old(db).spec_end(), old(db).spec_block_size()),
                    ) == Seq::<LeafPageEntry>::empty()
                    &&& final(db).meta == DatabaseMeta {
                        num_blocks_allocated: (old(db).meta.num_blocks_allocated + 1) as u64,
                        ..old(db).meta
                    }
                    &&& tree.balanced(final(db))
                    &&& final(db).meta.num_blocks_allocated == old(db).meta.num_blocks_allocated
                        + 1
                    &&& final(db).synced()
                    &&& kept_but(
                        store_of(old(db)),
                        store_of(final(db)),
                        old(db).meta.num_blocks_allocated as int,
                    )
                },
                Err(Error::Capacity) => {
                    &&& old(db).spec_end() + old(db).spec_block_size() > max_device_size()
                    &&& final(db).meta == old(db).meta
                    &&& final(db).disk@ == old(db).disk@
                },
                Err(e) => io_failure(&old(db).disk, e),
            },
    {
        let ghost st = store_of(db);
        proof {
            lemma_end_bounds(db.meta);
            lemma_off_end(db);
        }
        let root = match LeafPage::init(db) {
            Ok(root) => root,
            Err(e) => {
                return Err(e);
            },
        };
        let tree = BTree { root: root.offset() };
        proof {
            assert(root.keys@ =~= Seq::<LeafPageEntry>::empty());
            let st2 = store_of(db);
            let node = Node { idx: st.n, children: Seq::empty() };
            assert(kept_below(st.d, st2.d, st.off(st.n), st.off(st.n), st.off(st.n) + st.bs)) by {
                reveal(kept_below);
            }
            lemma_kept_pages_below(st, st2, st.n);
            assert(repr(st2, node));
            assert(disjoint(node));
            assert(in_range(st2, node, -1, u128::MAX as int));
            tree.lemma_contents(db, node);
            assert forall|k: Key| tree.value(db, k) is None by {}
            assert(tree.contents(db) =~= Map::<Key, Seq<u8>>::empty());
            assert(level(node, 0));
        }
        Ok(tree)
    }

    /// The offset of the root page.
    pub fn offset(&self) -> (r: PageOffset)
        ensures
            r == self.root,
    {
        self.root
    }

    /// The tree whose root page is at `offset`.
    pub fn from_offset(offset: PageOffset) -> (r: BTree)
        ensures
            r.root == offset,
    {
        Self { root: offset }
    }

    /// Looks `key` up under `page`, which is no more than `budget`
    /// internal pages above its leaves.
    fn btree_search<D: Disk>(
        &self,
        page: Page,
        key: Key,
        db: &mut Database<D>,
        budget: u64,
        Ghost(node): Ghost<Node>,
    ) -> (r: Result<Option<Vec<u8>>, Error>)
        requires
            old(db).inv(),
            page.reads(old(db).disk@, page.spec_offset(), old(db).spec_block_size()),
        ensures
            final(db).disk.reliable() == old(db).disk.reliable(),
            final(db).disk@ == old(db).disk@,
            final(db).meta == old(db).meta,
            repr(store_of(old(db)), node) && store_of(old(db)).off(node.idx) == page.spec_offset()
                && depth_ok(node, budget as int) ==> match r {
                Ok(v) => option_view(v) == get(store_of(old(db)), node, key),
                Err(e) => io_failure(&old(db).disk, e),
            },
        decreases budget,
    {
        let ghost st = store_of(db);
        let ghost ok = repr(st, node) && st.off(node.idx) == page.spec_offset() && depth_ok(
            node,
            budget as int,
        );
        proof {
            lemma_end_bounds(db.meta);
        }
        match page {
            Page::Internal(page) => {
                if budget == 0 {
                    return Err(Error::InvariantViolation);
                }
                let i: usize = page.find_child(key);
                let child = match Page::load(page.pointers[i], db) {
                    Ok(child) => child,
                    Err(e) => {
                        proof {
                            if ok {
                                let c = node.children[i as int];
                                assert(repr(st, c));
                                lemma_off(st, c.idx, st.n);
                                lemma_off_end(db);
                            }
                        }
                        return Err(e);
                    },
                };
                self.btree_search(child, key, db, budget - 1, Ghost(node.children[i as int]))
            },
            Page::Leaf(page) => {
                proof {
                    lemma_value_in_image(
                        st.d,
                        page.offset as int,
                        st.bs,
                        page.keys@,
                        key,
                    );
                    if ok && has_key(page.keys@, key) {
                        lemma_index_of_wf(page.keys@, st.bs, key);
                    }
                }
                page.lookup_value_alloc(key, &mut db.disk)
            },
        }
    }

    /// The value of `key`, if the tree has the key. The database is left
    /// as it was.
    pub fn lookup<D: Disk>(&self, key: Key, db: &mut Database<D>) -> (r: Result<
        Option<Vec<u8>>,
        Error,
    >)
        requires
            old(db).inv(),
        ensures
            final(db).disk.reliable() == old(db).disk.reliable(),
            final(db).disk@ == old(db).disk@,
            final(db).meta == old(db).meta,
            self.wf(old(db)) ==> match r {
                Ok(v) => {
                    &&& option_view(v) == self.value(old(db), key)
                    &&& (v is Some) == self.contents(old(db)).contains_key(key)
                    &&& v matches Some(value) ==> value@ == self.contents(old(db))[key]
                },
                Err(e) => io_failure(&old(db).disk, e),
            },
    {
        let ghost node = self.shape(db);
        let ghost st = store_of(db);
        proof {
            lemma_end_bounds(db.meta);
            if self.wf(db) {
                lemma_depth_of_tree(st, node);
                lemma_depth_more(node, st.n - 2, db.meta.num_blocks_allocated as int);
                lemma_off(st, node.idx, st.n);
                lemma_off_end(db);
            }
        }
        let page = match Page::load(self.root, db) {
            Ok(page) => page,
            Err(e) => {
                return Err(e);
            },
        };
        self.btree_search(page, key, db, db.meta.num_blocks_allocated, Ghost(node))
    }
}

} // verus!
