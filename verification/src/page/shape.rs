//! The shape of a tree on the device, and what a tree of that shape holds.

use crate::database::Database;
use crate::database::DatabaseMeta;
use crate::database::lemma_end_bounds;
use crate::database::max_device_size;
use crate::disk::Disk;
use crate::key::Key;
use crate::page::image;
use crate::page::internal_spec::internal_keys;
use crate::page::internal_spec::internal_pointers;
use crate::page::internal_spec::is_internal;
use crate::page::internal_spec::route;
use crate::page::leaf_page::LeafPageEntry;
use crate::page::leaf_spec::entries_value;
use crate::page::leaf_spec::entries_wf;
use crate::page::leaf_spec::has_key;
use crate::page::leaf_spec::index_of;
use crate::page::leaf_spec::is_leaf;
use crate::page::leaf_spec::leaf_entries;
use crate::page::leaf_spec::lemma_index_of_wf;
use vstd::prelude::*;
use vstd::set_lib::lemma_int_range;
use vstd::set_lib::set_int_range;

verus! {

/// What the pages of a database are read from: the bytes of the device,
/// the block size and the number of allocated blocks.
pub ghost struct Store {
    pub d: Seq<u8>,
    pub bs: int,
    pub n: int,
}

/// The offset of block `idx` where blocks have `bs` bytes.
#[verifier::opaque]
pub open spec fn block_off(bs: int, idx: int) -> int {
    idx * bs
}

impl Store {
    /// The offset of block `idx`.
    pub open spec fn off(self, idx: int) -> int {
        block_off(self.bs, idx)
    }

    /// The image of block `idx`.
    pub open spec fn img(self, idx: int) -> Seq<u8> {
        image(self.d, self.off(idx), self.bs)
    }

    /// The store is that of a usable database: its block size is
    /// supported, block 0 is allocated, and the allocated blocks end
    /// within the limit.
    pub open spec fn inv(self) -> bool {
        &&& 128 <= self.bs <= 0x8000_0000
        &&& self.n >= 1
        &&& self.off(self.n) <= max_device_size()
    }

    /// Block `idx` is allocated, is not block 0, and lies on the device.
    pub open spec fn has_page(self, idx: int) -> bool {
        &&& 1 <= idx < self.n
        &&& self.off(idx) + self.bs <= self.d.len()
    }
}

/// The store of a database.
pub open spec fn store_of<D: Disk>(db: &Database<D>) -> Store {
    Store { d: db.disk@, bs: db.spec_block_size(), n: db.meta.num_blocks_allocated as int }
}

/// The shape of a tree: the block of its root page and the shapes of the
/// subtrees under it, in the order of the root's child offsets. A leaf has
/// none.
pub ghost struct Node {
    pub idx: int,
    pub children: Seq<Node>,
}

/// The lower bound of the keys under child `i`: the separator before it.
pub open spec fn child_lo(keys: Seq<Key>, i: int, lo: int) -> int {
    if i == 0 {
        lo
    } else {
        keys[i - 1] as int
    }
}

/// The upper bound of the keys under child `i`: the separator behind it.
pub open spec fn child_hi(keys: Seq<Key>, i: int, hi: int) -> int {
    if i == keys.len() {
        hi
    } else {
        keys[i] as int
    }
}

/// The store holds a tree of this shape: every page of it is an allocated
/// block on the device and holds a valid page, a leaf where the shape has
/// no children, else an internal page whose child offsets are the blocks
/// of the shape's children.
pub open spec fn repr(st: Store, node: Node) -> bool
    decreases node,
{
    &&& st.has_page(node.idx)
    &&& if is_leaf(st.img(node.idx)) {
        node.children.len() == 0
    } else {
        &&& is_internal(st.img(node.idx))
        &&& node.children.len() == internal_pointers(st.img(node.idx)).len()
        &&& forall|i: int|
            0 <= i < node.children.len() ==> {
                &&& internal_pointers(st.img(node.idx))[i] == st.off(
                    (#[trigger] node.children[i]).idx,
                )
                &&& repr(st, node.children[i])
            }
    }
}

/// Block `p` is a page of the shape.
pub open spec fn owns(node: Node, p: int) -> bool
    decreases node,
{
    p == node.idx || exists|i: int|
        0 <= i < node.children.len() && owns(#[trigger] node.children[i], p)
}

/// No block is a page of the shape twice.
pub open spec fn disjoint(node: Node) -> bool
    decreases node,
{
    &&& forall|i: int|
        0 <= i < node.children.len() ==> !owns(#[trigger] node.children[i], node.idx) && disjoint(
            node.children[i],
        )
    &&& forall|i: int, j: int, p: int|
        0 <= i < j < node.children.len() ==> !(#[trigger] owns(node.children[i], p)
            && #[trigger] owns(node.children[j], p))
}

/// Every key of the tree is greater than `lo` and at most `hi`, and under
/// each child of an internal page are the keys between the separators
/// around it: greater than the one before, at most the one behind.
pub open spec fn in_range(st: Store, node: Node, lo: int, hi: int) -> bool
    decreases node,
{
    if is_leaf(st.img(node.idx)) {
        forall|j: int|
            0 <= j < leaf_entries(st.img(node.idx)).len() ==> lo < (#[trigger] leaf_entries(
                st.img(node.idx),
            )[j]).key <= hi
    } else {
        let keys = internal_keys(st.img(node.idx));
        &&& forall|j: int| 0 <= j < keys.len() ==> lo < #[trigger] keys[j] <= hi
        &&& forall|i: int|
            0 <= i < node.children.len() ==> in_range(
                st,
                #[trigger] node.children[i],
                child_lo(keys, i, lo),
                child_hi(keys, i, hi),
            )
    }
}

/// The value that the tree gives `key`: that of the leaf at the end of the
/// key's path.
pub open spec fn get(st: Store, node: Node, key: Key) -> Option<Seq<u8>>
    decreases node,
{
    if is_leaf(st.img(node.idx)) {
        entries_value(st.img(node.idx), 0, leaf_entries(st.img(node.idx)), key)
    } else {
        let i = route(internal_keys(st.img(node.idx)), key);
        if 0 <= i < node.children.len() {
            get(st, node.children[i], key)
        } else {
            None
        }
    }
}

/// No path of the shape passes more than `budget` internal pages.
pub open spec fn depth_ok(node: Node, budget: int) -> bool
    decreases node,
{
    node.children.len() == 0 || (budget > 0 && forall|i: int|
        0 <= i < node.children.len() ==> depth_ok(#[trigger] node.children[i], budget - 1))
}

/// Blocks follow one another on the device, block 0 first.
pub proof fn lemma_off(st: Store, i: int, j: int)
    requires
        st.bs > 0,
        i < j,
    ensures
        st.off(0) == 0,
        st.off(i) + st.bs <= st.off(j),
        st.off(i + 1) == st.off(i) + st.bs,
{
    reveal(block_off);
    assert(i * st.bs + st.bs <= j * st.bs) by (nonlinear_arith)
        requires
            st.bs > 0,
            i < j,
    ;
    assert((i + 1) * st.bs == i * st.bs + st.bs) by (nonlinear_arith);
}

/// The allocated blocks of a database end where its store has the block
/// behind the last.
pub proof fn lemma_off_end<D: Disk>(db: &Database<D>)
    ensures
        store_of(db).off(store_of(db).n) == db.spec_end(),
{
    reveal(block_off);
    reveal(DatabaseMeta::spec_end);
}

/// The store of a usable database is usable.
pub proof fn lemma_store_inv<D: Disk>(db: &Database<D>)
    requires
        db.inv(),
    ensures
        store_of(db).inv(),
{
    lemma_end_bounds(db.meta);
    lemma_off_end(db);
}

/// A value of a valid leaf reads the same from the device and from the
/// image of the leaf's page.
pub proof fn lemma_value_in_image(d: Seq<u8>, off: int, bs: int, s: Seq<LeafPageEntry>, k: Key)
    requires
        0 <= off,
        off + bs <= d.len(),
        entries_wf(s, bs),
    ensures
        entries_value(d, off, s, k) == entries_value(image(d, off, bs), 0, s, k),
{
    if has_key(s, k) {
        lemma_index_of_wf(s, bs, k);
        let e = s[index_of(s, k)];
        assert(d.subrange(off + e.offset, off + e.offset + e.value_len) =~= image(
            d,
            off,
            bs,
        ).subrange(0 + e.offset, 0 + e.offset + e.value_len));
    }
}

/// The pages of a shape read the same from two stores, and lie on the
/// device of the second.
pub open spec fn same_pages(st: Store, st2: Store, node: Node) -> bool {
    &&& st2.bs == st.bs
    &&& st2.n >= st.n
    &&& forall|p: int|
        #[trigger] owns(node, p) && st.has_page(p) ==> st2.img(p) == st.img(p) && st2.has_page(p)
}

/// A page of a child is a page of the parent.
pub proof fn lemma_owns_child(node: Node, i: int, p: int)
    requires
        0 <= i < node.children.len(),
        owns(node.children[i], p),
    ensures
        owns(node, p),
{
}

/// Every page of a tree on a store is an allocated block on its device.
pub proof fn lemma_owned_pages(st: Store, node: Node, p: int)
    requires
        repr(st, node),
        owns(node, p),
    ensures
        st.has_page(p),
    decreases node,
{
    if p != node.idx {
        let i = choose|i: int| 0 <= i < node.children.len() && owns(#[trigger] node.children[i], p);
        lemma_owned_pages(st, node.children[i], p);
    }
}

/// A tree whose pages read the same from another store is a tree on that
/// store too, within the same bounds and with the same values.
pub proof fn lemma_frame(st: Store, st2: Store, node: Node, lo: int, hi: int)
    requires
        repr(st, node),
        same_pages(st, st2, node),
    ensures
        repr(st2, node),
        in_range(st, node, lo, hi) ==> in_range(st2, node, lo, hi),
        forall|k: Key| #[trigger] get(st2, node, k) == get(st, node, k),
    decreases node,
{
    assert(owns(node, node.idx));
    assert(st2.img(node.idx) == st.img(node.idx));
    if !is_leaf(st.img(node.idx)) {
        let keys = internal_keys(st.img(node.idx));
        assert forall|i: int| 0 <= i < node.children.len() implies repr(
            st2,
            #[trigger] node.children[i],
        ) && (in_range(st, node.children[i], child_lo(keys, i, lo), child_hi(keys, i, hi))
            ==> in_range(st2, node.children[i], child_lo(keys, i, lo), child_hi(keys, i, hi))) by {
            lemma_same_pages_child(st, st2, node, i);
            lemma_frame(st, st2, node.children[i], child_lo(keys, i, lo), child_hi(keys, i, hi));
        }
        assert forall|k: Key| #[trigger] get(st2, node, k) == get(st, node, k) by {
            let i = route(keys, k);
            if 0 <= i < node.children.len() {
                lemma_same_pages_child(st, st2, node, i);
                lemma_frame(st, st2, node.children[i], lo, hi);
                assert(get(st2, node.children[i], k) == get(st, node.children[i], k));
            }
        }
    }
}

/// Where the pages of a shape read the same from two stores, so do those
/// of its children.
pub proof fn lemma_same_pages_child(st: Store, st2: Store, node: Node, i: int)
    requires
        same_pages(st, st2, node),
        0 <= i < node.children.len(),
    ensures
        same_pages(st, st2, node.children[i]),
{
    let c = node.children[i];
    assert forall|p: int| #[trigger] owns(c, p) && st.has_page(p) implies st2.img(p) == st.img(p)
        && st2.has_page(p) by {
        lemma_owns_child(node, i, p);
    }
}

/// A store holds at most one tree with a given root.
pub proof fn lemma_unique(st: Store, a: Node, b: Node)
    requires
        st.bs > 0,
        repr(st, a),
        repr(st, b),
        a.idx == b.idx,
    ensures
        a == b,
    decreases a,
{
    if is_leaf(st.img(a.idx)) {
        assert(a.children =~= b.children);
    } else {
        assert forall|i: int| 0 <= i < a.children.len() implies a.children[i] == b.children[i] by {
            let x = a.children[i];
            let y = b.children[i];
            if x.idx < y.idx {
                lemma_off(st, x.idx, y.idx);
            }
            if y.idx < x.idx {
                lemma_off(st, y.idx, x.idx);
            }
            lemma_unique(st, x, y);
        }
        assert(a.children =~= b.children);
    }
}

/// A shape without a page twice, all of whose pages are in a finite set,
/// is no deeper than the set is large.
pub proof fn lemma_depth(node: Node, pages: Set<int>)
    requires
        disjoint(node),
        pages.finite(),
        forall|p: int| #[trigger] owns(node, p) ==> pages.contains(p),
    ensures
        pages.len() >= 1,
        depth_ok(node, pages.len() - 1),
    decreases node,
{
    assert(owns(node, node.idx));
    let rest = pages.remove(node.idx);
    assert(pages.len() == rest.len() + 1);
    if node.children.len() > 0 {
        assert forall|i: int| 0 <= i < node.children.len() implies depth_ok(
            #[trigger] node.children[i],
            pages.len() - 2,
        ) && pages.len() >= 2 by {
            let c = node.children[i];
            assert forall|p: int| #[trigger] owns(c, p) implies rest.contains(p) by {
                lemma_owns_child(node, i, p);
            }
            lemma_depth(c, rest);
        }
        assert(depth_ok(node.children[0], pages.len() - 2));
    }
}

/// A tree on a store is no deeper than the store has blocks behind
/// block 0.
pub proof fn lemma_depth_of_tree(st: Store, node: Node)
    requires
        repr(st, node),
        disjoint(node),
    ensures
        st.n >= 2,
        depth_ok(node, st.n - 2),
{
    let pages = set_int_range(1, st.n);
    assert(st.has_page(node.idx));
    lemma_int_range(1, st.n);
    assert forall|p: int| #[trigger] owns(node, p) implies pages.contains(p) by {
        lemma_owned_pages(st, node, p);
    }
    lemma_depth(node, pages);
}

/// A shape that is no deeper than a budget is no deeper than a larger one.
pub proof fn lemma_depth_more(node: Node, budget: int, more: int)
    requires
        depth_ok(node, budget),
        budget <= more,
    ensures
        depth_ok(node, more),
    decreases node,
{
    if node.children.len() > 0 {
        assert forall|i: int| 0 <= i < node.children.len() implies depth_ok(
            #[trigger] node.children[i],
            more - 1,
        ) by {
            lemma_depth_more(node.children[i], budget - 1, more - 1);
        }
    }
}

/// Every leaf of the shape is `h` pages below its root.
pub open spec fn level(node: Node, h: int) -> bool
    decreases node,
{
    if node.children.len() == 0 {
        h == 0
    } else {
        h > 0 && forall|i: int|
            0 <= i < node.children.len() ==> level(#[trigger] node.children[i], h - 1)
    }
}

/// Where all leaves of the first shape are at one depth, those of the
/// second are at the same.
pub open spec fn keeps_level(x: Node, x2: Node) -> bool {
    forall|h: int| #[trigger] level(x, h) ==> level(x2, h)
}

/// A shape with a child replaced by one of the same depth is of the same
/// depth.
pub proof fn lemma_level_replace(parent: Node, i: int, c2: Node)
    requires
        0 <= i < parent.children.len(),
        keeps_level(parent.children[i], c2),
    ensures
        keeps_level(parent, Node { idx: parent.idx, children: parent.children.update(i, c2) }),
{
    let above = Node { idx: parent.idx, children: parent.children.update(i, c2) };
    assert forall|h: int| #[trigger] level(parent, h) implies level(above, h) by {
        assert forall|j: int| 0 <= j < above.children.len() implies level(
            #[trigger] above.children[j],
            h - 1,
        ) by {
            assert(level(parent.children[j], h - 1));
        }
    }
}

/// A shape with a child replaced by two of the same depth is of the same
/// depth.
pub proof fn lemma_level_split(parent: Node, i: int, left: Node, right: Node)
    requires
        0 <= i < parent.children.len(),
        keeps_level(parent.children[i], left),
        keeps_level(parent.children[i], right),
    ensures
        keeps_level(
            parent,
            Node { idx: parent.idx, children: parent.children.update(i, left).insert(i + 1, right) },
        ),
{
    let ch2 = parent.children.update(i, left).insert(i + 1, right);
    let above = Node { idx: parent.idx, children: ch2 };
    assert forall|h: int| #[trigger] level(parent, h) implies level(above, h) by {
        assert forall|j: int| 0 <= j < ch2.len() implies level(#[trigger] ch2[j], h - 1) by {
            assert(level(parent.children[i], h - 1));
            if j != i && j != i + 1 {
                let o = if j < i { j } else { j - 1 };
                assert(ch2[j] == parent.children[o]);
                assert(level(parent.children[o], h - 1));
            }
        }
    }
}

/// Shapes that keep the depth one after the other keep it.
pub proof fn lemma_level_trans(x: Node, x1: Node, x2: Node)
    requires
        keeps_level(x, x1),
        keeps_level(x1, x2),
    ensures
        keeps_level(x, x2),
{
    assert forall|h: int| #[trigger] level(x, h) implies level(x2, h) by {
        assert(level(x1, h));
    }
}

} // verus!
