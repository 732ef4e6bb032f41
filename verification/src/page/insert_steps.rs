//! What the steps of an insert have done to the tree, told from what they
//! have done to the device.

use crate::database::HEADER_LEN;
use crate::key::Key;
use crate::page::PageOffset;
use crate::page::frame::kept_below;
use crate::page::frame::kept_outside;
use crate::page::frame::lemma_frame_image;
use crate::page::image;
use crate::page::internal_spec::internal_keys;
use crate::page::internal_spec::internal_pointers;
use crate::page::internal_spec::is_internal;
use crate::page::internal_spec::is_route;
use crate::page::internal_spec::lemma_route;
use crate::page::internal_spec::route;
use crate::page::leaf_page::LeafPageEntry;
use crate::page::leaf_spec::entries_value;
use crate::page::leaf_spec::has_key;
use crate::page::leaf_spec::is_leaf;
use crate::page::leaf_spec::leaf_entries;
use crate::page::leaf_spec::lemma_index_of_sorted;
use crate::page::leaf_spec::lemma_sub_directory;
use crate::page::shape::Node;
use crate::page::shape::Store;
use crate::page::shape::child_hi;
use crate::page::shape::child_lo;
use crate::page::shape::depth_ok;
use crate::page::shape::disjoint;
use crate::page::shape::get;
use crate::page::shape::in_range;
use crate::page::shape::keeps_level;
use crate::page::shape::lemma_frame;
use crate::page::shape::lemma_level_split;
use crate::page::shape::lemma_off;
use crate::page::shape::lemma_owned_pages;
use crate::page::shape::lemma_value_in_image;
use crate::page::shape::level;
use crate::page::shape::owns;
use crate::page::shape::repr;
use crate::page::split_steps::lemma_split_internal;
use crate::page::split_steps::lemma_split_leaf;
use crate::page::steps::lemma_kept_pages;
use crate::page::steps::lemma_kept_pages_below;
use crate::page::steps::lemma_replace_child;
use crate::page::steps::sets;
use crate::page::steps::step;
use vstd::prelude::*;

verus! {

/// Two steps one after the other are one step.
pub proof fn lemma_step_trans(
    st: Store,
    st1: Store,
    st2: Store,
    x: Node,
    x1: Node,
    x2: Node,
    lo: int,
    hi: int,
)
    requires
        step(st, st1, x, x1, lo, hi),
        step(st1, st2, x1, x2, lo, hi),
    ensures
        step(st, st2, x, x2, lo, hi),
{
    assert forall|p: int| #[trigger] st.has_page(p) && !owns(x, p) implies st2.img(p) == st.img(p)
        && st2.has_page(p) by {
        assert(st1.has_page(p));
        if owns(x1, p) {
            assert(owns(x, p) || st.n <= p < st1.n);
        }
    }
    assert forall|p: int| #[trigger] owns(x2, p) implies owns(x, p) || st.n <= p < st2.n by {
        if owns(x1, p) {
            assert(owns(x, p) || st.n <= p < st1.n);
        }
    }
}

/// A tree that has not changed has made a step.
pub proof fn lemma_step_refl(st: Store, x: Node, lo: int, hi: int)
    requires
        repr(st, x),
        disjoint(x),
        in_range(st, x, lo, hi),
    ensures
        step(st, st, x, x, lo, hi),
        forall|key: Key| sets(st, st, x, x, key, #[trigger] get(st, x, key)),
{
}

/// What a change within a leaf's page has done to the leaf as a tree: the
/// leaf gives `key` the value `nv`, and every other key the value it had.
pub proof fn lemma_leaf_step(
    st: Store,
    st2: Store,
    x: Node,
    lo: int,
    hi: int,
    key: Key,
    nv: Option<Seq<u8>>,
)
    requires
        st.bs >= HEADER_LEN,
        repr(st, x),
        disjoint(x),
        in_range(st, x, lo, hi),
        is_leaf(st.img(x.idx)),
        lo < key <= hi,
        st2.bs == st.bs,
        st2.n == st.n,
        st2.d.len() == st.d.len(),
        kept_outside(st.d, st2.d, st.off(x.idx), st.off(x.idx) + st.bs),
        is_leaf(st2.img(x.idx)),
        forall|k: Key|
            #[trigger] entries_value(st2.d, st.off(x.idx), leaf_entries(st2.img(x.idx)), k)
                == if k == key {
                nv
            } else {
                entries_value(st.d, st.off(x.idx), leaf_entries(st.img(x.idx)), k)
            },
    ensures
        step(st, st2, x, x, lo, hi),
        sets(st, st2, x, x, key, nv),
{
    let off = st.off(x.idx);
    let s = leaf_entries(st.img(x.idx));
    let s2 = leaf_entries(st2.img(x.idx));
    lemma_off(st, 0, x.idx);
    lemma_kept_pages(st, st2, x.idx);
    assert(owns(x, x.idx));
    assert(repr(st2, x));
    assert forall|k: Key| #[trigger] get(st2, x, k) == if k == key {
        nv
    } else {
        get(st, x, k)
    } by {
        lemma_value_in_image(st2.d, off, st.bs, s2, k);
        lemma_value_in_image(st.d, off, st.bs, s, k);
        assert(entries_value(st2.d, off, s2, k) == if k == key {
            nv
        } else {
            entries_value(st.d, off, s, k)
        });
    }
    assert forall|j: int| 0 <= j < s2.len() implies lo < (#[trigger] s2[j]).key <= hi by {
        let k = s2[j].key;
        lemma_index_of_sorted(s2, j);
        assert(entries_value(st2.d, off, s2, k) is Some);
        assert(entries_value(st2.d, off, s2, k) == if k == key {
            nv
        } else {
            entries_value(st.d, off, s, k)
        });
        if k != key {
            assert(has_key(s, k));
            let x0 = choose|i: int| 0 <= i < s.len() && (#[trigger] s[i]).key == k;
            assert(lo < s[x0].key <= hi);
        }
    }
}

/// What splitting a leaf and putting the separator into its parent has
/// done to the tree under the parent: it holds what it held.
pub proof fn lemma_leaf_split_done(
    st: Store,
    st1: Store,
    st2: Store,
    parent: Node,
    i: int,
    s: Seq<LeafPageEntry>,
    split: int,
    rs: Seq<LeafPageEntry>,
    sep: Key,
    rp: PageOffset,
    lo: int,
    hi: int,
)
    requires
        st.bs >= HEADER_LEN,
        repr(st, parent),
        disjoint(parent),
        in_range(st, parent, lo, hi),
        is_internal(st.img(parent.idx)),
        0 <= i < parent.children.len(),
        is_leaf(st.img(parent.children[i].idx)),
        s == leaf_entries(st.img(parent.children[i].idx)),
        s.len() >= 2,
        split == (s.len() + 1) / 2,
        sep == s[split - 1].key,
        st1.bs == st.bs,
        st1.n == st.n + 1,
        st2.bs == st.bs,
        st2.n == st1.n,
        rp == st.off(st.n),
        kept_below(
            st.d,
            st1.d,
            st.off(st.n),
            st.off(parent.children[i].idx),
            st.off(parent.children[i].idx) + st.bs,
        ),
        st1.d.len() >= st.off(st.n) + st.bs,
        is_leaf(image(st1.d, st.off(parent.children[i].idx), st.bs)),
        leaf_entries(image(st1.d, st.off(parent.children[i].idx), st.bs)) == s.take(split),
        is_leaf(image(st1.d, st.off(st.n), st.bs)),
        leaf_entries(image(st1.d, st.off(st.n), st.bs)) == rs,
        forall|k: Key|
            #[trigger] entries_value(st1.d, st.off(parent.children[i].idx), s.take(split), k)
                == if has_key(s.take(split), k) {
                entries_value(st.d, st.off(parent.children[i].idx), s, k)
            } else {
                None
            },
        forall|k: Key|
            #[trigger] entries_value(st1.d, st.off(st.n), rs, k) == if has_key(s.skip(split), k) {
                entries_value(st.d, st.off(parent.children[i].idx), s, k)
            } else {
                None
            },
        kept_outside(st1.d, st2.d, st.off(parent.idx), st.off(parent.idx) + st.bs),
        st2.d.len() >= st1.d.len(),
        is_internal(image(st2.d, st.off(parent.idx), st.bs)),
        internal_keys(image(st2.d, st.off(parent.idx), st.bs)) == internal_keys(
            st.img(parent.idx),
        ).insert(i, sep),
        internal_pointers(image(st2.d, st.off(parent.idx), st.bs)) == internal_pointers(
            st.img(parent.idx),
        ).insert(i + 1, rp),
    ensures
        step(st, st2, parent, leaf_split_shape(parent, i, st.n), lo, hi),
        forall|k: Key|
            #[trigger] get(st2, leaf_split_shape(parent, i, st.n), k) == get(st, parent, k),
        image(st2.d, st.off(parent.children[i].idx), st.bs) == image(
            st1.d,
            st.off(parent.children[i].idx),
            st.bs,
        ),
        image(st2.d, st.off(st.n), st.bs) == image(st1.d, st.off(st.n), st.bs),
{
    let c = parent.children[i];
    let bs = st.bs;
    let loff = st.off(c.idx);
    let poff = st.off(parent.idx);
    let end = st.off(st.n);
    let t = s.take(split);
    assert(repr(st, c));
    assert(!is_leaf(st.img(parent.idx)));
    assert(!owns(c, parent.idx));
    assert(owns(c, c.idx));
    assert(c.idx != parent.idx);
    lemma_off(st, 0, c.idx);
    lemma_off(st, 0, parent.idx);
    lemma_off(st, c.idx, st.n);
    lemma_off(st, parent.idx, st.n);
    lemma_off(st, st.n, st.n + 1);
    if c.idx < parent.idx {
        lemma_off(st, c.idx, parent.idx);
    } else {
        lemma_off(st, parent.idx, c.idx);
    }
    lemma_kept_pages_below(st, st1, c.idx);
    lemma_kept_pages(st1, st2, parent.idx);
    assert(st1.has_page(parent.idx));
    assert forall|p: int| #[trigger] st.has_page(p) && p != parent.idx && p != c.idx implies st2.img(
        p,
    ) == st.img(p) && st2.has_page(p) by {
        assert(st1.has_page(p));
    }
    lemma_frame_image(st1.d, st2.d, poff, poff + bs, loff, bs);
    lemma_frame_image(st1.d, st2.d, poff, poff + bs, end, bs);
    assert(st2.img(c.idx) == image(st1.d, loff, bs));
    assert(st2.img(st.n) == image(st1.d, end, bs));
    assert(t =~= s.subrange(0, split));
    lemma_sub_directory(s, bs, 0, split);
    assert forall|k: Key| #[trigger]
        entries_value(st2.img(c.idx), 0, t, k) == if has_key(t, k) {
            entries_value(st.img(c.idx), 0, s, k)
        } else {
            None
        } by {
        lemma_value_in_image(st1.d, loff, bs, t, k);
        lemma_value_in_image(st.d, loff, bs, s, k);
        assert(entries_value(st1.d, loff, t, k) == if has_key(t, k) {
            entries_value(st.d, loff, s, k)
        } else {
            None
        });
    }
    assert forall|k: Key| #[trigger]
        entries_value(st2.img(st.n), 0, leaf_entries(st2.img(st.n)), k) == if has_key(
            s.skip(split),
            k,
        ) {
            entries_value(st.img(c.idx), 0, s, k)
        } else {
            None
        } by {
        lemma_value_in_image(st1.d, end, bs, rs, k);
        lemma_value_in_image(st.d, loff, bs, s, k);
        assert(entries_value(st1.d, end, rs, k) == if has_key(s.skip(split), k) {
            entries_value(st.d, loff, s, k)
        } else {
            None
        });
    }
    lemma_split_leaf(st, st2, parent, i, split, sep, rp, lo, hi);
}

/// The shape of a tree once the leaf that is its child `i` has been split
/// and block `nb` has become the leaf's right sibling.
pub open spec fn leaf_split_shape(parent: Node, i: int, nb: int) -> Node {
    Node {
        idx: parent.idx,
        children: parent.children.update(
            i,
            Node { idx: parent.children[i].idx, children: Seq::empty() },
        ).insert(i + 1, Node { idx: nb, children: Seq::empty() }),
    }
}

/// The shape of a tree once the internal page that is its child `i` has
/// been split before its child `m` and block `nb` has become the page's
/// right sibling.
pub open spec fn internal_split_shape(parent: Node, i: int, m: int, nb: int) -> Node {
    Node {
        idx: parent.idx,
        children: parent.children.update(
            i,
            Node { idx: parent.children[i].idx, children: parent.children[i].children.take(m) },
        ).insert(i + 1, Node { idx: nb, children: parent.children[i].children.skip(m) }),
    }
}

/// What splitting an internal page and putting the separator into its
/// parent has done to the tree under the parent: it holds what it held.
pub proof fn lemma_internal_split_done(
    st: Store,
    st1: Store,
    st2: Store,
    parent: Node,
    i: int,
    ck: Seq<Key>,
    cp: Seq<PageOffset>,
    m: int,
    sep: Key,
    rp: PageOffset,
    lo: int,
    hi: int,
)
    requires
        st.bs >= HEADER_LEN,
        repr(st, parent),
        disjoint(parent),
        in_range(st, parent, lo, hi),
        is_internal(st.img(parent.idx)),
        0 <= i < parent.children.len(),
        is_internal(st.img(parent.children[i].idx)),
        ck == internal_keys(st.img(parent.children[i].idx)),
        cp == internal_pointers(st.img(parent.children[i].idx)),
        ck.len() >= 2,
        m == ck.len() as int / 2,
        sep == ck[m - 1],
        st1.bs == st.bs,
        st1.n == st.n + 1,
        st2.bs == st.bs,
        st2.n == st1.n,
        rp == st.off(st.n),
        kept_below(
            st.d,
            st1.d,
            st.off(st.n),
            st.off(parent.children[i].idx),
            st.off(parent.children[i].idx) + st.bs,
        ),
        st1.d.len() >= st.off(st.n) + st.bs,
        is_internal(image(st1.d, st.off(parent.children[i].idx), st.bs)),
        internal_keys(image(st1.d, st.off(parent.children[i].idx), st.bs)) == ck.take(m - 1),
        internal_pointers(image(st1.d, st.off(parent.children[i].idx), st.bs)) == cp.take(m),
        is_internal(image(st1.d, st.off(st.n), st.bs)),
        internal_keys(image(st1.d, st.off(st.n), st.bs)) == ck.skip(m),
        internal_pointers(image(st1.d, st.off(st.n), st.bs)) == cp.skip(m),
        kept_outside(st1.d, st2.d, st.off(parent.idx), st.off(parent.idx) + st.bs),
        st2.d.len() >= st1.d.len(),
        is_internal(image(st2.d, st.off(parent.idx), st.bs)),
        internal_keys(image(st2.d, st.off(parent.idx), st.bs)) == internal_keys(
            st.img(parent.idx),
        ).insert(i, sep),
        internal_pointers(image(st2.d, st.off(parent.idx), st.bs)) == internal_pointers(
            st.img(parent.idx),
        ).insert(i + 1, rp),
    ensures
        step(st, st2, parent, internal_split_shape(parent, i, m, st.n), lo, hi),
        forall|k: Key|
            #[trigger] get(st2, internal_split_shape(parent, i, m, st.n), k) == get(st, parent, k),
        image(st2.d, st.off(parent.children[i].idx), st.bs) == image(
            st1.d,
            st.off(parent.children[i].idx),
            st.bs,
        ),
        image(st2.d, st.off(st.n), st.bs) == image(st1.d, st.off(st.n), st.bs),
{
    let c = parent.children[i];
    let bs = st.bs;
    let loff = st.off(c.idx);
    let poff = st.off(parent.idx);
    let end = st.off(st.n);
    assert(repr(st, c));
    assert(!is_leaf(st.img(parent.idx)));
    assert(!owns(c, parent.idx));
    assert(owns(c, c.idx));
    assert(c.idx != parent.idx);
    lemma_off(st, 0, c.idx);
    lemma_off(st, 0, parent.idx);
    lemma_off(st, c.idx, st.n);
    lemma_off(st, parent.idx, st.n);
    lemma_off(st, st.n, st.n + 1);
    if c.idx < parent.idx {
        lemma_off(st, c.idx, parent.idx);
    } else {
        lemma_off(st, parent.idx, c.idx);
    }
    lemma_kept_pages_below(st, st1, c.idx);
    lemma_kept_pages(st1, st2, parent.idx);
    assert(st1.has_page(parent.idx));
    assert forall|p: int| #[trigger] st.has_page(p) && p != parent.idx && p != c.idx implies st2.img(
        p,
    ) == st.img(p) && st2.has_page(p) by {
        assert(st1.has_page(p));
    }
    lemma_frame_image(st1.d, st2.d, poff, poff + bs, loff, bs);
    lemma_frame_image(st1.d, st2.d, poff, poff + bs, end, bs);
    assert(st2.img(c.idx) == image(st1.d, loff, bs));
    assert(st2.img(st.n) == image(st1.d, end, bs));
    lemma_split_internal(st, st2, parent, i, m, sep, rp, lo, hi);
}

/// The halves of a split child are no deeper than the child was.
pub proof fn lemma_split_depth(parent: Node, i: int, m: int, nb: int, budget: int)
    requires
        depth_ok(parent, budget),
        0 <= i < parent.children.len(),
        0 <= m <= parent.children[i].children.len(),
    ensures
        depth_ok(leaf_split_shape(parent, i, nb), budget),
        parent.children[i].children.len() > 0 ==> depth_ok(
            internal_split_shape(parent, i, m, nb),
            budget,
        ),
{
    let c = parent.children[i];
    let a = leaf_split_shape(parent, i, nb);
    assert forall|j: int| 0 <= j < a.children.len() implies depth_ok(
        #[trigger] a.children[j],
        budget - 1,
    ) by {
        if j != i && j != i + 1 {
            let o = if j < i { j } else { j - 1 };
            assert(a.children[j] == parent.children[o]);
        }
    }
    if c.children.len() > 0 {
        let b = internal_split_shape(parent, i, m, nb);
        assert(depth_ok(c, budget - 1));
        let l = b.children[i];
        let r = b.children[i + 1];
        assert forall|j: int| 0 <= j < l.children.len() implies depth_ok(
            #[trigger] l.children[j],
            budget - 2,
        ) by {
            assert(l.children[j] == c.children[j]);
        }
        assert forall|j: int| 0 <= j < r.children.len() implies depth_ok(
            #[trigger] r.children[j],
            budget - 2,
        ) by {
            assert(r.children[j] == c.children[m + j]);
        }
        assert forall|j: int| 0 <= j < b.children.len() implies depth_ok(
            #[trigger] b.children[j],
            budget - 1,
        ) by {
            if j != i && j != i + 1 {
                let o = if j < i { j } else { j - 1 };
                assert(b.children[j] == parent.children[o]);
            }
        }
    }
}

/// What an insert under the child where the key belongs has done to the
/// tree, after a split or without one.
pub proof fn lemma_insert_done(
    st: Store,
    st1: Store,
    st2: Store,
    shape: Node,
    shape1: Node,
    idx: int,
    c2: Node,
    lo: int,
    hi: int,
    key: Key,
    nv: Option<Seq<u8>>,
)
    requires
        st.bs > 0,
        st1.bs > 0,
        step(st, st1, shape, shape1, lo, hi),
        forall|k: Key| #[trigger] get(st1, shape1, k) == get(st, shape, k),
        !is_leaf(st1.img(shape1.idx)),
        0 <= idx < shape1.children.len(),
        idx == route(internal_keys(st1.img(shape1.idx)), key),
        step(
            st1,
            st2,
            shape1.children[idx],
            c2,
            child_lo(internal_keys(st1.img(shape1.idx)), idx, lo),
            child_hi(internal_keys(st1.img(shape1.idx)), idx, hi),
        ),
        sets(st1, st2, shape1.children[idx], c2, key, nv),
    ensures
        step(
            st,
            st2,
            shape,
            Node { idx: shape1.idx, children: shape1.children.update(idx, c2) },
            lo,
            hi,
        ),
        sets(
            st,
            st2,
            shape,
            Node { idx: shape1.idx, children: shape1.children.update(idx, c2) },
            key,
            nv,
        ),
        get(st1, shape1.children[idx], key) == get(st, shape, key),
{
    let shape2 = Node { idx: shape1.idx, children: shape1.children.update(idx, c2) };
    lemma_replace_child(st1, st2, shape1, idx, c2, lo, hi, key, nv);
    lemma_step_trans(st, st1, st2, shape, shape1, shape2, lo, hi);
    assert forall|k: Key| #[trigger] get(st2, shape2, k) == if k == key {
        nv
    } else {
        get(st, shape, k)
    } by {
        assert(get(st1, shape1, k) == get(st, shape, k));
    }
    assert(get(st1, shape1, key) == get(st, shape, key));
}

/// The shape of a tree under a new root whose one child is the old root.
pub open spec fn new_root_shape(shape: Node, nb: int) -> Node {
    Node { idx: nb, children: seq![shape] }
}

/// What a new root above the old one makes of a tree: a tree that holds
/// what it held.
pub proof fn lemma_new_root(st: Store, st1: Store, shape: Node, rp: PageOffset, lo: int, hi: int)
    requires
        st.bs >= HEADER_LEN,
        repr(st, shape),
        disjoint(shape),
        in_range(st, shape, lo, hi),
        rp == st.off(shape.idx),
        st1.bs == st.bs,
        st1.n == st.n + 1,
        kept_below(st.d, st1.d, st.off(st.n), st.off(st.n), st.off(st.n)),
        st1.has_page(st.n),
        is_internal(st1.img(st.n)),
        internal_keys(st1.img(st.n)) == Seq::<Key>::empty(),
        internal_pointers(st1.img(st.n)) == seq![rp],
    ensures
        step(st, st1, shape, shape, lo, hi),
        repr(st1, new_root_shape(shape, st.n)),
        disjoint(new_root_shape(shape, st.n)),
        in_range(st1, new_root_shape(shape, st.n), lo, hi),
        forall|k: Key| #[trigger] get(st1, new_root_shape(shape, st.n), k) == get(st, shape, k),
        forall|p: int|
            #[trigger] owns(new_root_shape(shape, st.n), p) ==> owns(shape, p) || p == st.n,
        forall|p: int|
            #[trigger] st.has_page(p) ==> st1.img(p) == st.img(p) && st1.has_page(p),
{
    let root = new_root_shape(shape, st.n);
    let keys = internal_keys(st1.img(st.n));
    assert(kept_below(st.d, st1.d, st.off(st.n), st.off(st.n), st.off(st.n) + st.bs)) by {
        reveal(kept_below);
    }
    lemma_kept_pages_below(st, st1, st.n);
    assert forall|p: int| #[trigger] st.has_page(p) implies st1.img(p) == st.img(p)
        && st1.has_page(p) by {}
    assert forall|p: int| #[trigger] owns(shape, p) && st.has_page(p) implies st1.img(p) == st.img(
        p,
    ) && st1.has_page(p) by {}
    lemma_frame(st, st1, shape, lo, hi);
    assert(!is_leaf(st1.img(st.n)));
    assert(root.children[0] == shape);
    assert(repr(st1, root));
    assert forall|p: int| #[trigger] owns(root, p) implies owns(shape, p) || p == st.n by {
        if p != root.idx {
            let j = choose|j: int| 0 <= j < root.children.len() && owns(
                #[trigger] root.children[j],
                p,
            );
        }
    }
    if owns(shape, st.n) {
        lemma_owned_pages(st, shape, st.n);
    }
    assert(disjoint(root));
    assert(child_lo(keys, 0, lo) == lo && child_hi(keys, 0, hi) == hi);
    assert(in_range(st1, root, lo, hi));
    assert forall|k: Key| #[trigger] get(st1, root, k) == get(st, shape, k) by {
        assert(is_route(keys, k, 0));
        lemma_route(keys, k, 0);
        assert(root.children[0] == shape);
        assert(get(st1, shape, k) == get(st, shape, k));
        assert(get(st1, root, k) == get(st1, root.children[0], k));
    }
}

/// The halves of a split child are as deep as the child was, and so is
/// the tree above them.
pub proof fn lemma_split_level(parent: Node, i: int, m: int, nb: int)
    requires
        0 <= i < parent.children.len(),
        0 < m < parent.children[i].children.len(),
    ensures
        keeps_level(parent, internal_split_shape(parent, i, m, nb)),
{
    let c = parent.children[i];
    let left = Node { idx: c.idx, children: c.children.take(m) };
    let right = Node { idx: nb, children: c.children.skip(m) };
    assert forall|h: int| #[trigger] level(c, h) implies level(left, h) && level(right, h) by {
        assert forall|j: int| 0 <= j < left.children.len() implies level(
            #[trigger] left.children[j],
            h - 1,
        ) by {
            assert(left.children[j] == c.children[j]);
            assert(level(c.children[j], h - 1));
        }
        assert forall|j: int| 0 <= j < right.children.len() implies level(
            #[trigger] right.children[j],
            h - 1,
        ) by {
            assert(right.children[j] == c.children[m + j]);
            assert(level(c.children[m + j], h - 1));
        }
    }
    lemma_level_split(parent, i, left, right);
}

/// The leaves of a split leaf are as deep as the leaf was, and so is the
/// tree above them.
pub proof fn lemma_split_leaf_level(parent: Node, i: int, nb: int)
    requires
        0 <= i < parent.children.len(),
        parent.children[i].children.len() == 0,
    ensures
        keeps_level(parent, leaf_split_shape(parent, i, nb)),
{
    let c = parent.children[i];
    let left = Node { idx: c.idx, children: Seq::empty() };
    let right = Node { idx: nb, children: Seq::empty() };
    lemma_level_split(parent, i, left, right);
}

/// A tree under a new root is one page deeper.
pub proof fn lemma_new_root_level(shape: Node, nb: int, h: int)
    requires
        level(shape, h),
    ensures
        level(new_root_shape(shape, nb), h + 1),
{
    let root = new_root_shape(shape, nb);
    assert forall|j: int| 0 <= j < root.children.len() implies level(
        #[trigger] root.children[j],
        h,
    ) by {
        assert(root.children[j] == shape);
    }
}

} // verus!
