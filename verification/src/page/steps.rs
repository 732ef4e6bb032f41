//! How a change to one subtree changes the tree above it.

use crate::database::HEADER_LEN;
use crate::key::Key;
use crate::page::frame::kept_below;
use crate::page::frame::kept_outside;
use crate::page::frame::lemma_frame_image;
use crate::page::image;
use crate::page::internal_spec::internal_keys;
use crate::page::internal_spec::internal_pointers;
use crate::page::internal_spec::route;
use crate::page::leaf_spec::is_leaf;
use crate::page::shape::Node;
use crate::page::shape::Store;
use crate::page::shape::child_hi;
use crate::page::shape::child_lo;
use crate::page::shape::disjoint;
use crate::page::shape::get;
use crate::page::shape::in_range;
use crate::page::shape::lemma_frame;
use crate::page::shape::lemma_off;
use crate::page::shape::lemma_owned_pages;
use crate::page::shape::lemma_owns_child;
use crate::page::shape::owns;
use crate::page::shape::repr;
use vstd::prelude::*;

verus! {

/// The second store has every page of the first that is no page of `node`
/// as the first has it.
pub open spec fn kept_outside_of(st: Store, st2: Store, node: Node) -> bool {
    &&& st2.bs == st.bs
    &&& st2.n >= st.n
    &&& forall|p: int|
        #[trigger] st.has_page(p) && !owns(node, p) ==> st2.img(p) == st.img(p) && st2.has_page(p)
}

/// The second store has every page of the first but page `q` as the first
/// has it.
pub open spec fn kept_but(st: Store, st2: Store, q: int) -> bool {
    &&& st2.bs == st.bs
    &&& st2.n >= st.n
    &&& forall|p: int|
        #[trigger] st.has_page(p) && p != q ==> st2.img(p) == st.img(p) && st2.has_page(p)
}

/// A subtree of shape `x` has become one of shape `x2` with the same root,
/// which is a well-formed tree within the same bounds; no page outside the
/// old subtree has changed, and the new one has pages of the old one and
/// new blocks only.
pub open spec fn step(st: Store, st2: Store, x: Node, x2: Node, lo: int, hi: int) -> bool {
    &&& x2.idx == x.idx
    &&& repr(st2, x2)
    &&& disjoint(x2)
    &&& in_range(st2, x2, lo, hi)
    &&& kept_outside_of(st, st2, x)
    &&& forall|p: int| #[trigger] owns(x2, p) ==> owns(x, p) || st.n <= p < st2.n
}

/// The new subtree gives `key` the value `nv`, and every other key the
/// value that the old one gave it.
pub open spec fn sets(
    st: Store,
    st2: Store,
    x: Node,
    x2: Node,
    key: Key,
    nv: Option<Seq<u8>>,
) -> bool {
    forall|k: Key|
        #[trigger] get(st2, x2, k) == if k == key {
            nv
        } else {
            get(st, x, k)
        }
}

/// Where a device has changed only within one page, below the end of the
/// allocated blocks, every other page reads as before.
pub proof fn lemma_kept_pages(st: Store, st2: Store, q: int)
    requires
        st.bs >= HEADER_LEN,
        st2.bs == st.bs,
        st2.n >= st.n,
        0 <= q,
        kept_outside(st.d, st2.d, st.off(q), st.off(q) + st.bs),
    ensures
        kept_but(st, st2, q),
{
    reveal(kept_outside);
    assert forall|p: int| #[trigger] st.has_page(p) && p != q implies st2.img(p) == st.img(p)
        && st2.has_page(p) by {
        lemma_off(st, 0, p);
        if p < q {
            lemma_off(st, p, q);
        } else {
            lemma_off(st, q, p);
        }
        lemma_frame_image(st.d, st2.d, st.off(q), st.off(q) + st.bs, st.off(p), st.bs);
    }
}

/// Where a device has changed only in the file header, within one page,
/// and behind the end of the allocated blocks, every other page reads as
/// before.
pub proof fn lemma_kept_pages_below(st: Store, st2: Store, q: int)
    requires
        st.bs >= HEADER_LEN,
        st2.bs == st.bs,
        st2.n >= st.n,
        0 <= q,
        kept_below(st.d, st2.d, st.off(st.n), st.off(q), st.off(q) + st.bs),
    ensures
        kept_but(st, st2, q),
{
    reveal(kept_below);
    assert forall|p: int| #[trigger] st.has_page(p) && p != q implies st2.img(p) == st.img(p)
        && st2.has_page(p) by {
        lemma_off(st, 0, p);
        lemma_off(st, p, st.n);
        if p < q {
            lemma_off(st, p, q);
        } else {
            lemma_off(st, q, p);
        }
        assert(image(st2.d, st.off(p), st.bs) =~= image(st.d, st.off(p), st.bs));
    }
}

/// A tree that has none of the pages of a changed subtree is as it was.
pub proof fn lemma_frame_outside(st: Store, st2: Store, x: Node, other: Node, lo: int, hi: int)
    requires
        repr(st, other),
        kept_outside_of(st, st2, x),
        forall|p: int| !(#[trigger] owns(other, p) && owns(x, p)),
    ensures
        repr(st2, other),
        in_range(st, other, lo, hi) ==> in_range(st2, other, lo, hi),
        forall|k: Key| #[trigger] get(st2, other, k) == get(st, other, k),
{
    assert forall|p: int| #[trigger] owns(other, p) && st.has_page(p) implies st2.img(p) == st.img(
        p,
    ) && st2.has_page(p) by {
        assert(!(owns(other, p) && owns(x, p)));
    }
    lemma_frame(st, st2, other, lo, hi);
}

/// A change to the subtree under which a key is looked for is the same
/// change to the tree above it: the parent with the new subtree in place
/// of the old is a well-formed tree that gives the key the new value.
pub proof fn lemma_replace_child(
    st: Store,
    st2: Store,
    parent: Node,
    i: int,
    c2: Node,
    lo: int,
    hi: int,
    key: Key,
    nv: Option<Seq<u8>>,
)
    requires
        st.bs > 0,
        repr(st, parent),
        disjoint(parent),
        in_range(st, parent, lo, hi),
        !is_leaf(st.img(parent.idx)),
        0 <= i < parent.children.len(),
        i == route(internal_keys(st.img(parent.idx)), key),
        step(
            st,
            st2,
            parent.children[i],
            c2,
            child_lo(internal_keys(st.img(parent.idx)), i, lo),
            child_hi(internal_keys(st.img(parent.idx)), i, hi),
        ),
        sets(st, st2, parent.children[i], c2, key, nv),
    ensures
        step(
            st,
            st2,
            parent,
            Node { idx: parent.idx, children: parent.children.update(i, c2) },
            lo,
            hi,
        ),
        sets(
            st,
            st2,
            parent,
            Node { idx: parent.idx, children: parent.children.update(i, c2) },
            key,
            nv,
        ),
{
    let c = parent.children[i];
    let above = Node { idx: parent.idx, children: parent.children.update(i, c2) };
    let keys = internal_keys(st.img(parent.idx));
    // the parent's own page
    assert(st.has_page(parent.idx) && !owns(c, parent.idx));
    assert(st2.img(parent.idx) == st.img(parent.idx));
    // the other children
    assert forall|j: int| 0 <= j < parent.children.len() && j != i implies repr(
        st2,
        #[trigger] parent.children[j],
    ) && in_range(st2, parent.children[j], child_lo(keys, j, lo), child_hi(keys, j, hi)) && (forall|
        k: Key,
    | #[trigger] get(st2, parent.children[j], k) == get(st, parent.children[j], k)) by {
        lemma_siblings_apart(parent, i, j);
        lemma_frame_outside(
            st,
            st2,
            c,
            parent.children[j],
            child_lo(keys, j, lo),
            child_hi(keys, j, hi),
        );
    }
    assert forall|j: int| 0 <= j < above.children.len() implies internal_pointers(st2.img(above.idx))[j]
        == st2.off((#[trigger] above.children[j]).idx) && repr(st2, above.children[j]) by {
        if j != i {
            assert(above.children[j] == parent.children[j]);
        }
    }
    assert(repr(st2, above));
    assert forall|j: int| 0 <= j < above.children.len() implies in_range(
        st2,
        #[trigger] above.children[j],
        child_lo(keys, j, lo),
        child_hi(keys, j, hi),
    ) by {
        if j != i {
            assert(above.children[j] == parent.children[j]);
        }
    }
    assert(in_range(st2, above, lo, hi));
    // no page twice
    assert forall|p: int| #[trigger] owns(above, p) implies owns(parent, p) || st.n <= p < st2.n by {
        if p != above.idx {
            let j = choose|j: int| 0 <= j < above.children.len() && owns(#[trigger] above.children[j], p);
            if j == i {
                if owns(c, p) {
                    lemma_owns_child(parent, i, p);
                }
            } else {
                assert(above.children[j] == parent.children[j]);
                lemma_owns_child(parent, j, p);
            }
        }
    }
    assert forall|j: int| 0 <= j < above.children.len() implies !owns(
        #[trigger] above.children[j],
        above.idx,
    ) && disjoint(above.children[j]) by {
        if j != i {
            assert(above.children[j] == parent.children[j]);
        }
    }
    assert forall|a: int, b: int, p: int| 0 <= a < b < above.children.len() implies !(#[trigger] owns(
        above.children[a],
        p,
    ) && #[trigger] owns(above.children[b], p)) by {
        if owns(above.children[a], p) && owns(above.children[b], p) {
            if a != i && b != i {
                assert(above.children[a] == parent.children[a]);
                assert(above.children[b] == parent.children[b]);
                assert(!(owns(parent.children[a], p) && owns(parent.children[b], p)));
            } else {
                let o = if a == i { b } else { a };
                assert(above.children[o] == parent.children[o]);
                lemma_owned_pages(st, parent.children[o], p);
                lemma_siblings_apart(parent, i, o);
                assert(!(owns(parent.children[o], p) && owns(c, p)));
            }
        }
    }
    assert(disjoint(above));
    assert forall|p: int| #[trigger] st.has_page(p) && !owns(parent, p) implies st2.img(p)
        == st.img(p) && st2.has_page(p) by {
        if owns(c, p) {
            lemma_owns_child(parent, i, p);
        }
    }
    // what the tree holds
    assert forall|k: Key| #[trigger] get(st2, above, k) == if k == key {
        nv
    } else {
        get(st, parent, k)
    } by {
        let r = route(keys, k);
        if 0 <= r < above.children.len() {
            if r != i {
                assert(above.children[r] == parent.children[r]);
                assert(get(st2, parent.children[r], k) == get(st, parent.children[r], k));
            } else {
                assert(get(st2, c2, k) == if k == key {
                    nv
                } else {
                    get(st, c, k)
                });
            }
        }
    }
}

/// Two children of a shape without a page twice have no page in common.
pub proof fn lemma_siblings_apart(parent: Node, i: int, j: int)
    requires
        disjoint(parent),
        0 <= i < parent.children.len(),
        0 <= j < parent.children.len(),
        i != j,
    ensures
        forall|p: int| !(#[trigger] owns(parent.children[j], p) && owns(parent.children[i], p)),
{
    assert forall|p: int| !(#[trigger] owns(parent.children[j], p) && owns(
        parent.children[i],
        p,
    )) by {
        if i < j {
            assert(!(owns(parent.children[i], p) && owns(parent.children[j], p)));
        } else {
            assert(!(owns(parent.children[j], p) && owns(parent.children[i], p)));
        }
    }
}

} // verus!
