//! What the steps of a delete have done to the tree.

use crate::key::Key;
use crate::page::image;
use crate::page::insert_steps::lemma_step_trans;
use crate::page::internal_spec::internal_keys;
use crate::page::internal_spec::internal_pointers;
use crate::page::internal_spec::is_internal;
use crate::page::internal_spec::is_route;
use crate::page::internal_spec::keys_sorted;
use crate::page::internal_spec::lemma_keys_remove_sorted;
use crate::page::internal_spec::lemma_route;
use crate::page::internal_spec::route;
use crate::page::leaf_spec::has_key;
use crate::page::leaf_spec::is_leaf;
use crate::page::leaf_spec::leaf_entries;
use crate::page::leaf_spec::lemma_index_of_wf;
use crate::page::shape::Node;
use crate::page::shape::Store;
use crate::page::shape::child_hi;
use crate::page::shape::child_lo;
use crate::page::shape::depth_ok;
use crate::page::shape::disjoint;
use crate::page::shape::get;
use crate::page::shape::in_range;
use crate::page::shape::lemma_frame;
use crate::page::shape::lemma_owns_child;
use crate::page::shape::owns;
use crate::page::shape::repr;
use crate::page::split_steps::lemma_route_exists;
use crate::page::steps::kept_but;
use crate::page::steps::lemma_replace_child;
use crate::page::steps::sets;
use crate::page::steps::step;
use vstd::prelude::*;

verus! {

/// A tree has values only for keys within its bounds.
pub proof fn lemma_get_in_range(st: Store, x: Node, lo: int, hi: int, k: Key)
    requires
        repr(st, x),
        in_range(st, x, lo, hi),
        get(st, x, k) is Some,
    ensures
        lo < k <= hi,
    decreases x,
{
    if is_leaf(st.img(x.idx)) {
        let s = leaf_entries(st.img(x.idx));
        assert(has_key(s, k));
        lemma_index_of_wf(s, st.img(x.idx).len() as int, k);
    } else {
        let keys = internal_keys(st.img(x.idx));
        let r = route(keys, k);
        lemma_route_exists(keys, k);
        lemma_get_in_range(st, x.children[r], child_lo(keys, r, lo), child_hi(keys, r, hi), k);
    }
}

/// A tree within bounds is within wider bounds.
pub proof fn lemma_in_range_widen(st: Store, x: Node, lo: int, hi: int, lo2: int, hi2: int)
    requires
        in_range(st, x, lo, hi),
        lo2 <= lo,
        hi <= hi2,
    ensures
        in_range(st, x, lo2, hi2),
    decreases x,
{
    if !is_leaf(st.img(x.idx)) {
        let keys = internal_keys(st.img(x.idx));
        assert forall|i: int| 0 <= i < x.children.len() implies in_range(
            st,
            #[trigger] x.children[i],
            child_lo(keys, i, lo2),
            child_hi(keys, i, hi2),
        ) by {
            lemma_in_range_widen(
                st,
                x.children[i],
                child_lo(keys, i, lo),
                child_hi(keys, i, hi),
                child_lo(keys, i, lo2),
                child_hi(keys, i, hi2),
            );
        }
    }
}

/// The index of the separator that leaves with child `i`: the one before
/// the child, or the first for the first child.
pub open spec fn unlinked_key(i: int) -> int {
    if i == 0 {
        0
    } else {
        i - 1
    }
}

/// The shape of a tree without its child `i`.
pub open spec fn unlinked_shape(parent: Node, i: int) -> Node {
    Node { idx: parent.idx, children: parent.children.remove(i) }
}

/// What unlinking an empty leaf has done to the tree above it: the tree
/// holds what it held.
pub proof fn lemma_unlink(st: Store, st2: Store, parent: Node, i: int, lo: int, hi: int)
    requires
        st.bs > 0,
        repr(st, parent),
        disjoint(parent),
        in_range(st, parent, lo, hi),
        is_internal(st.img(parent.idx)),
        internal_keys(st.img(parent.idx)).len() >= 1,
        0 <= i < parent.children.len(),
        is_leaf(st.img(parent.children[i].idx)),
        leaf_entries(st.img(parent.children[i].idx)).len() == 0,
        st2.n == st.n,
        kept_but(st, st2, parent.idx),
        st2.has_page(parent.idx),
        is_internal(st2.img(parent.idx)),
        internal_keys(st2.img(parent.idx)) == internal_keys(st.img(parent.idx)).remove(
            unlinked_key(i),
        ),
        internal_pointers(st2.img(parent.idx)) == internal_pointers(st.img(parent.idx)).remove(i),
    ensures
        step(st, st2, parent, unlinked_shape(parent, i), lo, hi),
        forall|k: Key| #[trigger] get(st2, unlinked_shape(parent, i), k) == get(st, parent, k),
{
    let c = parent.children[i];
    let above = unlinked_shape(parent, i);
    let ch2 = above.children;
    let keys = internal_keys(st.img(parent.idx));
    let keys2 = internal_keys(st2.img(parent.idx));
    let ptrs = internal_pointers(st.img(parent.idx));
    let ptrs2 = internal_pointers(st2.img(parent.idx));
    let j = unlinked_key(i);
    assert(!is_leaf(st.img(parent.idx)));
    assert(!is_leaf(st2.img(parent.idx)));
    assert forall|a: int| 0 <= a < ch2.len() implies ({
        let o = if a < i { a } else { a + 1 };
        &&& #[trigger] ch2[a] == parent.children[o]
        &&& ptrs2[a] == ptrs[o]
        &&& repr(st2, ch2[a])
        &&& child_lo(keys2, a, lo) <= child_lo(keys, o, lo)
        &&& child_hi(keys, o, hi) <= child_hi(keys2, a, hi)
        &&& in_range(st2, ch2[a], child_lo(keys2, a, lo), child_hi(keys2, a, hi))
        &&& forall|k: Key| #[trigger] get(st2, ch2[a], k) == get(st, parent.children[o], k)
    }) by {
        let o = if a < i { a } else { a + 1 };
        let x = parent.children[o];
        assert forall|p: int| #[trigger] owns(x, p) && st.has_page(p) implies st2.img(p) == st.img(
            p,
        ) && st2.has_page(p) by {
            assert(!owns(x, parent.idx));
        }
        lemma_frame(st, st2, x, child_lo(keys, o, lo), child_hi(keys, o, hi));
        if a > 0 {
            let b = a - 1;
            assert(keys2[b] == if b < j { keys[b] } else { keys[b + 1] });
            if b >= j && o - 1 < b + 1 {
                assert(keys[o - 1] < keys[b + 1]);
            }
        } else if o > 0 {
            assert(lo < keys[o - 1]);
        }
        if a < keys2.len() {
            assert(keys2[a] == if a < j { keys[a] } else { keys[a + 1] });
            if a >= j && o < a + 1 {
                assert(keys[o] < keys[a + 1]);
            }
        } else if o < keys.len() {
            assert(keys[o] <= hi);
        }
        lemma_in_range_widen(
            st2,
            x,
            child_lo(keys, o, lo),
            child_hi(keys, o, hi),
            child_lo(keys2, a, lo),
            child_hi(keys2, a, hi),
        );
    }
    assert(repr(st2, above));
    assert forall|a: int| 0 <= a < keys2.len() implies lo < #[trigger] keys2[a] <= hi by {
        assert(keys2[a] == if a < j { keys[a] } else { keys[a + 1] });
    }
    assert(in_range(st2, above, lo, hi));
    assert forall|p: int| #[trigger] owns(above, p) implies owns(parent, p) by {
        if p != above.idx {
            let a = choose|a: int| 0 <= a < ch2.len() && owns(#[trigger] ch2[a], p);
            let o = if a < i { a } else { a + 1 };
            assert(ch2[a] == parent.children[o]);
            lemma_owns_child(parent, o, p);
        }
    }
    assert forall|a: int| 0 <= a < ch2.len() implies !owns(#[trigger] ch2[a], above.idx) && disjoint(
        ch2[a],
    ) by {
        let o = if a < i { a } else { a + 1 };
        assert(ch2[a] == parent.children[o]);
    }
    assert forall|a: int, b: int, p: int| 0 <= a < b < ch2.len() implies !(#[trigger] owns(
        ch2[a],
        p,
    ) && #[trigger] owns(ch2[b], p)) by {
        let oa = if a < i { a } else { a + 1 };
        let ob = if b < i { b } else { b + 1 };
        assert(ch2[a] == parent.children[oa] && ch2[b] == parent.children[ob]);
        assert(!(owns(parent.children[oa], p) && owns(parent.children[ob], p)));
    }
    assert(disjoint(above));
    assert forall|p: int| #[trigger] st.has_page(p) && !owns(parent, p) implies st2.img(p)
        == st.img(p) && st2.has_page(p) by {}
    assert forall|k: Key| #[trigger] get(st2, above, k) == get(st, parent, k) by {
        lemma_route_unlinked(keys, i, k);
        let r = route(keys, k);
        let r2 = route(keys2, k);
        let o = if r2 < i { r2 } else { r2 + 1 };
        assert(ch2.len() == keys2.len() + 1);
        assert(ch2[r2] == parent.children[o]);
        assert(get(st2, ch2[r2], k) == get(st, parent.children[o], k));
        assert(get(st2, above, k) == get(st2, above.children[r2], k));
        assert(get(st, parent, k) == get(st, parent.children[r], k));
        if o != r {
            // the key was looked for in the leaf that is gone, and the
            // child that it has come to has no value for it
            assert(r == i);
            if get(st, parent.children[o], k) is Some {
                lemma_get_in_range(
                    st,
                    parent.children[o],
                    child_lo(keys, o, lo),
                    child_hi(keys, o, hi),
                    k,
                );
                if o < r {
                    assert(keys[o] < k);
                } else {
                    assert(keys[o - 1] >= k);
                }
            }
            lemma_empty_leaf(st, c, k);
        }
    }
}

/// An empty leaf gives no key a value.
pub proof fn lemma_empty_leaf(st: Store, x: Node, k: Key)
    requires
        is_leaf(st.img(x.idx)),
        leaf_entries(st.img(x.idx)).len() == 0,
    ensures
        get(st, x, k) is None,
{
    assert(!has_key(leaf_entries(st.img(x.idx)), k));
}

/// Where a key is looked for once child `i` and its separator have left:
/// under the child where it was looked for, unless that was child `i`.
pub proof fn lemma_route_unlinked(keys: Seq<Key>, i: int, k: Key)
    requires
        keys_sorted(keys),
        keys.len() >= 1,
        0 <= i <= keys.len(),
    ensures
        keys_sorted(keys.remove(unlinked_key(i))),
        is_route(keys, k, route(keys, k)),
        is_route(keys.remove(unlinked_key(i)), k, route(keys.remove(unlinked_key(i)), k)),
        route(keys, k) < i ==> route(keys.remove(unlinked_key(i)), k) == route(keys, k),
        route(keys, k) > i ==> route(keys.remove(unlinked_key(i)), k) == route(keys, k) - 1,
{
    let j = unlinked_key(i);
    let keys2 = keys.remove(j);
    lemma_keys_remove_sorted(keys, j);
    lemma_route_exists(keys, k);
    lemma_route_exists(keys2, k);
    let r = route(keys, k);
    assert forall|a: int| 0 <= a < keys2.len() implies keys2[a] == if a < j {
        keys[a]
    } else {
        keys[a + 1]
    } by {}
    if r < i {
        assert forall|a: int| 0 <= a < r implies keys2[a] < k by {
            assert(keys[a] < k);
        }
        assert forall|a: int| r <= a < keys2.len() implies keys2[a] >= k by {
            if a >= j {
                assert(keys[r] >= k);
                if r < a + 1 {
                    assert(keys[r] < keys[a + 1]);
                }
            } else {
                assert(keys[a] >= k);
            }
        }
        lemma_route(keys2, k, r);
    } else if r > i {
        assert forall|a: int| 0 <= a < r - 1 implies keys2[a] < k by {
            if a < j {
                assert(keys[a] < k);
            } else {
                assert(keys[a + 1] < k);
            }
        }
        assert forall|a: int| r - 1 <= a < keys2.len() implies keys2[a] >= k by {
            assert(keys[a + 1] >= k);
        }
        lemma_route(keys2, k, r - 1);
    }
}

/// The shape of a tree whose child `i` has given way to its own one child.
pub open spec fn collapsed_shape(parent: Node, i: int) -> Node {
    Node {
        idx: parent.idx,
        children: parent.children.update(i, parent.children[i].children[0]),
    }
}

/// What putting the one child of a child without keys in the child's
/// place has done to the tree above it: the tree holds what it held.
pub proof fn lemma_collapse(st: Store, st2: Store, parent: Node, i: int, lo: int, hi: int)
    requires
        st.bs > 0,
        repr(st, parent),
        disjoint(parent),
        in_range(st, parent, lo, hi),
        is_internal(st.img(parent.idx)),
        0 <= i < parent.children.len(),
        is_internal(st.img(parent.children[i].idx)),
        internal_keys(st.img(parent.children[i].idx)).len() == 0,
        st2.n == st.n,
        kept_but(st, st2, parent.idx),
        st2.has_page(parent.idx),
        is_internal(st2.img(parent.idx)),
        internal_keys(st2.img(parent.idx)) == internal_keys(st.img(parent.idx)),
        internal_pointers(st2.img(parent.idx)) == internal_pointers(st.img(parent.idx)).update(
            i,
            internal_pointers(st.img(parent.children[i].idx))[0],
        ),
    ensures
        step(st, st2, parent, collapsed_shape(parent, i), lo, hi),
        forall|k: Key| #[trigger] get(st2, collapsed_shape(parent, i), k) == get(st, parent, k),
{
    let c = parent.children[i];
    let g = c.children[0];
    let above = collapsed_shape(parent, i);
    let ch2 = above.children;
    let keys = internal_keys(st.img(parent.idx));
    let ck = internal_keys(st.img(c.idx));
    let clo = child_lo(keys, i, lo);
    let chi = child_hi(keys, i, hi);
    assert(!is_leaf(st.img(parent.idx)));
    assert(!is_leaf(st2.img(parent.idx)));
    assert(!is_leaf(st.img(c.idx)));
    assert(repr(st, c) && disjoint(c) && in_range(st, c, clo, chi));
    assert(repr(st, g));
    assert(child_lo(ck, 0, clo) == clo && child_hi(ck, 0, chi) == chi);
    assert(in_range(st, g, clo, chi));
    assert forall|p: int| #[trigger] owns(g, p) implies owns(c, p) && p != parent.idx && owns(
        parent,
        p,
    ) by {
        lemma_owns_child(c, 0, p);
        lemma_owns_child(parent, i, p);
    }
    assert forall|a: int| 0 <= a < ch2.len() implies repr(st2, #[trigger] ch2[a]) && in_range(
        st2,
        ch2[a],
        child_lo(keys, a, lo),
        child_hi(keys, a, hi),
    ) && (forall|k: Key| #[trigger]
        get(st2, ch2[a], k) == get(st, if a == i { g } else { parent.children[a] }, k)) by {
        let x = ch2[a];
        assert forall|p: int| #[trigger] owns(x, p) && st.has_page(p) implies st2.img(p) == st.img(
            p,
        ) && st2.has_page(p) by {
            if a != i {
                assert(!owns(parent.children[a], parent.idx));
            }
        }
        lemma_frame(st, st2, x, child_lo(keys, a, lo), child_hi(keys, a, hi));
    }
    assert(repr(st2, above));
    assert(in_range(st2, above, lo, hi));
    assert forall|p: int| #[trigger] owns(above, p) implies owns(parent, p) by {
        if p != above.idx {
            let a = choose|a: int| 0 <= a < ch2.len() && owns(#[trigger] ch2[a], p);
            if a != i {
                lemma_owns_child(parent, a, p);
            }
        }
    }
    assert forall|a: int| 0 <= a < ch2.len() implies !owns(#[trigger] ch2[a], above.idx) && disjoint(
        ch2[a],
    ) by {}
    assert forall|a: int, b: int, p: int| 0 <= a < b < ch2.len() implies !(#[trigger] owns(
        ch2[a],
        p,
    ) && #[trigger] owns(ch2[b], p)) by {
        if owns(ch2[a], p) && owns(ch2[b], p) {
            if a == i {
                assert(owns(c, p));
            }
            if b == i {
                assert(owns(c, p));
            }
            assert(!(owns(parent.children[a], p) && owns(parent.children[b], p)));
        }
    }
    assert(disjoint(above));
    assert forall|p: int| #[trigger] st.has_page(p) && !owns(parent, p) implies st2.img(p)
        == st.img(p) && st2.has_page(p) by {}
    assert forall|k: Key| #[trigger] get(st2, above, k) == get(st, parent, k) by {
        let r = route(keys, k);
        if 0 <= r < ch2.len() {
            assert(get(st2, above, k) == get(st2, above.children[r], k));
            assert(get(st, parent, k) == get(st, parent.children[r], k));
            assert(get(st2, ch2[r], k) == get(st, if r == i { g } else { parent.children[r] }, k));
            if r == i {
                assert(is_route(ck, k, 0));
                lemma_route(ck, k, 0);
                assert(c.children.len() == 1);
                assert(get(st, c, k) == get(st, c.children[0], k));
            }
        }
    }
}

/// A delete under a child and what follows it in the parent are one
/// delete from the tree.
pub proof fn lemma_delete_done(
    st: Store,
    st1: Store,
    st2: Store,
    shape: Node,
    shape1: Node,
    shape2: Node,
    lo: int,
    hi: int,
    key: Key,
)
    requires
        step(st, st1, shape, shape1, lo, hi),
        sets(st, st1, shape, shape1, key, None),
        step(st1, st2, shape1, shape2, lo, hi),
        forall|k: Key| #[trigger] get(st2, shape2, k) == get(st1, shape1, k),
    ensures
        step(st, st2, shape, shape2, lo, hi),
        sets(st, st2, shape, shape2, key, None),
{
    lemma_step_trans(st, st1, st2, shape, shape1, shape2, lo, hi);
    assert forall|k: Key| #[trigger] get(st2, shape2, k) == if k == key {
        None
    } else {
        get(st, shape, k)
    } by {
        assert(get(st1, shape1, k) == if k == key {
            None
        } else {
            get(st, shape, k)
        });
    }
}

/// A delete under the child where the key belongs is a delete from the
/// tree.
pub proof fn lemma_delete_under_child(
    st: Store,
    st1: Store,
    shape: Node,
    i: int,
    c1: Node,
    lo: int,
    hi: int,
    key: Key,
)
    requires
        st.bs > 0,
        repr(st, shape),
        disjoint(shape),
        in_range(st, shape, lo, hi),
        !is_leaf(st.img(shape.idx)),
        0 <= i < shape.children.len(),
        i == route(internal_keys(st.img(shape.idx)), key),
        step(
            st,
            st1,
            shape.children[i],
            c1,
            child_lo(internal_keys(st.img(shape.idx)), i, lo),
            child_hi(internal_keys(st.img(shape.idx)), i, hi),
        ),
        sets(st, st1, shape.children[i], c1, key, None),
    ensures
        step(
            st,
            st1,
            shape,
            Node { idx: shape.idx, children: shape.children.update(i, c1) },
            lo,
            hi,
        ),
        sets(
            st,
            st1,
            shape,
            Node { idx: shape.idx, children: shape.children.update(i, c1) },
            key,
            None,
        ),
        st1.img(shape.idx) == st.img(shape.idx),
        st1.has_page(shape.idx),
        c1 == shape.children[i] ==> shape == (Node {
            idx: shape.idx,
            children: shape.children.update(i, c1),
        }),
{
    lemma_replace_child(st, st1, shape, i, c1, lo, hi, key, None);
    assert(st.has_page(shape.idx) && !owns(shape.children[i], shape.idx));
    if c1 == shape.children[i] {
        assert(shape.children.update(i, c1) =~= shape.children);
    }
}

/// A root without keys gives way to its one child: the child is a
/// well-formed tree that holds what the tree held.
pub proof fn lemma_root_collapse(st: Store, shape: Node, lo: int, hi: int)
    requires
        repr(st, shape),
        disjoint(shape),
        in_range(st, shape, lo, hi),
        is_internal(st.img(shape.idx)),
        internal_keys(st.img(shape.idx)).len() == 0,
    ensures
        shape.children.len() == 1,
        internal_pointers(st.img(shape.idx))[0] == st.off(shape.children[0].idx),
        repr(st, shape.children[0]),
        disjoint(shape.children[0]),
        in_range(st, shape.children[0], lo, hi),
        forall|k: Key| #[trigger] get(st, shape.children[0], k) == get(st, shape, k),
        forall|p: int| #[trigger] owns(shape.children[0], p) ==> owns(shape, p),
        forall|b: int| #[trigger] depth_ok(shape, b) ==> depth_ok(shape.children[0], b - 1),
{
    let keys = internal_keys(st.img(shape.idx));
    assert(!is_leaf(st.img(shape.idx)));
    assert(shape.children.len() == 1);
    let g = shape.children[0];
    assert(child_lo(keys, 0, lo) == lo && child_hi(keys, 0, hi) == hi);
    assert forall|k: Key| #[trigger] get(st, g, k) == get(st, shape, k) by {
        assert(is_route(keys, k, 0));
        lemma_route(keys, k, 0);
    }
    assert forall|p: int| #[trigger] owns(g, p) implies owns(shape, p) by {
        lemma_owns_child(shape, 0, p);
    }
}

/// The tree that is left of a tree when every internal page without keys
/// at its top has given way to its one child.
pub open spec fn settled(st: Store, x: Node) -> Node
    decreases x,
{
    if !is_leaf(st.img(x.idx)) && internal_keys(st.img(x.idx)).len() == 0 && x.children.len()
        > 0 {
        settled(st, x.children[0])
    } else {
        x
    }
}

/// The offset of the first page that is a leaf or has a key, on the way
/// from the page at `off` down the first child offsets, over no more than
/// `fuel` pages.
pub open spec fn settled_root(d: Seq<u8>, bs: int, off: int, fuel: nat) -> int
    decreases fuel,
{
    let img = image(d, off, bs);
    if fuel > 0 && is_internal(img) && internal_keys(img).len() == 0 {
        settled_root(d, bs, internal_pointers(img)[0] as int, (fuel - 1) as nat)
    } else {
        off
    }
}

/// The root of what is left of a tree is found by way of the first child
/// offsets, and is a leaf or has a key.
pub proof fn lemma_settled_root(st: Store, x: Node, budget: int, fuel: nat)
    requires
        repr(st, x),
        depth_ok(x, budget),
        budget <= fuel,
    ensures
        st.off(settled(st, x).idx) == settled_root(st.d, st.bs, st.off(x.idx), fuel),
        is_leaf(st.img(settled(st, x).idx)) || internal_keys(st.img(settled(st, x).idx)).len() > 0,
    decreases x,
{
    let img = st.img(x.idx);
    if !is_leaf(img) && internal_keys(img).len() == 0 {
        assert(x.children.len() == 1);
        assert(repr(st, x.children[0]));
        lemma_settled_root(st, x.children[0], budget - 1, (fuel - 1) as nat);
    }
}

} // verus!
