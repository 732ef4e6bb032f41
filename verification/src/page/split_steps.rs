//! What splitting a child does to the tree above it.

use crate::key::Key;
use crate::page::internal_spec::internal_keys;
use crate::page::internal_spec::internal_pointers;
use crate::page::internal_spec::is_internal;
use crate::page::internal_spec::is_route;
use crate::page::internal_spec::keys_sorted;
use crate::page::internal_spec::lemma_route;
use crate::page::internal_spec::route;
use crate::page::leaf_spec::entries_value;
use crate::page::leaf_spec::entries_wf;
use crate::page::leaf_spec::has_key;
use crate::page::leaf_spec::index_of;
use crate::page::leaf_spec::is_leaf;
use crate::page::leaf_spec::leaf_entries;
use crate::page::leaf_spec::lemma_index_of_sorted;
use crate::page::leaf_spec::lemma_index_of_wf;
use crate::page::leaf_spec::lemma_sub_directory;
use crate::page::shape::Node;
use crate::page::shape::Store;
use crate::page::shape::child_hi;
use crate::page::shape::child_lo;
use crate::page::shape::disjoint;
use crate::page::shape::get;
use crate::page::shape::in_range;
use crate::page::shape::lemma_frame;
use crate::page::shape::lemma_owned_pages;
use crate::page::shape::lemma_owns_child;
use crate::page::shape::owns;
use crate::page::shape::repr;
use crate::page::steps::lemma_siblings_apart;
use crate::page::steps::step;
use vstd::prelude::*;

verus! {

/// Among sorted keys every key has its child.
pub proof fn lemma_route_exists(keys: Seq<Key>, key: Key)
    requires
        keys_sorted(keys),
    ensures
        is_route(keys, key, route(keys, key)),
    decreases keys.len(),
{
    if keys.len() == 0 {
        assert(is_route(keys, key, 0));
    } else {
        let t = keys.drop_last();
        assert forall|a: int, b: int| 0 <= a < b < t.len() implies t[a] < t[b] by {
            assert(t[a] == keys[a] && t[b] == keys[b]);
        }
        lemma_route_exists(t, key);
        let r = route(t, key);
        if r < t.len() {
            assert forall|j: int| r <= j < keys.len() implies keys[j] >= key by {
                if j < t.len() {
                    assert(t[j] >= key);
                } else {
                    assert(t[r] >= key);
                    assert(keys[r] < keys[j]);
                }
            }
            assert forall|j: int| 0 <= j < r implies keys[j] < key by {
                assert(t[j] < key);
            }
            assert(is_route(keys, key, r));
        } else {
            assert forall|j: int| 0 <= j < t.len() implies keys[j] < key by {
                assert(t[j] < key);
            }
            if keys.last() < key {
                assert(is_route(keys, key, keys.len() as int));
            } else {
                assert(is_route(keys, key, t.len() as int));
            }
        }
    }
}

/// Where a key's child is once a separator has been put before child `i`.
pub proof fn lemma_route_insert(keys: Seq<Key>, i: int, sep: Key, key: Key)
    requires
        keys_sorted(keys),
        keys_sorted(keys.insert(i, sep)),
        0 <= i <= keys.len(),
    ensures
        is_route(keys, key, route(keys, key)),
        route(keys.insert(i, sep), key) == if route(keys, key) < i {
            route(keys, key)
        } else if route(keys, key) > i {
            route(keys, key) + 1
        } else if key <= sep {
            i
        } else {
            i + 1
        },
{
    lemma_route_exists(keys, key);
    let r = route(keys, key);
    let k2 = keys.insert(i, sep);
    assert(k2[i] == sep);
    let r2 = if r < i {
        r
    } else if r > i {
        r + 1
    } else if key <= sep {
        i
    } else {
        i + 1
    };
    assert forall|j: int| 0 <= j < r2 implies k2[j] < key by {
        if j < i {
            assert(k2[j] == keys[j]);
            assert(keys[j] < key);
        } else if j > i {
            assert(k2[j] == keys[j - 1]);
            assert(keys[j - 1] < key);
        } else {
            if r > i {
                assert(k2[i + 1] == keys[i]);
                assert(k2[i] < k2[i + 1]);
                assert(keys[i] < key);
            }
        }
    }
    assert forall|j: int| r2 <= j < k2.len() implies k2[j] >= key by {
        if j < i {
            assert(k2[j] == keys[j]);
            assert(keys[j] >= key);
        } else if j > i {
            assert(k2[j] == keys[j - 1]);
            assert(keys[j - 1] >= key);
        } else {
            if r < i {
                assert(k2[r] == keys[r]);
                assert(k2[r] < k2[i]);
                assert(keys[r] >= key);
            }
        }
    }
    lemma_route(k2, key, r2);
}

/// The bounds of the children once a separator has been put before child
/// `i`.
pub proof fn lemma_bounds_insert(keys: Seq<Key>, i: int, sep: Key, lo: int, hi: int, j: int)
    requires
        0 <= i <= keys.len(),
        0 <= j <= keys.len() + 1,
    ensures
        j < i ==> child_lo(keys.insert(i, sep), j, lo) == child_lo(keys, j, lo) && child_hi(
            keys.insert(i, sep),
            j,
            hi,
        ) == child_hi(keys, j, hi),
        j == i ==> child_lo(keys.insert(i, sep), j, lo) == child_lo(keys, i, lo) && child_hi(
            keys.insert(i, sep),
            j,
            hi,
        ) == sep,
        j == i + 1 ==> child_lo(keys.insert(i, sep), j, lo) == sep && child_hi(
            keys.insert(i, sep),
            j,
            hi,
        ) == child_hi(keys, i, hi),
        j > i + 1 ==> child_lo(keys.insert(i, sep), j, lo) == child_lo(keys, j - 1, lo)
            && child_hi(keys.insert(i, sep), j, hi) == child_hi(keys, j - 1, hi),
{
    let k2 = keys.insert(i, sep);
    assert(k2[i] == sep);
    if j > 0 && j - 1 < i {
        assert(k2[j - 1] == keys[j - 1]);
    }
    if j < i {
        assert(k2[j] == keys[j]);
    }
    if j > i && j < k2.len() {
        assert(k2[j] == keys[j - 1]);
    }
    if j - 1 > i {
        assert(k2[j - 1] == keys[j - 2]);
    }
}

/// The tree above a child that has been split: `left` has taken the
/// child's place and `right` the place behind it, with the separator
/// between them. Where the halves hold what the child held, each on its
/// side of the separator, the tree holds what it held.
pub proof fn lemma_split_parent(
    st: Store,
    st2: Store,
    parent: Node,
    i: int,
    left: Node,
    right: Node,
    sep: Key,
    rp: u64,
    lo: int,
    hi: int,
)
    requires
        st.bs > 0,
        repr(st, parent),
        disjoint(parent),
        in_range(st, parent, lo, hi),
        is_internal(st.img(parent.idx)),
        0 <= i < parent.children.len(),
        st2.bs == st.bs,
        st2.n > st.n,
        forall|p: int|
            #[trigger] st.has_page(p) && p != parent.idx && !owns(parent.children[i], p)
                ==> st2.img(p) == st.img(p) && st2.has_page(p),
        st2.has_page(parent.idx),
        is_internal(st2.img(parent.idx)),
        internal_keys(st2.img(parent.idx)) == internal_keys(st.img(parent.idx)).insert(i, sep),
        internal_pointers(st2.img(parent.idx)) == internal_pointers(st.img(parent.idx)).insert(
            i + 1,
            rp,
        ),
        rp == st.off(right.idx),
        left.idx == parent.children[i].idx,
        st.n <= right.idx < st2.n,
        repr(st2, left),
        repr(st2, right),
        disjoint(left),
        disjoint(right),
        forall|p: int| #[trigger] owns(left, p) ==> owns(parent.children[i], p),
        forall|p: int| #[trigger] owns(right, p) ==> owns(parent.children[i], p) || p == right.idx,
        forall|p: int| !(#[trigger] owns(left, p) && owns(right, p)),
        child_lo(internal_keys(st.img(parent.idx)), i, lo) < sep <= child_hi(
            internal_keys(st.img(parent.idx)),
            i,
            hi,
        ),
        in_range(st2, left, child_lo(internal_keys(st.img(parent.idx)), i, lo), sep as int),
        in_range(st2, right, sep as int, child_hi(internal_keys(st.img(parent.idx)), i, hi)),
        forall|k: Key| k <= sep ==> #[trigger] get(st2, left, k) == get(st, parent.children[i], k),
        forall|k: Key| k > sep ==> #[trigger] get(st2, right, k) == get(st, parent.children[i], k),
    ensures
        step(
            st,
            st2,
            parent,
            Node { idx: parent.idx, children: parent.children.update(i, left).insert(
                i + 1,
                right,
            ) },
            lo,
            hi,
        ),
        forall|k: Key|
            #[trigger] get(
                st2,
                Node {
                    idx: parent.idx,
                    children: parent.children.update(i, left).insert(i + 1, right),
                },
                k,
            ) == get(st, parent, k),
{
    let c = parent.children[i];
    let ch2 = parent.children.update(i, left).insert(i + 1, right);
    let above = Node { idx: parent.idx, children: ch2 };
    let keys = internal_keys(st.img(parent.idx));
    let keys2 = internal_keys(st2.img(parent.idx));
    let ptrs = internal_pointers(st.img(parent.idx));
    let ptrs2 = internal_pointers(st2.img(parent.idx));
    assert(!is_leaf(st.img(parent.idx)));
    assert(!is_leaf(st2.img(parent.idx)));
    assert(ch2[i] == left && ch2[i + 1] == right);
    // where the old children are
    assert forall|j: int| 0 <= j < ch2.len() && j != i && j != i + 1 implies ({
        let o = if j < i { j } else { j - 1 };
        &&& #[trigger] ch2[j] == parent.children[o]
        &&& ptrs2[j] == ptrs[o]
        &&& repr(st2, ch2[j])
        &&& in_range(st2, ch2[j], child_lo(keys2, j, lo), child_hi(keys2, j, hi))
        &&& forall|k: Key| #[trigger] get(st2, ch2[j], k) == get(st, parent.children[o], k)
    }) by {
        let o = if j < i { j } else { j - 1 };
        let x = parent.children[o];
        lemma_siblings_apart(parent, i, o);
        assert forall|p: int| #[trigger] owns(x, p) && st.has_page(p) implies st2.img(p) == st.img(
            p,
        ) && st2.has_page(p) by {
            assert(!(owns(x, p) && owns(c, p)));
            assert(!owns(x, parent.idx));
        }
        lemma_bounds_insert(keys, i, sep, lo, hi, j);
        lemma_frame(st, st2, x, child_lo(keys, o, lo), child_hi(keys, o, hi));
    }
    assert forall|j: int| 0 <= j < ch2.len() implies ptrs2[j] == st2.off((#[trigger] ch2[j]).idx)
        && repr(st2, ch2[j]) by {
        if j == i {
            assert(ptrs2[i] == ptrs[i]);
        }
    }
    assert(repr(st2, above));
    assert forall|j: int| 0 <= j < keys2.len() implies lo < #[trigger] keys2[j] <= hi by {
        if j < i {
            assert(keys2[j] == keys[j]);
        } else if j > i {
            assert(keys2[j] == keys[j - 1]);
        } else {
            if i > 0 {
                assert(lo < keys[i - 1]);
            }
            if i < keys.len() {
                assert(keys[i] <= hi);
            }
        }
    }
    assert forall|j: int| 0 <= j < ch2.len() implies in_range(
        st2,
        #[trigger] ch2[j],
        child_lo(keys2, j, lo),
        child_hi(keys2, j, hi),
    ) by {
        lemma_bounds_insert(keys, i, sep, lo, hi, j);
    }
    assert(in_range(st2, above, lo, hi));
    // no page twice
    assert forall|p: int| #[trigger] owns(above, p) implies owns(parent, p) || st.n <= p < st2.n by {
        if p != above.idx {
            let j = choose|j: int| 0 <= j < ch2.len() && owns(#[trigger] ch2[j], p);
            if j == i {
                lemma_owns_child(parent, i, p);
            } else if j == i + 1 {
                if p != right.idx {
                    lemma_owns_child(parent, i, p);
                }
            } else {
                let o = if j < i { j } else { j - 1 };
                assert(ch2[j] == parent.children[o]);
                lemma_owns_child(parent, o, p);
            }
        }
    }
    assert forall|j: int| 0 <= j < ch2.len() implies !owns(#[trigger] ch2[j], above.idx) && disjoint(
        ch2[j],
    ) by {
        if j == i {
        } else if j == i + 1 {
        } else {
            let o = if j < i { j } else { j - 1 };
            assert(ch2[j] == parent.children[o]);
        }
    }
    assert forall|a: int, b: int, p: int| 0 <= a < b < ch2.len() implies !(#[trigger] owns(
        ch2[a],
        p,
    ) && #[trigger] owns(ch2[b], p)) by {
        if owns(ch2[a], p) && owns(ch2[b], p) {
            let halves = (a == i || a == i + 1) && (b == i || b == i + 1);
            if halves {
                assert(!(owns(left, p) && owns(right, p)));
            } else if a != i && a != i + 1 && b != i && b != i + 1 {
                let oa = if a < i { a } else { a - 1 };
                let ob = if b < i { b } else { b - 1 };
                assert(ch2[a] == parent.children[oa] && ch2[b] == parent.children[ob]);
                assert(!(owns(parent.children[oa], p) && owns(parent.children[ob], p)));
            } else {
                let (h, x) = if a == i || a == i + 1 { (a, b) } else { (b, a) };
                let ox = if x < i { x } else { x - 1 };
                assert(ch2[x] == parent.children[ox]);
                lemma_owned_pages(st, parent.children[ox], p);
                lemma_siblings_apart(parent, i, ox);
                assert(!(owns(parent.children[ox], p) && owns(c, p)));
            }
        }
    }
    assert(disjoint(above));
    assert forall|p: int| #[trigger] st.has_page(p) && !owns(parent, p) implies st2.img(p)
        == st.img(p) && st2.has_page(p) by {
        if owns(c, p) {
            lemma_owns_child(parent, i, p);
        }
    }
    // what the tree holds
    assert forall|k: Key| #[trigger] get(st2, above, k) == get(st, parent, k) by {
        lemma_route_insert(keys, i, sep, k);
        let r = route(keys, k);
        let r2 = route(keys2, k);
        assert(0 <= r < parent.children.len());
        assert(0 <= r2 < ch2.len());
        assert(get(st, parent, k) == get(st, parent.children[r], k));
        assert(get(st2, above, k) == get(st2, ch2[r2], k));
        if r == i {
            if k <= sep {
                assert(get(st2, left, k) == get(st, c, k));
            } else {
                assert(get(st2, right, k) == get(st, c, k));
            }
        } else {
            assert(ch2[r2] == parent.children[r]);
        }
    }
}

/// The tree above a leaf that has been split in two leaves: it holds what
/// it held.
pub proof fn lemma_split_leaf(
    st: Store,
    st2: Store,
    parent: Node,
    i: int,
    split: int,
    sep: Key,
    rp: u64,
    lo: int,
    hi: int,
)
    requires
        st.bs > 0,
        repr(st, parent),
        disjoint(parent),
        in_range(st, parent, lo, hi),
        is_internal(st.img(parent.idx)),
        0 <= i < parent.children.len(),
        is_leaf(st.img(parent.children[i].idx)),
        1 <= split <= leaf_entries(st.img(parent.children[i].idx)).len(),
        sep == leaf_entries(st.img(parent.children[i].idx))[split - 1].key,
        split < leaf_entries(st.img(parent.children[i].idx)).len(),
        st2.bs == st.bs,
        st2.n == st.n + 1,
        rp == st.off(st.n),
        forall|p: int|
            #[trigger] st.has_page(p) && p != parent.idx && p != parent.children[i].idx
                ==> st2.img(p) == st.img(p) && st2.has_page(p),
        st2.has_page(parent.idx),
        st2.has_page(parent.children[i].idx),
        st2.has_page(st.n),
        is_internal(st2.img(parent.idx)),
        internal_keys(st2.img(parent.idx)) == internal_keys(st.img(parent.idx)).insert(i, sep),
        internal_pointers(st2.img(parent.idx)) == internal_pointers(st.img(parent.idx)).insert(
            i + 1,
            rp,
        ),
        is_leaf(st2.img(parent.children[i].idx)),
        leaf_entries(st2.img(parent.children[i].idx)) == leaf_entries(
            st.img(parent.children[i].idx),
        ).take(split),
        is_leaf(st2.img(st.n)),
        forall|k: Key|
            #[trigger] entries_value(
                st2.img(parent.children[i].idx),
                0,
                leaf_entries(st.img(parent.children[i].idx)).take(split),
                k,
            ) == if has_key(leaf_entries(st.img(parent.children[i].idx)).take(split), k) {
                entries_value(
                    st.img(parent.children[i].idx),
                    0,
                    leaf_entries(st.img(parent.children[i].idx)),
                    k,
                )
            } else {
                None
            },
        forall|k: Key|
            #[trigger] entries_value(
                st2.img(st.n),
                0,
                leaf_entries(st2.img(st.n)),
                k,
            ) == if has_key(
                leaf_entries(st.img(parent.children[i].idx)).skip(split),
                k,
            ) {
                entries_value(
                    st.img(parent.children[i].idx),
                    0,
                    leaf_entries(st.img(parent.children[i].idx)),
                    k,
                )
            } else {
                None
            },
    ensures
        step(
            st,
            st2,
            parent,
            Node {
                idx: parent.idx,
                children: parent.children.update(
                    i,
                    Node { idx: parent.children[i].idx, children: Seq::empty() },
                ).insert(i + 1, Node { idx: st.n, children: Seq::empty() }),
            },
            lo,
            hi,
        ),
        forall|k: Key|
            #[trigger] get(
                st2,
                Node {
                    idx: parent.idx,
                    children: parent.children.update(
                        i,
                        Node { idx: parent.children[i].idx, children: Seq::empty() },
                    ).insert(i + 1, Node { idx: st.n, children: Seq::empty() }),
                },
                k,
            ) == get(st, parent, k),
{
    let c = parent.children[i];
    let left = Node { idx: c.idx, children: Seq::empty() };
    let right = Node { idx: st.n, children: Seq::empty() };
    let keys = internal_keys(st.img(parent.idx));
    let clo = child_lo(keys, i, lo);
    let chi = child_hi(keys, i, hi);
    let s = leaf_entries(st.img(c.idx));
    let t = s.take(split);
    let u = s.skip(split);
    let rs = leaf_entries(st2.img(st.n));
    let bs = st.bs;
    assert(!is_leaf(st.img(parent.idx)));
    assert(repr(st, c) && in_range(st, c, clo, chi));
    assert(entries_wf(s, st.img(c.idx).len() as int));
    assert(t =~= s.subrange(0, split));
    assert(u =~= s.subrange(split, s.len() as int));
    lemma_sub_directory(s, st.img(c.idx).len() as int, 0, split);
    lemma_sub_directory(s, st.img(c.idx).len() as int, split, s.len() as int);
    assert(clo < s[split - 1].key <= chi);
    assert(owns(c, c.idx));
    assert forall|p: int| #[trigger] st.has_page(p) && p != parent.idx && !owns(
        c,
        p,
    ) implies st2.img(
        p,
    ) == st.img(p) && st2.has_page(p) by {}
    assert forall|j: int| 0 <= j < t.len() implies clo < (#[trigger] t[j]).key <= sep by {
        assert(t[j] == s[j]);
        if j < split - 1 {
            assert(s[j].key < s[split - 1].key);
        }
    }
    assert(in_range(st2, left, clo, sep as int));
    assert forall|j: int| 0 <= j < rs.len() implies (sep as int) < (#[trigger] rs[j]).key
        <= chi by {
        let k = rs[j].key;
        lemma_index_of_sorted(rs, j);
        assert(entries_value(st2.img(st.n), 0, rs, k) is Some);
        assert(has_key(u, k));
        let x = choose|x: int| split <= x < s.len() && (#[trigger] s[x]).key == k;
        assert(s[split - 1].key < s[x].key);
    }
    assert(in_range(st2, right, sep as int, chi));
    assert forall|k: Key| k <= sep implies #[trigger] get(st2, left, k) == get(st, c, k) by {
        assert(get(st2, left, k) == entries_value(st2.img(c.idx), 0, t, k));
        if has_key(s, k) {
            lemma_index_of_wf(s, st.img(c.idx).len() as int, k);
            let x = index_of(s, k);
            if x >= split {
                assert(s[split - 1].key < s[x].key || x == split - 1);
            }
            assert(0 <= x < split && s[x].key == k);
        } else {
            assert(entries_value(st.img(c.idx), 0, s, k) is None);
        }
    }
    assert forall|k: Key| k > sep implies #[trigger] get(st2, right, k) == get(st, c, k) by {
        assert(get(st2, right, k) == entries_value(st2.img(st.n), 0, rs, k));
        if has_key(s, k) {
            lemma_index_of_wf(s, st.img(c.idx).len() as int, k);
            let x = index_of(s, k);
            if x < split - 1 {
                assert(s[x].key < s[split - 1].key);
            }
            assert(split <= x < s.len() && s[x].key == k);
        } else {
            assert(entries_value(st.img(c.idx), 0, s, k) is None);
        }
    }
    lemma_split_parent(st, st2, parent, i, left, right, sep, rp, lo, hi);
}

/// The tree above an internal page that has been split in two: it holds
/// what it held.
pub proof fn lemma_split_internal(
    st: Store,
    st2: Store,
    parent: Node,
    i: int,
    m: int,
    sep: Key,
    rp: u64,
    lo: int,
    hi: int,
)
    requires
        st.bs > 0,
        repr(st, parent),
        disjoint(parent),
        in_range(st, parent, lo, hi),
        is_internal(st.img(parent.idx)),
        0 <= i < parent.children.len(),
        is_internal(st.img(parent.children[i].idx)),
        1 <= m <= internal_keys(st.img(parent.children[i].idx)).len(),
        sep == internal_keys(st.img(parent.children[i].idx))[m - 1],
        st2.bs == st.bs,
        st2.n == st.n + 1,
        rp == st.off(st.n),
        forall|p: int|
            #[trigger] st.has_page(p) && p != parent.idx && p != parent.children[i].idx
                ==> st2.img(p) == st.img(p) && st2.has_page(p),
        st2.has_page(parent.idx),
        st2.has_page(parent.children[i].idx),
        st2.has_page(st.n),
        is_internal(st2.img(parent.idx)),
        internal_keys(st2.img(parent.idx)) == internal_keys(st.img(parent.idx)).insert(i, sep),
        internal_pointers(st2.img(parent.idx)) == internal_pointers(st.img(parent.idx)).insert(
            i + 1,
            rp,
        ),
        is_internal(st2.img(parent.children[i].idx)),
        internal_keys(st2.img(parent.children[i].idx)) == internal_keys(
            st.img(parent.children[i].idx),
        ).take(m - 1),
        internal_pointers(st2.img(parent.children[i].idx)) == internal_pointers(
            st.img(parent.children[i].idx),
        ).take(m),
        is_internal(st2.img(st.n)),
        internal_keys(st2.img(st.n)) == internal_keys(st.img(parent.children[i].idx)).skip(m),
        internal_pointers(st2.img(st.n)) == internal_pointers(
            st.img(parent.children[i].idx),
        ).skip(m),
    ensures
        step(
            st,
            st2,
            parent,
            Node {
                idx: parent.idx,
                children: parent.children.update(
                    i,
                    Node {
                        idx: parent.children[i].idx,
                        children: parent.children[i].children.take(m),
                    },
                ).insert(i + 1, Node { idx: st.n, children: parent.children[i].children.skip(m) }),
            },
            lo,
            hi,
        ),
        forall|k: Key|
            #[trigger] get(
                st2,
                Node {
                    idx: parent.idx,
                    children: parent.children.update(
                        i,
                        Node {
                            idx: parent.children[i].idx,
                            children: parent.children[i].children.take(m),
                        },
                    ).insert(
                        i + 1,
                        Node { idx: st.n, children: parent.children[i].children.skip(m) },
                    ),
                },
                k,
            ) == get(st, parent, k),
{
    let c = parent.children[i];
    let cc = c.children;
    let left = Node { idx: c.idx, children: cc.take(m) };
    let right = Node { idx: st.n, children: cc.skip(m) };
    let keys = internal_keys(st.img(parent.idx));
    let clo = child_lo(keys, i, lo);
    let chi = child_hi(keys, i, hi);
    let ck = internal_keys(st.img(c.idx));
    let cp = internal_pointers(st.img(c.idx));
    let ckl = ck.take(m - 1);
    let ckr = ck.skip(m);
    assert(!is_leaf(st.img(parent.idx)));
    assert(!is_leaf(st.img(c.idx)));
    assert(!is_leaf(st2.img(c.idx)));
    assert(!is_leaf(st2.img(st.n)));
    assert(repr(st, c) && in_range(st, c, clo, chi) && disjoint(c));
    assert(owns(c, c.idx));
    assert(cc.len() == ck.len() + 1);
    assert forall|p: int| #[trigger] st.has_page(p) && p != parent.idx && !owns(
        c,
        p,
    ) implies st2.img(
        p,
    ) == st.img(p) && st2.has_page(p) by {}
    // the children of the page are as they were
    assert forall|j: int| 0 <= j < cc.len() implies repr(st2, #[trigger] cc[j]) && in_range(
        st2,
        cc[j],
        child_lo(ck, j, clo),
        child_hi(ck, j, chi),
    ) && (forall|k: Key| #[trigger] get(st2, cc[j], k) == get(st, cc[j], k)) && (forall|p: int|
        owns(cc[j], p) ==> st.has_page(p) && p != c.idx && owns(c, p)) by {
        let x = cc[j];
        assert forall|p: int| #[trigger] owns(x, p) implies st.has_page(p) && p != c.idx && owns(
            c,
            p,
        ) && p != parent.idx by {
            lemma_owned_pages(st, x, p);
            lemma_owns_child(c, j, p);
        }
        lemma_frame(st, st2, x, child_lo(ck, j, clo), child_hi(ck, j, chi));
    }
    assert forall|j: int| 0 <= j < left.children.len() implies internal_pointers(
        st2.img(left.idx),
    )[j] == st2.off((#[trigger] left.children[j]).idx) && repr(st2, left.children[j]) by {
        assert(left.children[j] == cc[j]);
        assert(cp.take(m)[j] == cp[j]);
    }
    assert(repr(st2, left));
    assert forall|j: int| 0 <= j < right.children.len() implies internal_pointers(
        st2.img(right.idx),
    )[j] == st2.off((#[trigger] right.children[j]).idx) && repr(st2, right.children[j]) by {
        assert(right.children[j] == cc[m + j]);
        assert(cp.skip(m)[j] == cp[m + j]);
    }
    assert(repr(st2, right));
    // no page twice
    assert forall|j: int| 0 <= j < left.children.len() implies !owns(
        #[trigger] left.children[j],
        left.idx,
    ) && disjoint(left.children[j]) by {
        assert(left.children[j] == cc[j]);
    }
    assert forall|a: int, b: int, p: int| 0 <= a < b < left.children.len() implies !(
    #[trigger] owns(left.children[a], p) && #[trigger] owns(left.children[b], p)) by {
        assert(left.children[a] == cc[a] && left.children[b] == cc[b]);
        assert(!(owns(cc[a], p) && owns(cc[b], p)));
    }
    assert(disjoint(left));
    assert forall|j: int| 0 <= j < right.children.len() implies !owns(
        #[trigger] right.children[j],
        right.idx,
    ) && disjoint(right.children[j]) by {
        assert(right.children[j] == cc[m + j]);
        if owns(cc[m + j], st.n) {
            lemma_owned_pages(st, cc[m + j], st.n);
        }
    }
    assert forall|a: int, b: int, p: int| 0 <= a < b < right.children.len() implies !(
    #[trigger] owns(right.children[a], p) && #[trigger] owns(right.children[b], p)) by {
        assert(right.children[a] == cc[m + a] && right.children[b] == cc[m + b]);
        assert(!(owns(cc[m + a], p) && owns(cc[m + b], p)));
    }
    assert(disjoint(right));
    assert forall|p: int| #[trigger] owns(left, p) implies owns(c, p) by {
        if p != left.idx {
            let j = choose|j: int|
                0 <= j < left.children.len() && owns(#[trigger] left.children[j], p);
            assert(left.children[j] == cc[j]);
            lemma_owns_child(c, j, p);
        }
    }
    assert forall|p: int| #[trigger] owns(right, p) implies owns(c, p) || p == right.idx by {
        if p != right.idx {
            let j = choose|j: int|
                0 <= j < right.children.len() && owns(#[trigger] right.children[j], p);
            assert(right.children[j] == cc[m + j]);
            lemma_owns_child(c, m + j, p);
        }
    }
    assert forall|p: int| !(#[trigger] owns(left, p) && owns(right, p)) by {
        if owns(left, p) && owns(right, p) {
            if p == left.idx {
                let j = choose|j: int|
                    0 <= j < right.children.len() && owns(#[trigger] right.children[j], p);
                assert(right.children[j] == cc[m + j]);
                assert(!owns(cc[m + j], c.idx));
            } else {
                let a = choose|j: int|
                    0 <= j < left.children.len() && owns(#[trigger] left.children[j], p);
                assert(left.children[a] == cc[a]);
                if p == right.idx {
                    lemma_owned_pages(st, cc[a], p);
                } else {
                    let b = choose|j: int|
                        0 <= j < right.children.len() && owns(#[trigger] right.children[j], p);
                    assert(right.children[b] == cc[m + b]);
                    assert(!(owns(cc[a], p) && owns(cc[m + b], p)));
                }
            }
        }
    }
    // the bounds
    assert(clo < ck[m - 1] <= chi);
    assert forall|j: int| 0 <= j < ckl.len() implies clo < #[trigger] ckl[j] <= sep by {
        assert(ckl[j] == ck[j]);
        assert(ck[j] < ck[m - 1]);
    }
    assert forall|j: int| 0 <= j < left.children.len() implies in_range(
        st2,
        #[trigger] left.children[j],
        child_lo(ckl, j, clo),
        child_hi(ckl, j, sep as int),
    ) by {
        assert(left.children[j] == cc[j]);
        if j > 0 {
            assert(ckl[j - 1] == ck[j - 1]);
        }
        if j < ckl.len() {
            assert(ckl[j] == ck[j]);
        }
        assert(child_lo(ckl, j, clo) == child_lo(ck, j, clo));
        assert(child_hi(ckl, j, sep as int) == child_hi(ck, j, chi));
    }
    assert(in_range(st2, left, clo, sep as int));
    assert forall|j: int| 0 <= j < ckr.len() implies (sep as int) < #[trigger] ckr[j] <= chi by {
        assert(ckr[j] == ck[m + j]);
        assert(ck[m - 1] < ck[m + j]);
    }
    assert forall|j: int| 0 <= j < right.children.len() implies in_range(
        st2,
        #[trigger] right.children[j],
        child_lo(ckr, j, sep as int),
        child_hi(ckr, j, chi),
    ) by {
        assert(right.children[j] == cc[m + j]);
        if j > 0 {
            assert(ckr[j - 1] == ck[m + j - 1]);
        }
        if j < ckr.len() {
            assert(ckr[j] == ck[m + j]);
        }
        assert(child_lo(ckr, j, sep as int) == child_lo(ck, m + j, clo));
        assert(child_hi(ckr, j, chi) == child_hi(ck, m + j, chi));
    }
    assert(in_range(st2, right, sep as int, chi));
    // what the halves hold
    assert forall|k: Key| k <= sep implies #[trigger] get(st2, left, k) == get(st, c, k) by {
        lemma_route_exists(ck, k);
        let r = route(ck, k);
        if r > m - 1 {
            assert(ck[m - 1] < k);
        }
        assert forall|j: int| 0 <= j < r implies ckl[j] < k by {
            assert(ckl[j] == ck[j]);
        }
        assert forall|j: int| r <= j < ckl.len() implies ckl[j] >= k by {
            assert(ckl[j] == ck[j]);
        }
        lemma_route(ckl, k, r);
        assert(left.children[r] == cc[r]);
        assert(get(st2, cc[r], k) == get(st, cc[r], k));
    }
    assert forall|k: Key| k > sep implies #[trigger] get(st2, right, k) == get(st, c, k) by {
        lemma_route_exists(ck, k);
        let r = route(ck, k);
        if r <= m - 1 {
            assert(ck[m - 1] >= k);
        }
        assert forall|j: int| 0 <= j < r - m implies ckr[j] < k by {
            assert(ckr[j] == ck[m + j]);
        }
        assert forall|j: int| r - m <= j < ckr.len() implies ckr[j] >= k by {
            assert(ckr[j] == ck[m + j]);
        }
        lemma_route(ckr, k, r - m);
        assert(right.children[r - m] == cc[r]);
        assert(get(st2, cc[r], k) == get(st, cc[r], k));
    }
    lemma_split_parent(st, st2, parent, i, left, right, sep, rp, lo, hi);
}

} // verus!
