//! When an insert is sure to find room: values that are small for the page
//! size always do, as long as the device can grow.

use crate::database::max_device_size;
use crate::key::Key;
use crate::page::Page;
use crate::page::PageOffset;
use crate::page::delete_steps::lemma_get_in_range;
use crate::page::image;
use crate::page::internal_spec::internal_keys;
use crate::page::internal_spec::internal_pointers;
use crate::page::internal_spec::is_route;
use crate::page::internal_spec::lemma_route;
use crate::page::internal_spec::max_children;
use crate::page::internal_spec::route;
use crate::page::leaf_page::LeafPageEntry;
use crate::page::leaf_spec::entries_wf;
use crate::page::leaf_spec::is_leaf;
use crate::page::leaf_spec::leaf_entries;
use crate::page::leaf_spec::lemma_index_of_sorted;
use crate::page::leaf_spec::lemma_total_len_nonneg;
use crate::page::leaf_spec::lemma_total_len_split;
use crate::page::leaf_spec::packed;
use crate::page::leaf_spec::slot_pos;
use crate::page::leaf_spec::total_len;
use crate::page::leaf_spec::upsert_fits;
use crate::page::shape::Node;
use crate::page::shape::Store;
use crate::page::shape::child_hi;
use crate::page::shape::child_lo;
use crate::page::shape::get;
use crate::page::shape::in_range;
use crate::page::shape::lemma_off;
use crate::page::shape::lemma_same_pages_child;
use crate::page::shape::owns;
use crate::page::shape::repr;
use crate::page::shape::same_pages;
use vstd::prelude::*;

verus! {

/// Whether a value of `len` bytes is small for pages of `bs` bytes: a leaf
/// of small values that has no room for one more can be split, and both
/// halves then have room. With slots of 32 bytes behind a header of 9,
/// a page of 8192 bytes takes values of up to 448 bytes as small.
pub open spec fn small(len: int, bs: int) -> bool {
    0 <= len && (len + 96) * (len + 32) <= 32 * (bs - 9)
}

/// Whether a leaf with this directory takes one more value of `len` bytes
/// without being split: it is empty, or has room for the value and its
/// slot.
pub open spec fn accommodates(s: Seq<LeafPageEntry>, len: int, bs: int) -> bool {
    s.len() == 0 || slot_pos(s.len() as int + 1) + total_len(s) + len <= bs
}

/// Every value of the directory is small.
pub open spec fn small_slots(s: Seq<LeafPageEntry>, bs: int) -> bool {
    forall|i: int| 0 <= i < s.len() ==> small((#[trigger] s[i]).value_len as int, bs)
}

/// A value that is no longer than a small one is small.
pub proof fn lemma_small_less(a: int, b: int, bs: int)
    requires
        small(b, bs),
        0 <= a <= b,
    ensures
        small(a, bs),
{
    assert((a + 96) * (a + 32) <= (b + 96) * (b + 32)) by (nonlinear_arith)
        requires
            0 <= a <= b,
    ;
}

/// Among small values one is the longest.
pub proof fn lemma_longest(s: Seq<LeafPageEntry>, len: int, bs: int) -> (m: int)
    requires
        small(len, bs),
        small_slots(s, bs),
    ensures
        small(m, bs),
        len <= m,
        forall|i: int| 0 <= i < s.len() ==> (#[trigger] s[i]).value_len <= m,
    decreases s.len(),
{
    if s.len() == 0 {
        len
    } else {
        let t = s.drop_last();
        assert forall|i: int| 0 <= i < t.len() implies small(
            (#[trigger] t[i]).value_len as int,
            bs,
        ) by {
            assert(t[i] == s[i]);
        }
        let m = lemma_longest(t, len, bs);
        let last = s.last().value_len as int;
        assert(small(s[s.len() - 1].value_len as int, bs));
        let m2 = if last > m {
            last
        } else {
            m
        };
        assert forall|i: int| 0 <= i < s.len() implies (#[trigger] s[i]).value_len <= m2 by {
            if i < t.len() {
                assert(t[i] == s[i]);
            }
        }
        m2
    }
}

/// Values of at most `m` bytes each have no more than `m` bytes for each
/// slot in all.
pub proof fn lemma_total_len_most(s: Seq<LeafPageEntry>, m: int)
    requires
        forall|i: int| 0 <= i < s.len() ==> (#[trigger] s[i]).value_len <= m,
    ensures
        total_len(s) <= s.len() * m,
    decreases s.len(),
{
    if s.len() > 0 {
        let t = s.drop_last();
        assert forall|i: int| 0 <= i < t.len() implies (#[trigger] t[i]).value_len <= m by {
            assert(t[i] == s[i]);
        }
        lemma_total_len_most(t, m);
        assert(s[s.len() - 1].value_len <= m);
        assert(t.len() * m + m == s.len() * m) by (nonlinear_arith)
            requires
                t.len() + 1 == s.len(),
        ;
    }
}

/// A part of a page of small values, with at most one slot more than the
/// rest has, has room for one more small value and its slot, where the
/// page has none.
proof fn lemma_part_fits(n: int, total: int, nh: int, th: int, len: int, m: int, bs: int)
    requires
        n >= 2,
        slot_pos(n) + total <= bs,
        0 <= th <= total,
        1 <= nh <= n / 2 + 1,
        nh + n / 2 <= n,
        th <= nh * m,
        0 <= len <= m,
        small(m, bs),
    ensures
        slot_pos(nh + 1) + th + len <= bs,
{
    let f = n / 2;
    if len <= 32 * (f - 1) {
        assert(32 * (nh + 1) + 32 * (f - 1) <= 32 * n);
    } else {
        assert(32 * (nh + 1) <= m + 95);
        assert(32 * (nh + 1) + nh * m + m == (32 + m) * (nh + 1)) by (nonlinear_arith);
        assert(32 * ((32 + m) * (nh + 1)) <= (32 + m) * (m + 96)) by (nonlinear_arith)
            requires
                32 * (nh + 1) <= m + 96,
                0 <= m,
        ;
        assert((32 + m) * (m + 96) == (m + 96) * (m + 32)) by (nonlinear_arith);
    }
}

/// A leaf of small values with one slot has room for one more.
pub proof fn lemma_two_fit(s: Seq<LeafPageEntry>, len: int, bs: int)
    requires
        small(len, bs),
        small_slots(s, bs),
        s.len() <= 1,
    ensures
        accommodates(s, len, bs),
{
    if s.len() == 1 {
        let m = lemma_longest(s, len, bs);
        assert(s.drop_last() =~= Seq::<LeafPageEntry>::empty());
        assert(total_len(s) == s[0].value_len) by {
            assert(total_len(s.drop_last()) == 0);
        }
        assert(96 * (m + 32) <= (m + 96) * (m + 32)) by (nonlinear_arith)
            requires
                0 <= m,
        ;
    }
}

/// A leaf of small values that has no room for one more small value has
/// two slots or more, and each half that a split makes of it has room for
/// the value, whether or not it has the key.
pub proof fn lemma_halves_fit(s: Seq<LeafPageEntry>, key: Key, len: int, bs: int)
    requires
        entries_wf(s, bs),
        small(len, bs),
        small_slots(s, bs),
        !accommodates(s, len, bs),
    ensures
        s.len() >= 2,
        upsert_fits(s.take((s.len() + 1) as int / 2), key, len, bs),
        upsert_fits(packed(s.skip((s.len() + 1) as int / 2), bs), key, len, bs),
{
    let n = s.len() as int;
    let split = (n + 1) / 2;
    if n <= 1 {
        lemma_two_fit(s, len, bs);
    }
    let m = lemma_longest(s, len, bs);
    let left = s.take(split);
    let right = s.skip(split);
    lemma_total_len_split(s, split);
    lemma_total_len_nonneg(left);
    lemma_total_len_nonneg(right);
    lemma_total_len_most(left, m);
    lemma_total_len_most(right, m);
    lemma_part_fits(n, total_len(s), left.len() as int, total_len(left), len, m, bs);
    lemma_part_fits(n, total_len(s), right.len() as int, total_len(right), len, m, bs);
    lemma_packed_total(right, bs);
    lemma_room_fits(left, key, len, bs);
    lemma_room_fits(packed(right, bs), key, len, bs);
}

/// Packing leaves the lengths of the values as they are.
pub proof fn lemma_packed_total(s: Seq<LeafPageEntry>, bs: int)
    ensures
        packed(s, bs).len() == s.len(),
        total_len(packed(s, bs)) == total_len(s),
    decreases s.len(),
{
    if s.len() > 0 {
        let t = s.drop_last();
        lemma_packed_total(t, bs);
        assert forall|i: int| 0 <= i < t.len() implies #[trigger] packed(s, bs)[i] == packed(
            t,
            bs,
        )[i] by {
            assert(t.take(i + 1) =~= s.take(i + 1));
        }
        assert(packed(s, bs).drop_last() =~= packed(t, bs));
    }
}

/// A directory with room for a value and one more slot takes the value,
/// whether or not it has the key.
pub proof fn lemma_room_fits(s: Seq<LeafPageEntry>, key: Key, len: int, bs: int)
    requires
        slot_pos(s.len() as int + 1) + total_len(s) + len <= bs,
    ensures
        upsert_fits(s, key, len, bs),
{
}

/// A leaf that takes a small value without being split has room for it,
/// whether or not it has the key.
pub proof fn lemma_accommodated_fits(s: Seq<LeafPageEntry>, key: Key, len: int, bs: int)
    requires
        small(len, bs),
        accommodates(s, len, bs),
    ensures
        upsert_fits(s, key, len, bs),
{
    if s.len() == 0 {
        assert(total_len(s) == 0);
        assert(96 * (len + 32) <= (len + 96) * (len + 32)) by (nonlinear_arith)
            requires
                0 <= len,
        ;
    }
    lemma_room_fits(s, key, len, bs);
}

/// Every value of the tree is small.
pub open spec fn small_under(st: Store, node: Node) -> bool {
    forall|k: Key| #[trigger]
        get(st, node, k) is Some ==> small(get(st, node, k).unwrap().len() as int, st.bs)
}

/// What makes sure that an insert under a page finds room: the value and
/// the values of the tree are small, the device takes one more block for
/// each page on the way, and the page, if it is a leaf, has room.
pub open spec fn insert_fits(st: Store, shape: Node, key: Key, len: int, budget: int) -> bool {
    &&& small(len, st.bs)
    &&& small_under(st, shape)
    &&& st.off(st.n + budget) <= max_device_size()
    &&& is_leaf(st.img(shape.idx)) ==> upsert_fits(
        leaf_entries(st.img(shape.idx)),
        key,
        len,
        st.bs,
    )
}

/// The half of a split leaf with the directory `s` where `key` belongs:
/// the upper half if the key is greater than the largest key of the lower
/// half, else the lower half.
pub open spec fn chosen_half(s: Seq<LeafPageEntry>, key: Key) -> Seq<LeafPageEntry> {
    let split = (s.len() + 1) as int / 2;
    if key > s[split - 1].key {
        s.skip(split)
    } else {
        s.take(split)
    }
}

/// A leaf with the directory `s` can be split, and the half where `key`
/// belongs then has room for a value of `len` bytes with its slot.
pub open spec fn leaf_split_takes(s: Seq<LeafPageEntry>, key: Key, len: int, bs: int) -> bool {
    &&& s.len() >= 2
    &&& slot_pos(chosen_half(s, key).len() as int + 1) + total_len(chosen_half(s, key)) + len
        <= bs
}

/// There is room for a value of `len` bytes for `key` on the way to the
/// leaf where the key belongs: no internal page has to be split, and the
/// leaf has room for the value as it is, or can be split, with a block
/// that the device takes, into halves of which the one where the key
/// belongs has room.
pub open spec fn has_room_on_way(st: Store, shape: Node, key: Key, len: int) -> bool
    decreases shape,
{
    let img = st.img(shape.idx);
    if is_leaf(img) {
        upsert_fits(leaf_entries(img), key, len, st.bs)
    } else {
        let i = route(internal_keys(img), key);
        0 <= i < shape.children.len() && if child_accommodates(st, shape, i, len) {
            has_room_on_way(st, shape.children[i], key, len)
        } else {
            let child = st.img(shape.children[i].idx);
            is_leaf(child) && leaf_split_takes(leaf_entries(child), key, len, st.bs) && st.off(
                st.n + 1,
            ) <= max_device_size()
        }
    }
}

/// The half of a split leaf where the key belongs has room for the value,
/// where the leaf was one that can be split so.
pub proof fn lemma_way_half(
    st: Store,
    st2: Store,
    shape: Node,
    shape2: Node,
    i: int,
    j: int,
    left: Page,
    right: Page,
    key: Key,
    len: int,
    sep: Key,
)
    requires
        st2.bs == st.bs,
        0 <= i < shape.children.len(),
        shape2.children.len() == shape.children.len() + 1,
        is_leaf(st.img(shape.children[i].idx)),
        st.img(shape.children[i].idx).len() == st.bs,
        leaf_split_takes(leaf_entries(st.img(shape.children[i].idx)), key, len, st.bs),
        split_halves(st, shape, i, left, right),
        left.reads(st2.d, st2.off(shape2.children[i].idx), st.bs),
        right.reads(st2.d, st2.off(shape2.children[i + 1].idx), st.bs),
        sep == split_key(st.img(shape.children[i].idx)),
        j == if key > sep {
            i + 1
        } else {
            i
        },
    ensures
        child_accommodates(st2, shape2, j, len),
        has_room_on_way(st2, shape2.children[j], key, len),
{
    let s = leaf_entries(st.img(shape.children[i].idx));
    let split = (s.len() + 1) as int / 2;
    lemma_packed_total(s.skip(split), st.bs);
    let half = leaf_entries(st2.img(shape2.children[j].idx));
    assert(leaf_halves(s, st.bs, left, right));
    assert(sep == s[split - 1].key);
    match (left, right) {
        (Page::Leaf(l), Page::Leaf(r)) => {
            if key > sep {
                assert(st2.img(shape2.children[j].idx) == image(st2.d, r.offset as int, st.bs));
                assert(half == packed(s.skip(split), st.bs));
            } else {
                assert(st2.img(shape2.children[j].idx) == image(st2.d, l.offset as int, st.bs));
                assert(half == s.take(split));
            }
        },
        _ => {},
    }
    lemma_room_fits(half, key, len, st.bs);
}

/// Child `i` of the tree's root takes one more value of `len` bytes
/// without being split.
pub open spec fn child_accommodates(st: Store, shape: Node, i: int, len: int) -> bool {
    let img = st.img(shape.children[i].idx);
    if is_leaf(img) {
        accommodates(leaf_entries(img), len, st.bs)
    } else {
        internal_pointers(img).len() < max_children(st.bs)
    }
}

/// Why child `i` of the tree's root cannot be split: the device is full,
/// or the child is a leaf with fewer than two slots.
pub open spec fn split_refused(st: Store, shape: Node, i: int) -> bool {
    let img = st.img(shape.children[i].idx);
    st.off(st.n + 1) > max_device_size() || (is_leaf(img) && leaf_entries(img).len() < 2)
}

/// The halves of a split leaf with the directory `s`: the left has the
/// lower half of the slots as they were, with the extra slot of an odd
/// count, the right the upper half, its values packed.
pub open spec fn leaf_halves(s: Seq<LeafPageEntry>, bs: int, left: Page, right: Page) -> bool {
    let split = (s.len() + 1) as int / 2;
    &&& left matches Page::Leaf(l) && l.keys@ == s.take(split)
    &&& right matches Page::Leaf(r) && r.keys@ == packed(s.skip(split), bs)
}

/// The halves of a split internal page with these keys and child offsets:
/// the left has the lower half of the child offsets and the keys between
/// them, the right the upper half; the key between the halves has left the
/// page.
pub open spec fn internal_halves(
    keys: Seq<Key>,
    pointers: Seq<PageOffset>,
    left: Page,
    right: Page,
) -> bool {
    let m = keys.len() as int / 2;
    &&& left matches Page::Internal(l) && l.keys@ == keys.take(m - 1) && l.pointers@
        == pointers.take(m)
    &&& right matches Page::Internal(r) && r.keys@ == keys.skip(m) && r.pointers@ == pointers.skip(
        m,
    )
}

/// The halves that a split has made of the page with the image `img`.
pub open spec fn halves_of(img: Seq<u8>, left: Page, right: Page) -> bool {
    if is_leaf(img) {
        leaf_halves(leaf_entries(img), img.len() as int, left, right)
    } else {
        internal_halves(internal_keys(img), internal_pointers(img), left, right)
    }
}

/// The key that a split of the page with the image `img` puts into the
/// page above: the largest key that stays in the left half of a leaf, the
/// key that leaves an internal page.
pub open spec fn split_key(img: Seq<u8>) -> Key {
    if is_leaf(img) {
        leaf_entries(img)[(leaf_entries(img).len() + 1) as int / 2 - 1].key
    } else {
        internal_keys(img)[internal_keys(img).len() as int / 2 - 1]
    }
}

/// The halves that a split has made of child `i` of the tree's root.
pub open spec fn split_halves(st: Store, shape: Node, i: int, left: Page, right: Page) -> bool {
    halves_of(st.img(shape.children[i].idx), left, right)
}

/// The slots of a leaf in a tree of small values are small.
pub proof fn lemma_small_leaf(st: Store, x: Node)
    requires
        st.has_page(x.idx),
        is_leaf(st.img(x.idx)),
        small_under(st, x),
    ensures
        small_slots(leaf_entries(st.img(x.idx)), st.bs),
{
    let img = st.img(x.idx);
    let s = leaf_entries(img);
    assert forall|i: int| 0 <= i < s.len() implies small((#[trigger] s[i]).value_len as int, st.bs) by {
        lemma_index_of_sorted(s, i);
        assert(get(st, x, s[i].key) == Some(
            img.subrange(0 + s[i].offset, 0 + s[i].offset + s[i].value_len),
        ));
    }
}

/// Under each child of a tree of small values are small values.
pub proof fn lemma_small_child(st: Store, x: Node, i: int, lo: int, hi: int)
    requires
        repr(st, x),
        in_range(st, x, lo, hi),
        !is_leaf(st.img(x.idx)),
        0 <= i < x.children.len(),
        small_under(st, x),
    ensures
        small_under(st, x.children[i]),
{
    let keys = internal_keys(st.img(x.idx));
    let c = x.children[i];
    assert forall|k: Key| #[trigger] get(st, c, k) is Some implies small(
        get(st, c, k).unwrap().len() as int,
        st.bs,
    ) by {
        lemma_get_in_range(st, c, child_lo(keys, i, lo), child_hi(keys, i, hi), k);
        assert(is_route(keys, k, i));
        lemma_route(keys, k, i);
        assert(get(st, x, k) == get(st, c, k));
    }
}

/// A tree that gives every key the value that a tree of small values
/// gives it is one of small values.
pub proof fn lemma_small_same(st: Store, x: Node, st2: Store, x2: Node)
    requires
        small_under(st, x),
        st2.bs == st.bs,
        forall|k: Key| #[trigger] get(st2, x2, k) == get(st, x, k),
    ensures
        small_under(st2, x2),
{
    assert forall|k: Key| #[trigger] get(st2, x2, k) is Some implies small(
        get(st2, x2, k).unwrap().len() as int,
        st2.bs,
    ) by {
        assert(get(st2, x2, k) == get(st, x, k));
    }
}

/// An insert that finds room under a page finds room under the child where
/// the key belongs, if that child takes the value without being split.
pub proof fn lemma_fits_child(
    st: Store,
    shape: Node,
    i: int,
    key: Key,
    len: int,
    budget: int,
    lo: int,
    hi: int,
)
    requires
        st.bs > 0,
        repr(st, shape),
        in_range(st, shape, lo, hi),
        !is_leaf(st.img(shape.idx)),
        0 <= i < shape.children.len(),
        insert_fits(st, shape, key, len, budget),
        child_accommodates(st, shape, i, len),
        budget >= 1,
    ensures
        insert_fits(st, shape.children[i], key, len, budget - 1),
{
    let c = shape.children[i];
    lemma_small_child(st, shape, i, lo, hi);
    lemma_off(st, st.n + budget - 1, st.n + budget);
    if is_leaf(st.img(c.idx)) {
        lemma_accommodated_fits(leaf_entries(st.img(c.idx)), key, len, st.bs);
    }
}

/// An insert that finds room under a page whose child has no room for the
/// value can split the child.
pub proof fn lemma_split_owed(
    st: Store,
    shape: Node,
    i: int,
    key: Key,
    len: int,
    budget: int,
    lo: int,
    hi: int,
)
    requires
        st.bs > 0,
        repr(st, shape),
        in_range(st, shape, lo, hi),
        !is_leaf(st.img(shape.idx)),
        0 <= i < shape.children.len(),
        insert_fits(st, shape, key, len, budget),
        !child_accommodates(st, shape, i, len),
        budget >= 1,
    ensures
        !split_refused(st, shape, i),
{
    let c = shape.children[i];
    lemma_small_child(st, shape, i, lo, hi);
    if budget > 1 {
        lemma_off(st, st.n + 1, st.n + budget);
    }
    if is_leaf(st.img(c.idx)) {
        assert(repr(st, c));
        lemma_small_leaf(st, c);
        lemma_halves_fit(leaf_entries(st.img(c.idx)), key, len, st.bs);
    }
}

/// An insert that finds room under a page whose child has no room for the
/// value finds room under each half that a split makes of the child.
pub proof fn lemma_fits_half(
    st: Store,
    st2: Store,
    shape: Node,
    shape2: Node,
    i: int,
    j: int,
    left: Page,
    right: Page,
    key: Key,
    len: int,
    budget: int,
    lo: int,
    hi: int,
)
    requires
        st.bs > 0,
        repr(st, shape),
        in_range(st, shape, lo, hi),
        !is_leaf(st.img(shape.idx)),
        0 <= i < shape.children.len(),
        insert_fits(st, shape, key, len, budget),
        !child_accommodates(st, shape, i, len),
        budget >= 1,
        st2.bs == st.bs,
        st2.n == st.n + 1,
        repr(st2, shape2),
        in_range(st2, shape2, lo, hi),
        !is_leaf(st2.img(shape2.idx)),
        shape2.children.len() == shape.children.len() + 1,
        forall|k: Key| #[trigger] get(st2, shape2, k) == get(st, shape, k),
        j == i || j == i + 1,
        left.reads(st2.d, st2.off(shape2.children[i].idx), st.bs),
        right.reads(st2.d, st2.off(shape2.children[i + 1].idx), st.bs),
        split_halves(st, shape, i, left, right),
    ensures
        insert_fits(st2, shape2.children[j], key, len, budget - 1),
{
    let c = shape.children[i];
    lemma_small_same(st, shape, st2, shape2);
    lemma_small_child(st2, shape2, j, lo, hi);
    if is_leaf(st2.img(shape2.children[j].idx)) {
        assert(repr(st, c));
        lemma_small_child(st, shape, i, lo, hi);
        lemma_small_leaf(st, c);
        lemma_halves_fit(leaf_entries(st.img(c.idx)), key, len, st.bs);
    }
}

/// Room on the way to a leaf is room on a store from which the pages of
/// the tree read the same, and whose device takes one block more.
pub proof fn lemma_way_frame(st: Store, st2: Store, node: Node, key: Key, len: int)
    requires
        repr(st, node),
        same_pages(st, st2, node),
        st2.off(st2.n + 1) <= max_device_size(),
        has_room_on_way(st, node, key, len),
    ensures
        has_room_on_way(st2, node, key, len),
    decreases node,
{
    assert(owns(node, node.idx));
    assert(st2.img(node.idx) == st.img(node.idx));
    if !is_leaf(st.img(node.idx)) {
        let i = route(internal_keys(st.img(node.idx)), key);
        let c = node.children[i];
        assert(repr(st, c));
        lemma_same_pages_child(st, st2, node, i);
        assert(owns(c, c.idx));
        assert(st2.img(c.idx) == st.img(c.idx));
        if child_accommodates(st, node, i, len) {
            lemma_way_frame(st, st2, c, key, len);
        }
    }
}

} // verus!
