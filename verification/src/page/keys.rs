//! The keys of a tree, in order.

use crate::database::Database;
use crate::database::lemma_end_bounds;
use crate::disk::Disk;
use crate::error::Error;
use crate::error::io_failure;
use crate::key::Key;
use crate::page::Page;
use crate::page::btree::BTree;
use crate::page::delete_steps::lemma_get_in_range;
use crate::page::internal_page::InternalPage;
use crate::page::internal_spec::internal_keys;
use crate::page::internal_spec::keys_sorted;
use crate::page::internal_spec::lemma_route;
use crate::page::internal_spec::route;
use crate::page::leaf_page::LeafPage;
use crate::page::leaf_page::LeafPageEntry;
use crate::page::leaf_spec::is_leaf;
use crate::page::leaf_spec::leaf_entries;
use crate::page::shape::Node;
use crate::page::shape::Store;
use crate::page::shape::child_hi;
use crate::page::shape::child_lo;
use crate::page::shape::depth_ok;
use crate::page::shape::get;
use crate::page::shape::in_range;
use crate::page::shape::lemma_depth_more;
use crate::page::shape::lemma_depth_of_tree;
use crate::page::shape::lemma_off;
use crate::page::shape::lemma_off_end;
use crate::page::shape::repr;
use crate::page::shape::store_of;
use crate::page::split_steps::lemma_route_exists;
use vstd::prelude::*;

verus! {

/// The keys of a slot directory, in its order.
pub open spec fn leaf_keys(s: Seq<LeafPageEntry>) -> Seq<Key> {
    Seq::new(s.len(), |i: int| s[i].key)
}

/// The keys of a leaf, or those under the first `n` children of an
/// internal page, from left to right.
pub open spec fn keys_upto(st: Store, node: Node, n: int) -> Seq<Key>
    decreases node, n,
{
    if is_leaf(st.img(node.idx)) {
        leaf_keys(leaf_entries(st.img(node.idx)))
    } else if n <= 0 || n > node.children.len() {
        Seq::empty()
    } else {
        keys_upto(st, node, n - 1) + keys_upto(
            st,
            node.children[n - 1],
            node.children[n - 1].children.len() as int,
        )
    }
}

/// The keys of a tree, from left to right.
pub open spec fn keys_of(st: Store, node: Node) -> Seq<Key> {
    keys_upto(st, node, node.children.len() as int)
}

/// The bound that the keys under the first `n` children of an internal
/// page do not exceed.
pub open spec fn upto_hi(keys: Seq<Key>, n: int, lo: int, hi: int) -> int {
    if n == 0 {
        lo
    } else {
        child_hi(keys, n - 1, hi)
    }
}

/// The keys under the first `n` children ascend, lie within the bounds,
/// and are the keys that one of these children has a value for.
pub proof fn lemma_keys_upto(st: Store, node: Node, n: int, lo: int, hi: int)
    requires
        repr(st, node),
        in_range(st, node, lo, hi),
        !is_leaf(st.img(node.idx)),
        0 <= n <= node.children.len(),
        lo <= hi,
    ensures
        keys_sorted(keys_upto(st, node, n)),
        forall|j: int|
            0 <= j < keys_upto(st, node, n).len() ==> lo < #[trigger] keys_upto(st, node, n)[j]
                <= upto_hi(internal_keys(st.img(node.idx)), n, lo, hi),
        forall|k: Key|
            #[trigger] keys_upto(st, node, n).contains(k) <==> exists|j: int|
                0 <= j < n && (#[trigger] get(st, node.children[j], k)) is Some,
        lo <= upto_hi(internal_keys(st.img(node.idx)), n, lo, hi) <= hi,
    decreases node, n,
{
    let keys = internal_keys(st.img(node.idx));
    let ks = keys_upto(st, node, n);
    if n > 0 {
        let c = node.children[n - 1];
        let clo = child_lo(keys, n - 1, lo);
        let chi = child_hi(keys, n - 1, hi);
        let before = keys_upto(st, node, n - 1);
        let under = keys_of(st, c);
        lemma_keys_upto(st, node, n - 1, lo, hi);
        assert(upto_hi(keys, n - 1, lo, hi) == clo) by {
            if n - 1 > 0 {
                assert(child_hi(keys, n - 2, hi) == keys[n - 2]);
            }
        }
        assert(repr(st, c) && in_range(st, c, clo, chi));
        assert(clo <= chi) by {
            if n - 1 > 0 && n - 1 < keys.len() {
                assert(keys[n - 2] < keys[n - 1]);
            }
            if n - 1 > 0 {
                assert(keys[n - 2] <= hi);
            }
            if n - 1 < keys.len() {
                assert(lo < keys[n - 1]);
            }
        }
        lemma_keys_of(st, c, clo, chi);
        assert(ks == before + under);
        assert forall|a: int, b: int| 0 <= a < b < ks.len() implies ks[a] < ks[b] by {
            if b < before.len() {
                assert(ks[a] == before[a] && ks[b] == before[b]);
            } else if a >= before.len() {
                assert(ks[a] == under[a - before.len()] && ks[b] == under[b - before.len()]);
            } else {
                assert(ks[a] == before[a] && ks[b] == under[b - before.len()]);
            }
        }
        assert forall|j: int| 0 <= j < ks.len() implies lo < #[trigger] ks[j] <= chi by {
            if j < before.len() {
                assert(ks[j] == before[j]);
            } else {
                assert(ks[j] == under[j - before.len()]);
            }
        }
        assert forall|k: Key| #[trigger] ks.contains(k) <==> exists|j: int|
            0 <= j < n && (#[trigger] get(st, node.children[j], k)) is Some by {
            if ks.contains(k) {
                let x = choose|x: int| 0 <= x < ks.len() && ks[x] == k;
                if x < before.len() {
                    assert(before[x] == k);
                    assert(before.contains(k));
                    let j = choose|j: int|
                        0 <= j < n - 1 && (#[trigger] get(st, node.children[j], k)) is Some;
                    assert(0 <= j < n && get(st, node.children[j], k) is Some);
                } else {
                    assert(under[x - before.len()] == k);
                    assert(under.contains(k));
                    assert(get(st, node.children[n - 1], k) is Some);
                }
            }
            if exists|j: int| 0 <= j < n && (#[trigger] get(st, node.children[j], k)) is Some {
                let j = choose|j: int|
                    0 <= j < n && (#[trigger] get(st, node.children[j], k)) is Some;
                if j < n - 1 {
                    assert(before.contains(k));
                    let x = choose|x: int| 0 <= x < before.len() && before[x] == k;
                    assert(ks[x] == k);
                } else {
                    assert(under.contains(k));
                    let x = choose|x: int| 0 <= x < under.len() && under[x] == k;
                    assert(ks[before.len() + x] == k);
                }
            }
        }
        if n - 1 < keys.len() {
            assert(lo < keys[n - 1] <= hi);
        }
    } else {
        assert(ks =~= Seq::<Key>::empty());
    }
}

/// The keys of a tree ascend, lie within its bounds, and are the keys
/// that the tree has a value for.
pub proof fn lemma_keys_of(st: Store, node: Node, lo: int, hi: int)
    requires
        repr(st, node),
        in_range(st, node, lo, hi),
        lo <= hi,
    ensures
        keys_sorted(keys_of(st, node)),
        forall|j: int|
            0 <= j < keys_of(st, node).len() ==> lo < #[trigger] keys_of(st, node)[j] <= hi,
        forall|k: Key| #[trigger] keys_of(st, node).contains(k) <==> get(st, node, k) is Some,
    decreases node, node.children.len() + 1,
{
    let ks = keys_of(st, node);
    if is_leaf(st.img(node.idx)) {
        let s = leaf_entries(st.img(node.idx));
        assert(ks == leaf_keys(s));
        assert forall|a: int, b: int| 0 <= a < b < ks.len() implies ks[a] < ks[b] by {
            assert(s[a].key < s[b].key);
        }
        assert forall|j: int| 0 <= j < ks.len() implies lo < #[trigger] ks[j] <= hi by {
            assert(lo < s[j].key <= hi);
        }
        assert forall|k: Key| #[trigger] ks.contains(k) <==> get(st, node, k) is Some by {
            if ks.contains(k) {
                let x = choose|x: int| 0 <= x < ks.len() && ks[x] == k;
                assert(s[x].key == k);
            }
            if get(st, node, k) is Some {
                let x = choose|x: int| 0 <= x < s.len() && (#[trigger] s[x]).key == k;
                assert(ks[x] == k);
            }
        }
    } else {
        let keys = internal_keys(st.img(node.idx));
        let n = node.children.len() as int;
        lemma_keys_upto(st, node, n, lo, hi);
        assert forall|k: Key| #[trigger] ks.contains(k) <==> get(st, node, k) is Some by {
            lemma_route_exists(keys, k);
            let r = route(keys, k);
            if ks.contains(k) {
                let j = choose|j: int|
                    0 <= j < n && (#[trigger] get(st, node.children[j], k)) is Some;
                lemma_get_in_range(
                    st,
                    node.children[j],
                    child_lo(keys, j, lo),
                    child_hi(keys, j, hi),
                    k,
                );
                assert forall|a: int| 0 <= a < j implies keys[a] < k by {
                    if a < j - 1 {
                        assert(keys[a] < keys[j - 1]);
                    }
                }
                assert forall|a: int| j <= a < keys.len() implies keys[a] >= k by {
                    if a > j {
                        assert(keys[j] < keys[a]);
                    }
                }
                lemma_route(keys, k, j);
            }
            if get(st, node, k) is Some {
                assert(0 <= r < n && get(st, node.children[r], k) is Some);
            }
        }
    }
}

/// Keys that ascend strictly hold no key twice.
pub proof fn lemma_sorted_no_duplicates(keys: Seq<Key>)
    requires
        keys_sorted(keys),
    ensures
        keys.no_duplicates(),
{
    assert forall|i: int, j: int| 0 <= i < keys.len() && 0 <= j < keys.len() && i != j implies keys[i]
        != keys[j] by {
        if i < j {
            assert(keys[i] < keys[j]);
        } else {
            assert(keys[j] < keys[i]);
        }
    }
}

impl BTree {
    /// Appends the keys of the leaf `page` to `out`.
    fn collect_leaf_keys(page: &LeafPage, out: &mut Vec<Key>)
        ensures
            final(out)@ == old(out)@ + leaf_keys(page.keys@),
    {
        let n: usize = page.keys.len();
        let mut i: usize = 0;
        proof {
            assert(out@ =~= old(out)@ + leaf_keys(page.keys@.take(0)));
        }
        while i < n
            invariant
                n == page.keys@.len(),
                0 <= i <= n,
                out@ == old(out)@ + leaf_keys(page.keys@.take(i as int)),
            decreases n - i,
        {
            out.push(page.keys[i].key);
            proof {
                assert(out@ =~= old(out)@ + leaf_keys(page.keys@.take(i + 1)));
            }
            i += 1;
        }
        proof {
            assert(page.keys@.take(n as int) =~= page.keys@);
        }
    }

    /// Appends the keys under the internal page `node` to `out`, child by
    /// child from left to right.
    fn collect_under<D: Disk>(
        &self,
        node: &InternalPage,
        db: &mut Database<D>,
        budget: u64,
        out: &mut Vec<Key>,
        Ghost(shape): Ghost<Node>,
    ) -> (r: Result<(), Error>)
        requires
            old(db).inv(),
            node.reads(old(db).disk@, old(db).spec_block_size()),
            budget > 0,
        ensures
            final(db).disk.reliable() == old(db).disk.reliable(),
            final(db).disk@ == old(db).disk@,
            final(db).meta == old(db).meta,
            repr(store_of(old(db)), shape) && store_of(old(db)).off(shape.idx) == node.offset
                && depth_ok(shape, budget as int) ==> match r {
                Ok(()) => final(out)@ == old(out)@ + keys_of(store_of(old(db)), shape),
                Err(e) => io_failure(&old(db).disk, e),
            },
        decreases budget, 0nat,
    {
        let ghost st = store_of(db);
        let ghost ready = repr(st, shape) && st.off(shape.idx) == node.offset && depth_ok(
            shape,
            budget as int,
        );
        let n: usize = node.pointers.len();
        let mut i: usize = 0;
        proof {
            lemma_end_bounds(db.meta);
            lemma_off_end(db);
            if ready {
                assert(!is_leaf(st.img(shape.idx)));
                assert(out@ =~= old(out)@ + keys_upto(st, shape, 0));
            }
        }
        while i < n
            invariant
                db.disk.reliable() == old(db).disk.reliable(),
                db.inv(),
                db.disk@ == old(db).disk@,
                db.meta == old(db).meta,
                st == store_of(db),
                st == store_of(old(db)),
                st.off(st.n) == db.spec_end(),
                n == node.pointers@.len(),
                0 <= i <= n,
                budget > 0,
                ready == (repr(st, shape) && st.off(shape.idx) == node.offset && depth_ok(
                    shape,
                    budget as int,
                )),
                node.reads(st.d, st.bs),
                ready ==> out@ == old(out)@ + keys_upto(st, shape, i as int),
            decreases n - i,
        {
            let ghost c = shape.children[i as int];
            proof {
                if ready {
                    assert(!is_leaf(st.img(shape.idx)));
                    assert(repr(st, c));
                    lemma_off(st, c.idx, st.n);
                }
            }
            let child = match Page::load(node.pointer(i), db) {
                Ok(child) => child,
                Err(e) => {
                    return Err(e);
                },
            };
            match self.collect_keys(child, db, budget - 1, out, Ghost(c)) {
                Ok(()) => {},
                Err(e) => {
                    return Err(e);
                },
            }
            proof {
                if ready {
                    assert(out@ =~= old(out)@ + keys_upto(st, shape, i + 1));
                }
            }
            i += 1;
        }
        Ok(())
    }

    /// Appends the keys under `page` to `out`, from left to right: the
    /// pages above the leaf at hand are on the stack.
    fn collect_keys<D: Disk>(
        &self,
        page: Page,
        db: &mut Database<D>,
        budget: u64,
        out: &mut Vec<Key>,
        Ghost(shape): Ghost<Node>,
    ) -> (r: Result<(), Error>)
        requires
            old(db).inv(),
            page.reads(old(db).disk@, page.spec_offset(), old(db).spec_block_size()),
        ensures
            final(db).disk.reliable() == old(db).disk.reliable(),
            final(db).disk@ == old(db).disk@,
            final(db).meta == old(db).meta,
            repr(store_of(old(db)), shape) && store_of(old(db)).off(shape.idx) == page.spec_offset()
                && depth_ok(shape, budget as int) ==> match r {
                Ok(()) => final(out)@ == old(out)@ + keys_of(store_of(old(db)), shape),
                Err(e) => io_failure(&old(db).disk, e),
            },
        decreases budget, 1nat,
    {
        match page {
            Page::Leaf(page) => {
                Self::collect_leaf_keys(&page, out);
                Ok(())
            },
            Page::Internal(page) => {
                if budget == 0 {
                    return Err(Error::InvariantViolation);
                }
                self.collect_under(&page, db, budget, out, Ghost(shape))
            },
        }
    }

    /// The keys of the tree, in ascending order. The database is left as
    /// it was.
    pub fn keys<D: Disk>(&self, db: &mut Database<D>) -> (r: Result<Vec<Key>, Error>)
        requires
            old(db).inv(),
        ensures
            final(db).disk.reliable() == old(db).disk.reliable(),
            final(db).disk@ == old(db).disk@,
            final(db).meta == old(db).meta,
            self.wf(old(db)) ==> match r {
                Ok(keys) => {
                    &&& keys_sorted(keys@)
                    &&& keys@.to_set() == self.contents(old(db)).dom()
                    &&& keys@.len() == self.contents(old(db)).dom().len()
                },
                Err(e) => io_failure(&old(db).disk, e),
            },
    {
        let ghost st = store_of(db);
        let ghost shape = self.shape(db);
        proof {
            lemma_end_bounds(db.meta);
            lemma_off_end(db);
            if self.wf(db) {
                lemma_depth_of_tree(st, shape);
                lemma_depth_more(shape, st.n - 2, st.n);
                lemma_off(st, shape.idx, st.n);
            }
        }
        let page = match Page::load(self.root, db) {
            Ok(page) => page,
            Err(e) => {
                return Err(e);
            },
        };
        let mut keys: Vec<Key> = Vec::new();
        let budget: u64 = db.meta.num_blocks_allocated;
        match self.collect_keys(page, db, budget, &mut keys, Ghost(shape)) {
            Ok(()) => {},
            Err(e) => {
                return Err(e);
            },
        }
        proof {
            if self.wf(old(db)) {
                lemma_keys_of(st, shape, -1, u128::MAX as int);
                assert(keys@ =~= keys_of(st, shape));
                assert(keys@.to_set() =~= self.contents(old(db)).dom());
                lemma_sorted_no_duplicates(keys@);
                keys@.unique_seq_to_set();
            }
        }
        Ok(keys)
    }
}

} // verus!
