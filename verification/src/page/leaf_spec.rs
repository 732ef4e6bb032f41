//! The slot directory of a leaf and its values: what they are on disk, and
//! what a change to the directory does to them.

use crate::bytes::lemma_u128_be_roundtrip;
use crate::bytes::lemma_u64_be_roundtrip;
use crate::bytes::u128_to_be;
use crate::bytes::u64_to_be;
use crate::database::DatabaseMeta;
use crate::database::HEADER_LEN;
use crate::database::lemma_header_kept;
use crate::disk::lemma_written;
use crate::disk::lemma_written_inside;
use crate::disk::lemma_written_outside;
use crate::disk::written;
use crate::key::Key;
use crate::page::LEAF_TAG;
use crate::page::PAGE_HEADER_LEN;
use crate::page::frame::kept_below;
use crate::page::frame::kept_outside;
use crate::page::frame::lemma_kept_below_subrange;
use crate::page::frame::lemma_kept_subrange;
use crate::page::image;
use crate::page::leaf_page::LeafPageEntry;
use crate::page::leaf_page::SLOT_LEN;
use crate::page::u128_at;
use crate::page::u64_at;
use vstd::prelude::*;

verus! {

/// Where slot `i` starts in its page.
pub open spec fn slot_pos(i: int) -> int {
    PAGE_HEADER_LEN + SLOT_LEN * i
}

/// The slot that a page image holds at index `i`.
pub open spec fn entry_at(img: Seq<u8>, i: int) -> LeafPageEntry {
    LeafPageEntry {
        key: u128_at(img, slot_pos(i)),
        offset: u64_at(img, slot_pos(i) + 16),
        value_len: u64_at(img, slot_pos(i) + 24),
    }
}

/// The slot directory that a page image holds.
pub open spec fn leaf_entries(img: Seq<u8>) -> Seq<LeafPageEntry> {
    Seq::new(u64_at(img, 1) as nat, |i: int| entry_at(img, i))
}

/// The bytes of a slot on disk.
pub open spec fn entry_bytes(e: LeafPageEntry) -> Seq<u8> {
    u128_to_be(e.key) + u64_to_be(e.offset) + u64_to_be(e.value_len)
}

/// The bytes of a slot directory on disk.
pub open spec fn entries_bytes(s: Seq<LeafPageEntry>) -> Seq<u8>
    decreases s.len(),
{
    if s.len() == 0 {
        Seq::empty()
    } else {
        entries_bytes(s.drop_last()) + entry_bytes(s.last())
    }
}

/// The bytes of a leaf's header on disk: tag, slot count, slots.
pub open spec fn leaf_header_bytes(s: Seq<LeafPageEntry>) -> Seq<u8> {
    seq![LEAF_TAG] + u64_to_be(s.len() as u64) + entries_bytes(s)
}

/// The sum of the value lengths of a directory.
pub open spec fn total_len(s: Seq<LeafPageEntry>) -> int
    decreases s.len(),
{
    if s.len() == 0 {
        0
    } else {
        total_len(s.drop_last()) + s.last().value_len
    }
}

/// The keys of a directory ascend strictly.
pub open spec fn entries_sorted(s: Seq<LeafPageEntry>) -> bool {
    forall|i: int, j: int| 0 <= i < j < s.len() ==> (#[trigger] s[i]).key < (#[trigger] s[j]).key
}

/// A directory is valid in a page of `bs` bytes: header and values fit
/// together, every value lies behind the header and within the page, and
/// the keys ascend strictly.
pub open spec fn entries_wf(s: Seq<LeafPageEntry>, bs: int) -> bool {
    &&& slot_pos(s.len() as int) + total_len(s) <= bs
    &&& forall|i: int|
        0 <= i < s.len() ==> slot_pos(s.len() as int) <= (#[trigger] s[i]).offset && s[i].offset
            + s[i].value_len <= bs
    &&& entries_sorted(s)
}

/// A page image is a valid leaf.
pub open spec fn is_leaf(img: Seq<u8>) -> bool {
    &&& img.len() >= PAGE_HEADER_LEN
    &&& img[0] == LEAF_TAG
    &&& entries_wf(leaf_entries(img), img.len() as int)
}

/// A directory has a slot for `key`.
pub open spec fn has_key(s: Seq<LeafPageEntry>, key: Key) -> bool {
    exists|i: int| 0 <= i < s.len() && (#[trigger] s[i]).key == key
}

/// `i` is the first slot for `key`.
pub open spec fn is_index_of(s: Seq<LeafPageEntry>, key: Key, i: int) -> bool {
    &&& 0 <= i < s.len()
    &&& s[i].key == key
    &&& forall|j: int| 0 <= j < i ==> (#[trigger] s[j]).key != key
}

/// The index of the first slot for `key`.
pub open spec fn index_of(s: Seq<LeafPageEntry>, key: Key) -> int {
    choose|i: int| is_index_of(s, key, i)
}

/// The value that a directory gives `key`, for a page at `off` of a device
/// that holds `d`.
pub open spec fn entries_value(d: Seq<u8>, off: int, s: Seq<LeafPageEntry>, key: Key) -> Option<
    Seq<u8>,
> {
    if has_key(s, key) {
        let e = s[index_of(s, key)];
        Some(d.subrange(off + e.offset, off + e.offset + e.value_len))
    } else {
        None
    }
}

/// The least value offset of a directory, or the page size where it is
/// empty: where the values of the page start.
pub open spec fn min_offset(s: Seq<LeafPageEntry>, bs: int) -> int
    decreases s.len(),
{
    if s.len() == 0 {
        bs
    } else {
        let m = min_offset(s.drop_last(), bs);
        if s.last().offset < m {
            s.last().offset as int
        } else {
            m
        }
    }
}

/// Where a slot for `key` goes in a directory: behind the slots with a
/// smaller key and before the others.
pub open spec fn is_slot_for(s: Seq<LeafPageEntry>, key: Key, p: int) -> bool {
    &&& 0 <= p <= s.len()
    &&& forall|i: int| 0 <= i < p ==> (#[trigger] s[i]).key < key
    &&& forall|i: int| p <= i < s.len() ==> (#[trigger] s[i]).key >= key
}

/// The index at which a slot for `key` goes.
pub open spec fn slot_for(s: Seq<LeafPageEntry>, key: Key) -> int {
    choose|p: int| is_slot_for(s, key, p)
}

/// The length of a directory's bytes, and where each slot's bytes are.
pub proof fn lemma_entries_bytes(s: Seq<LeafPageEntry>)
    ensures
        entries_bytes(s).len() == SLOT_LEN * s.len(),
        forall|i: int|
            0 <= i < s.len() ==> #[trigger] entries_bytes(s).subrange(
                SLOT_LEN * i,
                SLOT_LEN * i + SLOT_LEN,
            ) == entry_bytes(s[i]),
    decreases s.len(),
{
    if s.len() > 0 {
        let t = s.drop_last();
        lemma_entries_bytes(t);
        lemma_u128_be_roundtrip(s.last().key);
        lemma_u64_be_roundtrip(s.last().offset);
        lemma_u64_be_roundtrip(s.last().value_len);
        assert forall|i: int| 0 <= i < s.len() implies #[trigger] entries_bytes(s).subrange(
            SLOT_LEN * i,
            SLOT_LEN * i + SLOT_LEN,
        ) == entry_bytes(s[i]) by {
            if i < t.len() {
                assert(entries_bytes(s).subrange(SLOT_LEN * i, SLOT_LEN * i + SLOT_LEN)
                    =~= entries_bytes(t).subrange(SLOT_LEN * i, SLOT_LEN * i + SLOT_LEN));
                assert(t[i] == s[i]);
            } else {
                assert(entries_bytes(s).subrange(SLOT_LEN * i, SLOT_LEN * i + SLOT_LEN)
                    =~= entry_bytes(s.last()));
            }
        }
    }
}

/// A slot can be read back from its bytes.
pub proof fn lemma_entry_roundtrip(img: Seq<u8>, i: int, e: LeafPageEntry)
    requires
        0 <= i,
        slot_pos(i) + SLOT_LEN <= img.len(),
        img.subrange(slot_pos(i), slot_pos(i) + SLOT_LEN) == entry_bytes(e),
    ensures
        entry_at(img, i) == e,
{
    lemma_u128_be_roundtrip(e.key);
    lemma_u64_be_roundtrip(e.offset);
    lemma_u64_be_roundtrip(e.value_len);
    let p = slot_pos(i);
    let b = img.subrange(p, p + SLOT_LEN);
    assert(img.subrange(p, p + 16) =~= b.subrange(0, 16));
    assert(img.subrange(p + 16, p + 16 + 8) =~= b.subrange(16, 24));
    assert(img.subrange(p + 24, p + 24 + 8) =~= b.subrange(24, 32));
    assert(b.subrange(0, 16) =~= u128_to_be(e.key));
    assert(b.subrange(16, 24) =~= u64_to_be(e.offset));
    assert(b.subrange(24, 32) =~= u64_to_be(e.value_len));
}

/// A leaf header can be read back from a page image that starts with it.
pub proof fn lemma_leaf_header_roundtrip(img: Seq<u8>, s: Seq<LeafPageEntry>)
    requires
        s.len() <= u64::MAX,
        img.len() >= slot_pos(s.len() as int),
        img.subrange(0, slot_pos(s.len() as int)) == leaf_header_bytes(s),
    ensures
        img[0] == LEAF_TAG,
        leaf_entries(img) == s,
{
    let n = s.len() as int;
    let h = leaf_header_bytes(s);
    lemma_entries_bytes(s);
    lemma_u64_be_roundtrip(n as u64);
    assert(h[0] == LEAF_TAG);
    assert(img[0] == img.subrange(0, slot_pos(n))[0]);
    assert(img.subrange(1, 9) =~= h.subrange(1, 9));
    assert(h.subrange(1, 9) =~= u64_to_be(n as u64));
    assert(u64_at(img, 1) == n as u64);
    assert forall|i: int| 0 <= i < n implies entry_at(img, i) == s[i] by {
        let p = slot_pos(i);
        assert(p + SLOT_LEN <= slot_pos(n)) by (nonlinear_arith)
            requires
                p == PAGE_HEADER_LEN + SLOT_LEN * i,
                slot_pos(n) == PAGE_HEADER_LEN + SLOT_LEN * n,
                0 <= i < n,
        ;
        assert(img.subrange(p, p + SLOT_LEN) =~= h.subrange(p, p + SLOT_LEN));
        assert(h.subrange(p, p + SLOT_LEN) =~= entries_bytes(s).subrange(
            SLOT_LEN * i,
            SLOT_LEN * i + SLOT_LEN,
        ));
        lemma_entry_roundtrip(img, i, s[i]);
    }
    assert(leaf_entries(img) =~= s);
}

/// The first slot for a key is the only index that `is_index_of` accepts.
pub proof fn lemma_index_of(s: Seq<LeafPageEntry>, key: Key, i: int)
    requires
        is_index_of(s, key, i),
    ensures
        has_key(s, key),
        index_of(s, key) == i,
{
    let j = index_of(s, key);
    assert(is_index_of(s, key, j));
    if j < i {
        assert(s[j].key != key);
    }
    if i < j {
        assert(s[i].key != key);
    }
}

/// In a sorted directory every slot is the first for its key.
pub proof fn lemma_index_of_sorted(s: Seq<LeafPageEntry>, i: int)
    requires
        entries_sorted(s),
        0 <= i < s.len(),
    ensures
        has_key(s, s[i].key),
        index_of(s, s[i].key) == i,
{
    assert forall|j: int| 0 <= j < i implies (#[trigger] s[j]).key != s[i].key by {
        assert(s[j].key < s[i].key);
    }
    lemma_index_of(s, s[i].key, i);
}

/// The value lengths of a prefix sum to no more than those of the whole,
/// and one more slot adds its length.
pub proof fn lemma_total_len_take(s: Seq<LeafPageEntry>, i: int)
    requires
        0 <= i <= s.len(),
    ensures
        0 <= total_len(s.take(i)) <= total_len(s),
        i < s.len() ==> total_len(s.take(i + 1)) == total_len(s.take(i)) + s[i].value_len,
    decreases s.len() - i,
{
    if i < s.len() {
        lemma_total_len_take(s, i + 1);
        assert(s.take(i + 1).drop_last() =~= s.take(i));
        lemma_total_len_nonneg(s.take(i));
    } else {
        assert(s.take(i) =~= s);
        lemma_total_len_nonneg(s);
    }
}

/// A sum of value lengths is not negative.
pub proof fn lemma_total_len_nonneg(s: Seq<LeafPageEntry>)
    ensures
        0 <= total_len(s),
    decreases s.len(),
{
    if s.len() > 0 {
        lemma_total_len_nonneg(s.drop_last());
    }
}

/// Whether `len` bytes at `at` can be read from a device that holds `d`.
pub open spec fn readable(d: Seq<u8>, at: int, len: int) -> bool {
    &&& at + len <= d.len()
    &&& at + len <= u64::MAX
    &&& len <= usize::MAX
}

/// The least value offset is no greater than any slot's, nor than the page
/// size, and no less than what bounds them all from below.
pub proof fn lemma_min_offset(s: Seq<LeafPageEntry>, bs: int, lo: int)
    requires
        lo <= bs,
        forall|i: int| 0 <= i < s.len() ==> lo <= (#[trigger] s[i]).offset,
    ensures
        lo <= min_offset(s, bs) <= bs,
        forall|i: int| 0 <= i < s.len() ==> min_offset(s, bs) <= (#[trigger] s[i]).offset,
    decreases s.len(),
{
    if s.len() > 0 {
        let t = s.drop_last();
        assert forall|i: int| 0 <= i < t.len() implies lo <= (#[trigger] t[i]).offset by {
            assert(t[i] == s[i]);
        }
        lemma_min_offset(t, bs, lo);
        assert forall|i: int| 0 <= i < s.len() implies min_offset(
            s,
            bs,
        ) <= (#[trigger] s[i]).offset by {
            if i < t.len() {
                assert(t[i] == s[i]);
            }
        }
    }
}

/// What a new slot does to the sum of the value lengths.
pub proof fn lemma_total_len_insert(s: Seq<LeafPageEntry>, p: int, e: LeafPageEntry)
    requires
        0 <= p <= s.len(),
    ensures
        total_len(s.insert(p, e)) == total_len(s) + e.value_len,
    decreases s.len(),
{
    let s2 = s.insert(p, e);
    if p == s.len() {
        assert(s2.drop_last() =~= s);
    } else {
        assert(s2.drop_last() =~= s.drop_last().insert(p, e));
        lemma_total_len_insert(s.drop_last(), p, e);
    }
}

/// What removing a slot does to the sum of the value lengths.
pub proof fn lemma_total_len_remove(s: Seq<LeafPageEntry>, i: int)
    requires
        0 <= i < s.len(),
    ensures
        total_len(s.remove(i)) == total_len(s) - s[i].value_len,
{
    let t = s.remove(i);
    assert(t.insert(i, s[i]) =~= s);
    lemma_total_len_insert(t, i, s[i]);
}

/// What a new slot does to the lookups in a sorted directory.
pub proof fn lemma_insert_lookup(s: Seq<LeafPageEntry>, p: int, e: LeafPageEntry, k: Key)
    requires
        0 <= p <= s.len(),
        entries_sorted(s.insert(p, e)),
    ensures
        entries_sorted(s),
        !has_key(s, e.key),
        has_key(s.insert(p, e), k) <==> (k == e.key || has_key(s, k)),
        has_key(s.insert(p, e), k) ==> s.insert(p, e)[index_of(s.insert(p, e), k)] == (if k
            == e.key {
            e
        } else {
            s[index_of(s, k)]
        }),
{
    let s2 = s.insert(p, e);
    assert forall|i: int, j: int| 0 <= i < j < s.len() implies (#[trigger] s[i]).key < (
    #[trigger] s[j]).key by {
        let i2 = if i < p { i } else { i + 1 };
        let j2 = if j < p { j } else { j + 1 };
        assert(s2[i2] == s[i] && s2[j2] == s[j]);
    }
    assert(s2[p] == e);
    if has_key(s, e.key) {
        let i = choose|i: int| 0 <= i < s.len() && (#[trigger] s[i]).key == e.key;
        let i2 = if i < p { i } else { i + 1 };
        assert(s2[i2] == s[i]);
        if i2 < p {
            assert(s2[i2].key < s2[p].key);
        } else {
            assert(s2[p].key < s2[i2].key);
        }
    }
    if k == e.key {
        lemma_index_of_sorted(s2, p);
    } else if has_key(s, k) {
        let i = choose|i: int| 0 <= i < s.len() && (#[trigger] s[i]).key == k;
        lemma_index_of_sorted(s, i);
        let i2 = if i < p { i } else { i + 1 };
        assert(s2[i2] == s[i]);
        lemma_index_of_sorted(s2, i2);
    } else if has_key(s2, k) {
        let i2 = choose|i: int| 0 <= i < s2.len() && (#[trigger] s2[i]).key == k;
        let i = if i2 < p { i2 } else { i2 - 1 };
        assert(s[i] == s2[i2]);
    }
}

/// What removing a slot does to the lookups in a sorted directory.
pub proof fn lemma_remove_lookup(s: Seq<LeafPageEntry>, i: int, k: Key)
    requires
        0 <= i < s.len(),
        entries_sorted(s),
    ensures
        entries_sorted(s.remove(i)),
        has_key(s.remove(i), k) <==> (k != s[i].key && has_key(s, k)),
        has_key(s.remove(i), k) ==> s.remove(i)[index_of(s.remove(i), k)] == s[index_of(s, k)],
{
    let t = s.remove(i);
    assert(t.insert(i, s[i]) =~= s);
    assert forall|a: int, b: int| 0 <= a < b < t.len() implies (#[trigger] t[a]).key < (
    #[trigger] t[b]).key by {
        let a2 = if a < i { a } else { a + 1 };
        let b2 = if b < i { b } else { b + 1 };
        assert(s[a2] == t[a] && s[b2] == t[b]);
    }
    lemma_insert_lookup(t, i, s[i], k);
}

/// What writing a leaf's header does: the device keeps its length and all
/// bytes but the header's, and the page reads as a leaf with this
/// directory.
pub proof fn lemma_header_write(d: Seq<u8>, off: int, bs: int, s: Seq<LeafPageEntry>)
    requires
        0 <= off,
        off + bs <= d.len(),
        entries_wf(s, bs),
    ensures
        leaf_header_bytes(s).len() == slot_pos(s.len() as int),
        written(d, off, leaf_header_bytes(s)).len() == d.len(),
        kept_outside(
            d,
            written(d, off, leaf_header_bytes(s)),
            off,
            off + slot_pos(s.len() as int),
        ),
        is_leaf(image(written(d, off, leaf_header_bytes(s)), off, bs)),
        leaf_entries(image(written(d, off, leaf_header_bytes(s)), off, bs)) == s,
{
    reveal(kept_outside);
    let hb = leaf_header_bytes(s);
    let d2 = written(d, off, hb);
    let n = s.len() as int;
    lemma_entries_bytes(s);
    lemma_total_len_nonneg(s);
    lemma_u64_be_roundtrip(n as u64);
    assert(hb.len() == slot_pos(n));
    lemma_written(d, off, hb);
    let img = image(d2, off, bs);
    assert(img.subrange(0, slot_pos(n)) =~= hb);
    lemma_leaf_header_roundtrip(img, s);
}

/// In a valid directory the first slot for a key that it has is a slot of
/// it, and lies behind the header and within the page.
pub proof fn lemma_index_of_wf(s: Seq<LeafPageEntry>, bs: int, k: Key)
    requires
        entries_wf(s, bs),
        has_key(s, k),
    ensures
        0 <= index_of(s, k) < s.len(),
        s[index_of(s, k)].key == k,
        slot_pos(s.len() as int) <= s[index_of(s, k)].offset,
        s[index_of(s, k)].offset + s[index_of(s, k)].value_len <= bs,
{
    let i = choose|i: int| 0 <= i < s.len() && (#[trigger] s[i]).key == k;
    lemma_index_of_sorted(s, i);
}

/// What placing a value and writing the header with its slot does to the
/// value of one key.
pub proof fn lemma_place_value_key(
    d: Seq<u8>,
    off: int,
    bs: int,
    s: Seq<LeafPageEntry>,
    p: int,
    e: LeafPageEntry,
    data: Seq<u8>,
    k: Key,
)
    requires
        0 <= off,
        off + bs <= d.len(),
        0 <= p <= s.len(),
        entries_wf(s.insert(p, e), bs),
        e.value_len == data.len(),
        forall|i: int| 0 <= i < s.len() ==> e.offset + e.value_len <= (#[trigger] s[i]).offset,
    ensures
        entries_value(
            written(written(d, off + e.offset, data), off, leaf_header_bytes(s.insert(p, e))),
            off,
            s.insert(p, e),
            k,
        ) == if k == e.key {
            Some(data)
        } else {
            entries_value(d, off, s, k)
        },
{
    let s2 = s.insert(p, e);
    let d1 = written(d, off + e.offset, data);
    let d2 = written(d1, off, leaf_header_bytes(s2));
    assert(s2[p] == e);
    lemma_written_inside(d, off + e.offset, data);
    lemma_written(d, off + e.offset, data);
    assert(d1.len() == d.len());
    lemma_header_write(d1, off, bs, s2);
    lemma_insert_lookup(s, p, e, k);
    if has_key(s2, k) {
        lemma_index_of_wf(s2, bs, k);
        let x = s2[index_of(s2, k)];
        lemma_kept_subrange(
            d1,
            d2,
            off,
            off + slot_pos(s2.len() as int),
            off + x.offset,
            off + x.offset + x.value_len,
        );
        if k != e.key {
            let i = choose|i: int| 0 <= i < s.len() && (#[trigger] s[i]).key == k;
            lemma_index_of_sorted(s, i);
            lemma_written_outside(
                d,
                off + e.offset,
                data,
                off + x.offset,
                off + x.offset + x.value_len,
            );
        }
    }
}

/// What placing a value and writing the header with its slot does: the
/// page reads as a leaf with the new directory, the key has the new value,
/// and every other key has the value it had.
pub proof fn lemma_place_value(
    d: Seq<u8>,
    off: int,
    bs: int,
    s: Seq<LeafPageEntry>,
    p: int,
    e: LeafPageEntry,
    data: Seq<u8>,
)
    requires
        0 <= off,
        off + bs <= d.len(),
        0 <= p <= s.len(),
        entries_wf(s.insert(p, e), bs),
        e.value_len == data.len(),
        forall|i: int| 0 <= i < s.len() ==> e.offset + e.value_len <= (#[trigger] s[i]).offset,
    ensures
        ({
            let s2 = s.insert(p, e);
            let d2 = written(written(d, off + e.offset, data), off, leaf_header_bytes(s2));
            &&& d2.len() == d.len()
            &&& kept_outside(d, d2, off, off + bs)
            &&& is_leaf(image(d2, off, bs))
            &&& leaf_entries(image(d2, off, bs)) == s2
            &&& forall|k: Key|
                #[trigger] entries_value(d2, off, s2, k) == if k == e.key {
                    Some(data)
                } else {
                    entries_value(d, off, s, k)
                }
        }),
{
    reveal(kept_outside);
    let s2 = s.insert(p, e);
    let d1 = written(d, off + e.offset, data);
    let d2 = written(d1, off, leaf_header_bytes(s2));
    assert(s2[p] == e);
    lemma_written_inside(d, off + e.offset, data);
    lemma_written(d, off + e.offset, data);
    assert(d1.len() == d.len());
    assert(kept_outside(d, d1, off + e.offset, off + e.offset + e.value_len));
    lemma_header_write(d1, off, bs, s2);
    lemma_total_len_nonneg(s2);
    assert(kept_outside(d, d2, off, off + bs));
    assert forall|k: Key| #[trigger] entries_value(d2, off, s2, k) == if k == e.key {
        Some(data)
    } else {
        entries_value(d, off, s, k)
    } by {
        lemma_place_value_key(d, off, bs, s, p, e, data, k);
    }
}

/// There is one index at which a slot for a key goes.
pub proof fn lemma_slot_for(s: Seq<LeafPageEntry>, key: Key, p: int)
    requires
        is_slot_for(s, key, p),
    ensures
        slot_for(s, key) == p,
{
    let q = slot_for(s, key);
    assert(is_slot_for(s, key, q));
    if q < p {
        assert(s[q].key < key);
        assert(s[q].key >= key);
    }
    if p < q {
        assert(s[p].key < key);
        assert(s[p].key >= key);
    }
}

/// A slot that goes where `slot_for` says keeps a directory sorted, if its
/// key is new.
pub proof fn lemma_insert_sorted(s: Seq<LeafPageEntry>, p: int, e: LeafPageEntry)
    requires
        entries_sorted(s),
        is_slot_for(s, e.key, p),
        !has_key(s, e.key),
    ensures
        entries_sorted(s.insert(p, e)),
{
    let s2 = s.insert(p, e);
    assert forall|i: int, j: int| 0 <= i < j < s2.len() implies (#[trigger] s2[i]).key < (
    #[trigger] s2[j]).key by {
        if i == p {
            assert(s2[j] == s[j - 1]);
            assert(s[j - 1].key >= e.key);
        } else if j == p {
            assert(s2[i] == s[i]);
        } else {
            let i1 = if i < p { i } else { i - 1 };
            let j1 = if j < p { j } else { j - 1 };
            assert(s2[i] == s[i1] && s2[j] == s[j1]);
        }
    }
}

/// What a new slot does to the least value offset.
pub proof fn lemma_min_offset_insert(s: Seq<LeafPageEntry>, bs: int, p: int, e: LeafPageEntry)
    requires
        0 <= p <= s.len(),
    ensures
        min_offset(s.insert(p, e), bs) == if e.offset < min_offset(s, bs) {
            e.offset as int
        } else {
            min_offset(s, bs)
        },
    decreases s.len(),
{
    let s2 = s.insert(p, e);
    if p == s.len() {
        assert(s2.drop_last() =~= s);
    } else {
        assert(s2.drop_last() =~= s.drop_last().insert(p, e));
        lemma_min_offset_insert(s.drop_last(), bs, p, e);
    }
}

/// The value lengths of a directory are those before an index and those
/// from it on.
pub proof fn lemma_total_len_split(s: Seq<LeafPageEntry>, i: int)
    requires
        0 <= i <= s.len(),
    ensures
        total_len(s) == total_len(s.take(i)) + total_len(s.skip(i)),
    decreases s.len(),
{
    if i == s.len() {
        assert(s.take(i) =~= s);
        assert(s.skip(i) =~= Seq::<LeafPageEntry>::empty());
    } else {
        assert(s.drop_last().take(i) =~= s.take(i));
        assert(s.skip(i).drop_last() =~= s.drop_last().skip(i));
        lemma_total_len_split(s.drop_last(), i);
    }
}

/// What removing a slot and writing the header does: the page reads as a
/// leaf with the shorter directory, the slot's key has no value, and every
/// other key has the value it had.
pub proof fn lemma_remove_value(d: Seq<u8>, off: int, bs: int, s: Seq<LeafPageEntry>, i: int)
    requires
        0 <= off,
        off + bs <= d.len(),
        entries_wf(s, bs),
        0 <= i < s.len(),
    ensures
        ({
            let s2 = s.remove(i);
            let d2 = written(d, off, leaf_header_bytes(s2));
            &&& entries_wf(s2, bs)
            &&& total_len(s2) == total_len(s) - s[i].value_len
            &&& d2.len() == d.len()
            &&& kept_outside(d, d2, off, off + bs)
            &&& is_leaf(image(d2, off, bs))
            &&& leaf_entries(image(d2, off, bs)) == s2
            &&& forall|k: Key|
                #[trigger] entries_value(d2, off, s2, k) == if k == s[i].key {
                    None
                } else {
                    entries_value(d, off, s, k)
                }
        }),
{
    reveal(kept_outside);
    let s2 = s.remove(i);
    let d2 = written(d, off, leaf_header_bytes(s2));
    lemma_total_len_remove(s, i);
    lemma_remove_lookup(s, i, s[i].key);
    assert forall|j: int| 0 <= j < s2.len() implies slot_pos(s2.len() as int) <= (
    #[trigger] s2[j]).offset && s2[j].offset + s2[j].value_len <= bs by {
        let j1 = if j < i { j } else { j + 1 };
        assert(s2[j] == s[j1]);
    }
    assert(entries_wf(s2, bs));
    lemma_header_write(d, off, bs, s2);
    lemma_total_len_nonneg(s2);
    assert forall|k: Key| #[trigger] entries_value(d2, off, s2, k) == if k == s[i].key {
        None
    } else {
        entries_value(d, off, s, k)
    } by {
        lemma_remove_lookup(s, i, k);
        if has_key(s2, k) {
            lemma_index_of_wf(s2, bs, k);
            let x = s2[index_of(s2, k)];
            lemma_kept_subrange(
                d,
                d2,
                off,
                off + slot_pos(s2.len() as int),
                off + x.offset,
                off + x.offset + x.value_len,
            );
        }
    }
}

/// Whether a value of `len` bytes for `key` fits into a page of `bs` bytes
/// with this directory, once the slot that the key has, if any, is gone.
pub open spec fn upsert_fits(s: Seq<LeafPageEntry>, key: Key, len: int, bs: int) -> bool {
    if has_key(s, key) {
        slot_pos(s.len() as int) + total_len(s) - s[index_of(s, key)].value_len + len <= bs
    } else {
        slot_pos(s.len() as int + 1) + total_len(s) + len <= bs
    }
}

/// The directory once its values lie packed against the end of the page,
/// in the order of the directory: each value ends where the one before it
/// begins, and the first ends with the page.
pub open spec fn packed(s: Seq<LeafPageEntry>, bs: int) -> Seq<LeafPageEntry> {
    Seq::new(
        s.len(),
        |i: int|
            LeafPageEntry {
                key: s[i].key,
                offset: (bs - total_len(s.take(i + 1))) as u64,
                value_len: s[i].value_len,
            },
    )
}

/// Whether a value of `len` bytes goes between the header with one slot
/// more and the lowest value.
pub open spec fn has_room(s: Seq<LeafPageEntry>, len: int, bs: int) -> bool {
    slot_pos(s.len() as int + 1) + len <= min_offset(s, bs)
}

/// The directory with a slot for `key`, which it does not have: the value
/// of `len` bytes lies right below the lowest value, or at the end of an
/// empty page.
pub open spec fn placed(s: Seq<LeafPageEntry>, key: Key, len: int, bs: int) -> Seq<LeafPageEntry> {
    s.insert(
        slot_for(s, key),
        LeafPageEntry { key, offset: (min_offset(s, bs) - len) as u64, value_len: len as u64 },
    )
}

/// The directory after a value of `len` bytes has been stored for `key`,
/// which it does not have: where there is no room for it, the values are
/// packed first.
pub open spec fn inserted(s: Seq<LeafPageEntry>, key: Key, len: int, bs: int) -> Seq<
    LeafPageEntry,
> {
    placed(
        if has_room(s, len, bs) {
            s
        } else {
            packed(s, bs)
        },
        key,
        len,
        bs,
    )
}

/// The directory after a value of `len` bytes has been stored for `key`:
/// the slot that the key has, if any, goes first.
pub open spec fn upserted(s: Seq<LeafPageEntry>, key: Key, len: int, bs: int) -> Seq<
    LeafPageEntry,
> {
    inserted(
        if has_key(s, key) {
            s.remove(index_of(s, key))
        } else {
            s
        },
        key,
        len,
        bs,
    )
}

/// Storing the value of slot `j` in a page that holds the slots from `a`
/// up to `j`, packed, gives the slots from `a` up to and with `j`, packed.
pub proof fn lemma_packed_step(
    s: Seq<LeafPageEntry>,
    bs: int,
    a: int,
    j: int,
    cur: Seq<LeafPageEntry>,
)
    requires
        entries_wf(s, bs),
        0 <= a <= j < s.len(),
        bs <= u64::MAX,
        cur == packed(s.skip(a), bs).take(j - a),
        total_len(cur) == total_len(s.subrange(a, j)),
        min_offset(cur, bs) == bs - total_len(cur),
    ensures
        upserted(cur, s[j].key, s[j].value_len as int, bs) == packed(s.skip(a), bs).take(
            j + 1 - a,
        ),
        min_offset(packed(s.skip(a), bs).take(j + 1 - a), bs) == bs - total_len(
            s.subrange(a, j + 1),
        ),
{
    let x = s.skip(a);
    let i = j - a;
    let key = s[j].key;
    let len = s[j].value_len as int;
    lemma_sub_directory_step(s, bs, a, j);
    assert(x.take(i) =~= s.subrange(a, j));
    assert(x.take(i + 1) =~= s.subrange(a, j + 1));
    assert(is_slot_for(cur, key, i)) by {
        assert forall|q: int| 0 <= q < i implies (#[trigger] cur[q]).key < key by {
            assert(cur[q].key == x[q].key);
            assert(s[a + q].key < s[j].key);
        }
    }
    lemma_slot_for(cur, key, i);
    if has_key(cur, key) {
        let q = choose|q: int| 0 <= q < cur.len() && (#[trigger] cur[q]).key == key;
        assert(cur[q].key < key);
    }
    assert(has_room(cur, len, bs));
    let e = LeafPageEntry { key, offset: (min_offset(cur, bs) - len) as u64, value_len: len as u64 };
    lemma_total_len_nonneg(s.subrange(a, j + 1));
    assert(e.offset == bs - total_len(s.subrange(a, j + 1)));
    assert(placed(cur, key, len, bs) =~= packed(x, bs).take(i + 1));
    lemma_min_offset_insert(cur, bs, i, e);
}

/// A part of a valid directory is a valid directory, and gives the keys
/// that it has the slots that the whole gives them.
pub proof fn lemma_sub_directory(s: Seq<LeafPageEntry>, bs: int, a: int, b: int)
    requires
        entries_wf(s, bs),
        0 <= a <= b <= s.len(),
    ensures
        entries_wf(s.subrange(a, b), bs),
        0 <= total_len(s.subrange(a, b)) <= total_len(s),
        forall|k: Key|
            #[trigger] has_key(s.subrange(a, b), k) <==> exists|i: int|
                a <= i < b && (#[trigger] s[i]).key == k,
        forall|k: Key|
            #[trigger] has_key(s.subrange(a, b), k) ==> has_key(s, k) && s.subrange(
                a,
                b,
            )[index_of(s.subrange(a, b), k)] == s[index_of(s, k)],
{
    let t = s.subrange(a, b);
    lemma_total_len_split(s, a);
    lemma_total_len_take(s.skip(a), b - a);
    lemma_total_len_take(s, a);
    assert(s.skip(a).take(b - a) =~= t);
    assert(slot_pos(t.len() as int) <= slot_pos(s.len() as int));
    assert forall|i: int| 0 <= i < t.len() implies slot_pos(t.len() as int) <= (
    #[trigger] t[i]).offset && t[i].offset + t[i].value_len <= bs by {
        assert(t[i] == s[a + i]);
    }
    assert forall|i: int, j: int| 0 <= i < j < t.len() implies (#[trigger] t[i]).key < (
    #[trigger] t[j]).key by {
        assert(t[i] == s[a + i] && t[j] == s[a + j]);
    }
    assert forall|k: Key| #[trigger] has_key(t, k) <==> exists|i: int|
        a <= i < b && (#[trigger] s[i]).key == k by {
        if has_key(t, k) {
            let i = choose|i: int| 0 <= i < t.len() && (#[trigger] t[i]).key == k;
            assert(s[a + i].key == k);
        }
        if exists|i: int| a <= i < b && (#[trigger] s[i]).key == k {
            let i = choose|i: int| a <= i < b && (#[trigger] s[i]).key == k;
            assert(t[i - a].key == k);
        }
    }
    assert forall|k: Key| #[trigger] has_key(t, k) implies has_key(s, k) && t[index_of(t, k)]
        == s[index_of(s, k)] by {
        let i = choose|i: int| 0 <= i < t.len() && (#[trigger] t[i]).key == k;
        lemma_index_of_sorted(t, i);
        assert(s[a + i] == t[i]);
        lemma_index_of_sorted(s, a + i);
    }
}

/// What one more slot does to a part of a valid directory.
pub proof fn lemma_sub_directory_step(s: Seq<LeafPageEntry>, bs: int, a: int, j: int)
    requires
        entries_wf(s, bs),
        0 <= a <= j < s.len(),
    ensures
        !has_key(s.subrange(a, j), s[j].key),
        has_key(s, s[j].key),
        index_of(s, s[j].key) == j,
        total_len(s.subrange(a, j + 1)) == total_len(s.subrange(a, j)) + s[j].value_len,
        slot_pos(j + 1 - a) + total_len(s.subrange(a, j + 1)) <= bs,
        forall|k: Key|
            #[trigger] has_key(s.subrange(a, j + 1), k) <==> (k == s[j].key || has_key(
                s.subrange(a, j),
                k,
            )),
{
    lemma_sub_directory(s, bs, a, j);
    lemma_sub_directory(s, bs, a, j + 1);
    lemma_index_of_sorted(s, j);
    let t = s.subrange(a, j + 1);
    assert(t.drop_last() =~= s.subrange(a, j));
    assert(t.last() == s[j]);
    if has_key(s.subrange(a, j), s[j].key) {
        let i = choose|i: int| a <= i < j && (#[trigger] s[i]).key == s[j].key;
        assert(s[i].key < s[j].key);
    }
    assert(slot_pos(j + 1 - a) <= slot_pos(s.len() as int));
    assert forall|k: Key| #[trigger] has_key(t, k) <==> (k == s[j].key || has_key(
        s.subrange(a, j),
        k,
    )) by {
        if has_key(t, k) {
            let i = choose|i: int| a <= i < j + 1 && (#[trigger] s[i]).key == k;
            if i < j {
                assert(has_key(s.subrange(a, j), k));
            }
        }
        if has_key(s.subrange(a, j), k) {
            let i = choose|i: int| a <= i < j && (#[trigger] s[i]).key == k;
            assert(a <= i < j + 1 && s[i].key == k);
        }
        if k == s[j].key {
            assert(a <= j < j + 1 && s[j].key == k);
        }
    }
}

/// The values of a page are kept where the device changes only outside
/// the page, below a limit behind it, and not in block 0.
pub proof fn lemma_values_kept_below(
    d: Seq<u8>,
    d2: Seq<u8>,
    limit: int,
    lo: int,
    hi: int,
    off: int,
    bs: int,
    s: Seq<LeafPageEntry>,
    k: Key,
)
    requires
        kept_below(d, d2, limit, lo, hi),
        entries_wf(s, bs),
        HEADER_LEN <= off,
        off + bs <= d.len(),
        off + bs <= limit,
        off + bs <= lo || hi <= off,
    ensures
        entries_value(d2, off, s, k) == entries_value(d, off, s, k),
{
    if has_key(s, k) {
        lemma_index_of_wf(s, bs, k);
        let x = s[index_of(s, k)];
        lemma_kept_below_subrange(
            d,
            d2,
            limit,
            lo,
            hi,
            off + x.offset,
            off + x.offset + x.value_len,
        );
    }
}

/// The values of a page are kept where the device changes only outside
/// the page.
pub proof fn lemma_values_kept(
    d: Seq<u8>,
    d2: Seq<u8>,
    lo: int,
    hi: int,
    off: int,
    bs: int,
    s: Seq<LeafPageEntry>,
    k: Key,
)
    requires
        kept_outside(d, d2, lo, hi),
        entries_wf(s, bs),
        0 <= off,
        off + bs <= d.len(),
        off + bs <= lo || hi <= off,
    ensures
        entries_value(d2, off, s, k) == entries_value(d, off, s, k),
        image(d2, off, bs) == image(d, off, bs),
{
    lemma_kept_subrange(d, d2, lo, hi, off, off + bs);
    if has_key(s, k) {
        lemma_index_of_wf(s, bs, k);
        let x = s[index_of(s, k)];
        lemma_kept_subrange(d, d2, lo, hi, off + x.offset, off + x.offset + x.value_len);
    }
}

/// What cutting a directory at `split` and writing the header does to the
/// value of one key.
pub proof fn lemma_truncate_value(
    d: Seq<u8>,
    off: int,
    bs: int,
    s: Seq<LeafPageEntry>,
    split: int,
    k: Key,
)
    requires
        0 <= off,
        off + bs <= d.len(),
        entries_wf(s, bs),
        0 <= split <= s.len(),
    ensures
        entries_value(written(d, off, leaf_header_bytes(s.take(split))), off, s.take(split), k)
            == if has_key(s.take(split), k) {
            entries_value(d, off, s, k)
        } else {
            None
        },
{
    let t = s.take(split);
    assert(t =~= s.subrange(0, split));
    lemma_sub_directory(s, bs, 0, split);
    lemma_header_write(d, off, bs, t);
    if has_key(t, k) {
        lemma_index_of_wf(s, bs, k);
        let x = s[index_of(s, k)];
        assert(slot_pos(t.len() as int) <= slot_pos(s.len() as int));
        lemma_kept_subrange(
            d,
            written(d, off, leaf_header_bytes(t)),
            off,
            off + slot_pos(t.len() as int),
            off + x.offset,
            off + x.offset + x.value_len,
        );
    }
}

/// What a split has done once the right sibling holds the upper half and
/// the header of the left page is written: both pages are leaves with
/// their halves of the values, and no other page has changed.
pub proof fn lemma_split_done(
    d: Seq<u8>,
    d1: Seq<u8>,
    d2: Seq<u8>,
    d3: Seq<u8>,
    off: int,
    bs: int,
    end: int,
    s: Seq<LeafPageEntry>,
    split: int,
    right: Seq<LeafPageEntry>,
)
    requires
        entries_wf(s, bs),
        entries_wf(right, bs),
        HEADER_LEN <= bs <= off,
        off + bs <= end,
        off + bs <= d.len(),
        0 <= split <= s.len(),
        kept_below(d, d1, end, end, end),
        end + bs <= d1.len(),
        kept_outside(d1, d2, end, end + bs),
        d2.len() == d1.len(),
        d3 == written(d2, off, leaf_header_bytes(s.take(split))),
        is_leaf(image(d2, end, bs)),
        leaf_entries(image(d2, end, bs)) == right,
        forall|k: Key|
            #[trigger] entries_value(d2, end, right, k) == if has_key(s.skip(split), k) {
                entries_value(d1, off, s, k)
            } else {
                None
            },
    ensures
        entries_wf(s.take(split), bs),
        d3.len() == d1.len(),
        DatabaseMeta::decoded(d3) == DatabaseMeta::decoded(d1),
        kept_below(d, d3, end, off, off + bs),
        is_leaf(image(d3, off, bs)),
        leaf_entries(image(d3, off, bs)) == s.take(split),
        is_leaf(image(d3, end, bs)),
        leaf_entries(image(d3, end, bs)) == right,
        forall|k: Key|
            #[trigger] entries_value(d3, off, s.take(split), k) == if has_key(s.take(split), k) {
                entries_value(d, off, s, k)
            } else {
                None
            },
        forall|k: Key|
            #[trigger] entries_value(d3, end, right, k) == if has_key(s.skip(split), k) {
                entries_value(d, off, s, k)
            } else {
                None
            },
{
    reveal(kept_outside);
    reveal(kept_below);
    let t = s.take(split);
    assert(t =~= s.subrange(0, split));
    lemma_sub_directory(s, bs, 0, split);
    lemma_header_write(d2, off, bs, t);
    lemma_total_len_nonneg(t);
    let hl = off + slot_pos(t.len() as int);
    lemma_kept_subrange(d1, d2, end, end + bs, 0, HEADER_LEN as int);
    lemma_kept_subrange(d2, d3, off, hl, 0, HEADER_LEN as int);
    lemma_header_kept(d1, d3);
    lemma_values_kept(d2, d3, off, hl, end, bs, right, 0);
    assert forall|k: Key| #[trigger]
        entries_value(d3, end, right, k) == if has_key(s.skip(split), k) {
            entries_value(d, off, s, k)
        } else {
            None
        } by {
        lemma_values_kept(d2, d3, off, hl, end, bs, right, k);
        lemma_values_kept_below(d, d1, end, end, end, off, bs, s, k);
        assert(entries_value(d2, end, right, k) == if has_key(s.skip(split), k) {
            entries_value(d1, off, s, k)
        } else {
            None
        });
    }
    assert forall|k: Key| #[trigger]
        entries_value(d3, off, t, k) == if has_key(t, k) {
            entries_value(d, off, s, k)
        } else {
            None
        } by {
        lemma_truncate_value(d2, off, bs, s, split, k);
        lemma_values_kept(d1, d2, end, end + bs, off, bs, s, k);
        lemma_values_kept_below(d, d1, end, end, end, off, bs, s, k);
    }
    assert forall|i: int|
        HEADER_LEN <= i < d.len() && i < end && !(off <= i < off + bs) implies #[trigger] d3[i]
        == d[i] by {
        assert(d1[i] == d[i]);
        assert(d2[i] == d1[i]);
        assert(d3[i] == d2[i]);
    }
}

} // verus!
