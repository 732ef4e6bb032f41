//! Keys and child offsets of an internal page: what they are on disk, and
//! where a key is looked for among them.

use crate::bytes::lemma_u128_be_roundtrip;
use crate::bytes::lemma_u64_be_roundtrip;
use crate::bytes::u128_to_be;
use crate::bytes::u64_to_be;
use crate::disk::lemma_written;
use crate::disk::written;
use crate::key::Key;
use crate::page::INTERNAL_TAG;
use crate::page::PAGE_HEADER_LEN;
use crate::page::PageOffset;
use crate::page::frame::kept_outside;
use crate::page::image;
use crate::page::internal_page::KEY_LEN;
use crate::page::internal_page::POINTER_LEN;
use crate::page::u128_at;
use crate::page::u64_at;
use vstd::prelude::*;

verus! {

/// Where key `i` starts in its page.
pub open spec fn key_pos(i: int) -> int {
    PAGE_HEADER_LEN + KEY_LEN * i
}

/// Where child offset `i` starts in a page with `k` keys.
pub open spec fn pointer_pos(k: int, i: int) -> int {
    PAGE_HEADER_LEN + KEY_LEN * k + POINTER_LEN * i
}

/// The keys that a page image holds.
pub open spec fn internal_keys(img: Seq<u8>) -> Seq<Key> {
    Seq::new(u64_at(img, 1) as nat, |i: int| u128_at(img, key_pos(i)))
}

/// The child offsets that a page image holds: one more than keys.
pub open spec fn internal_pointers(img: Seq<u8>) -> Seq<PageOffset> {
    Seq::new(
        (u64_at(img, 1) + 1) as nat,
        |i: int| u64_at(img, pointer_pos(u64_at(img, 1) as int, i)),
    )
}

/// The bytes of a sequence of keys on disk.
pub open spec fn keys_bytes(keys: Seq<Key>) -> Seq<u8>
    decreases keys.len(),
{
    if keys.len() == 0 {
        Seq::empty()
    } else {
        keys_bytes(keys.drop_last()) + u128_to_be(keys.last())
    }
}

/// The bytes of a sequence of child offsets on disk.
pub open spec fn pointers_bytes(pointers: Seq<PageOffset>) -> Seq<u8>
    decreases pointers.len(),
{
    if pointers.len() == 0 {
        Seq::empty()
    } else {
        pointers_bytes(pointers.drop_last()) + u64_to_be(pointers.last())
    }
}

/// The bytes of an internal page's contents: tag, key count, keys, child
/// offsets.
pub open spec fn internal_bytes(keys: Seq<Key>, pointers: Seq<PageOffset>) -> Seq<u8> {
    seq![INTERNAL_TAG] + u64_to_be(keys.len() as u64) + keys_bytes(keys) + pointers_bytes(pointers)
}

/// `content`, followed by zeros up to `bs` bytes.
pub open spec fn padded(content: Seq<u8>, bs: int) -> Seq<u8> {
    content + Seq::new((bs - content.len()) as nat, |i: int| 0u8)
}

/// The number of children that an internal page of `bs` bytes can have:
/// what solves `bs == header + n * pointer + (n - 1) * key` for `n`.
pub open spec fn max_children(bs: int) -> int {
    (bs + KEY_LEN - PAGE_HEADER_LEN) / (POINTER_LEN + KEY_LEN) as int
}

/// The keys ascend strictly.
pub open spec fn keys_sorted(keys: Seq<Key>) -> bool {
    forall|i: int, j: int| 0 <= i < j < keys.len() ==> keys[i] < keys[j]
}

/// Keys and child offsets are those of a valid internal page of `bs` bytes:
/// one more child than keys, no more children than fit, and ascending keys.
pub open spec fn node_wf(keys: Seq<Key>, pointers: Seq<PageOffset>, bs: int) -> bool {
    &&& pointers.len() == keys.len() + 1
    &&& pointers.len() <= max_children(bs)
    &&& keys_sorted(keys)
}

/// A page image is a valid internal page.
pub open spec fn is_internal(img: Seq<u8>) -> bool {
    &&& img.len() >= PAGE_HEADER_LEN
    &&& img[0] == INTERNAL_TAG
    &&& node_wf(internal_keys(img), internal_pointers(img), img.len() as int)
}

/// The child under which `key` is looked for: the first whose separator is
/// not less than the key, or the last child.
pub open spec fn is_route(keys: Seq<Key>, key: Key, i: int) -> bool {
    &&& 0 <= i <= keys.len()
    &&& forall|j: int| 0 <= j < i ==> keys[j] < key
    &&& forall|j: int| i <= j < keys.len() ==> keys[j] >= key
}

/// The index of the child under which `key` is looked for.
pub open spec fn route(keys: Seq<Key>, key: Key) -> int {
    choose|i: int| is_route(keys, key, i)
}

/// There is one child under which a key is looked for.
pub proof fn lemma_route(keys: Seq<Key>, key: Key, i: int)
    requires
        is_route(keys, key, i),
    ensures
        route(keys, key) == i,
{
    let q = route(keys, key);
    assert(is_route(keys, key, q));
    if q < i {
        assert(keys[q] < key);
    }
    if i < q {
        assert(keys[i] < key);
    }
}

/// The length of a key sequence's bytes, and where each key's bytes are.
pub proof fn lemma_keys_bytes(keys: Seq<Key>)
    ensures
        keys_bytes(keys).len() == KEY_LEN * keys.len(),
        forall|i: int|
            0 <= i < keys.len() ==> #[trigger] keys_bytes(keys).subrange(
                KEY_LEN * i,
                KEY_LEN * i + KEY_LEN,
            ) == u128_to_be(keys[i]),
    decreases keys.len(),
{
    if keys.len() > 0 {
        let t = keys.drop_last();
        lemma_keys_bytes(t);
        lemma_u128_be_roundtrip(keys.last());
        assert forall|i: int| 0 <= i < keys.len() implies #[trigger] keys_bytes(keys).subrange(
            KEY_LEN * i,
            KEY_LEN * i + KEY_LEN,
        ) == u128_to_be(keys[i]) by {
            if i < t.len() {
                assert(keys_bytes(keys).subrange(KEY_LEN * i, KEY_LEN * i + KEY_LEN)
                    =~= keys_bytes(t).subrange(KEY_LEN * i, KEY_LEN * i + KEY_LEN));
                assert(t[i] == keys[i]);
            } else {
                assert(keys_bytes(keys).subrange(KEY_LEN * i, KEY_LEN * i + KEY_LEN)
                    =~= u128_to_be(keys.last()));
            }
        }
    }
}

/// The length of a child offset sequence's bytes, and where each offset's
/// bytes are.
pub proof fn lemma_pointers_bytes(pointers: Seq<PageOffset>)
    ensures
        pointers_bytes(pointers).len() == POINTER_LEN * pointers.len(),
        forall|i: int|
            0 <= i < pointers.len() ==> #[trigger] pointers_bytes(pointers).subrange(
                POINTER_LEN * i,
                POINTER_LEN * i + POINTER_LEN,
            ) == u64_to_be(pointers[i]),
    decreases pointers.len(),
{
    if pointers.len() > 0 {
        let t = pointers.drop_last();
        lemma_pointers_bytes(t);
        lemma_u64_be_roundtrip(pointers.last());
        assert forall|i: int| 0 <= i < pointers.len() implies #[trigger] pointers_bytes(
            pointers,
        ).subrange(POINTER_LEN * i, POINTER_LEN * i + POINTER_LEN) == u64_to_be(pointers[i]) by {
            if i < t.len() {
                assert(pointers_bytes(pointers).subrange(
                    POINTER_LEN * i,
                    POINTER_LEN * i + POINTER_LEN,
                ) =~= pointers_bytes(t).subrange(POINTER_LEN * i, POINTER_LEN * i + POINTER_LEN));
                assert(t[i] == pointers[i]);
            } else {
                assert(pointers_bytes(pointers).subrange(
                    POINTER_LEN * i,
                    POINTER_LEN * i + POINTER_LEN,
                ) =~= u64_to_be(pointers.last()));
            }
        }
    }
}

/// The contents of an internal page can be read back from a page image
/// that starts with their bytes.
pub proof fn lemma_internal_roundtrip(img: Seq<u8>, keys: Seq<Key>, pointers: Seq<PageOffset>)
    requires
        pointers.len() == keys.len() + 1,
        keys.len() < u64::MAX,
        img.len() >= pointer_pos(keys.len() as int, pointers.len() as int),
        img.subrange(0, pointer_pos(keys.len() as int, pointers.len() as int)) == internal_bytes(
            keys,
            pointers,
        ),
    ensures
        img[0] == INTERNAL_TAG,
        internal_keys(img) == keys,
        internal_pointers(img) == pointers,
{
    let k = keys.len() as int;
    let used = pointer_pos(k, k + 1);
    let b = internal_bytes(keys, pointers);
    lemma_keys_bytes(keys);
    lemma_pointers_bytes(pointers);
    lemma_u64_be_roundtrip(k as u64);
    assert(b[0] == INTERNAL_TAG);
    assert(img[0] == img.subrange(0, used)[0]);
    assert(img.subrange(1, 9) =~= b.subrange(1, 9));
    assert(b.subrange(1, 9) =~= u64_to_be(k as u64));
    assert(u64_at(img, 1) == k as u64);
    assert forall|i: int| 0 <= i < k implies u128_at(img, key_pos(i)) == keys[i] by {
        let p = key_pos(i);
        assert(img.subrange(p, p + 16) =~= b.subrange(p, p + 16));
        assert(
            b.subrange(p, p + 16) =~= keys_bytes(keys).subrange(KEY_LEN * i, KEY_LEN * i + KEY_LEN)
        );
        lemma_u128_be_roundtrip(keys[i]);
    }
    assert forall|i: int| 0 <= i < k + 1 implies u64_at(img, pointer_pos(k, i)) == pointers[i] by {
        let p = pointer_pos(k, i);
        assert(img.subrange(p, p + 8) =~= b.subrange(p, p + 8));
        assert(b.subrange(p, p + 8) =~= pointers_bytes(pointers).subrange(
            POINTER_LEN * i,
            POINTER_LEN * i + POINTER_LEN,
        ));
        lemma_u64_be_roundtrip(pointers[i]);
    }
    assert(internal_keys(img) =~= keys);
    assert(internal_pointers(img) =~= pointers);
}

/// What writing an internal page does: the device holds the page whole,
/// keeps every byte outside it, and the page reads as an internal page
/// with these keys and child offsets.
pub proof fn lemma_internal_write(
    d: Seq<u8>,
    off: int,
    bs: int,
    keys: Seq<Key>,
    pointers: Seq<PageOffset>,
)
    requires
        0 <= off,
        PAGE_HEADER_LEN <= bs <= 0x8000_0000,
        node_wf(keys, pointers, bs),
    ensures
        padded(internal_bytes(keys, pointers), bs).len() == bs,
        ({
            let d2 = written(d, off, padded(internal_bytes(keys, pointers), bs));
            &&& d2.len() >= d.len()
            &&& d2.len() >= off + bs
            &&& off + bs <= d.len() ==> d2.len() == d.len()
            &&& kept_outside(d, d2, off, off + bs)
            &&& is_internal(image(d2, off, bs))
            &&& internal_keys(image(d2, off, bs)) == keys
            &&& internal_pointers(image(d2, off, bs)) == pointers
        }),
{
    reveal(kept_outside);
    let b = internal_bytes(keys, pointers);
    let k = keys.len() as int;
    lemma_keys_bytes(keys);
    lemma_pointers_bytes(pointers);
    lemma_u64_be_roundtrip(k as u64);
    assert(b.len() == pointer_pos(k, k + 1));
    assert(b.len() <= bs);
    let p = padded(b, bs);
    assert(p.len() == bs);
    let d2 = written(d, off, p);
    lemma_written(d, off, p);
    let img = image(d2, off, bs);
    assert(img =~= p);
    assert(img.subrange(0, b.len() as int) =~= b);
    lemma_internal_roundtrip(img, keys, pointers);
}

/// A key between its neighbours keeps a key sequence sorted.
pub proof fn lemma_keys_insert_sorted(keys: Seq<Key>, i: int, key: Key)
    requires
        keys_sorted(keys),
        0 <= i <= keys.len(),
        i > 0 ==> keys[i - 1] < key,
        i < keys.len() ==> key < keys[i],
    ensures
        keys_sorted(keys.insert(i, key)),
{
    let k2 = keys.insert(i, key);
    assert forall|a: int, b: int| 0 <= a < b < k2.len() implies k2[a] < k2[b] by {
        let a1 = if a < i { a } else { a - 1 };
        let b1 = if b < i { b } else { b - 1 };
        if a == i {
            assert(k2[b] == keys[b1]);
            if i < b1 {
                assert(keys[i] < keys[b1]);
            }
        } else if b == i {
            assert(k2[a] == keys[a1]);
            if a1 < i - 1 {
                assert(keys[a1] < keys[i - 1]);
            }
        } else {
            assert(k2[a] == keys[a1] && k2[b] == keys[b1]);
        }
    }
}

/// A part of a sorted key sequence is sorted.
pub proof fn lemma_keys_subrange_sorted(keys: Seq<Key>, a: int, b: int)
    requires
        keys_sorted(keys),
        0 <= a <= b <= keys.len(),
    ensures
        keys_sorted(keys.subrange(a, b)),
{
    let t = keys.subrange(a, b);
    assert forall|i: int, j: int| 0 <= i < j < t.len() implies t[i] < t[j] by {
        assert(t[i] == keys[a + i] && t[j] == keys[a + j]);
    }
}

/// A sorted key sequence without one of its keys is sorted.
pub proof fn lemma_keys_remove_sorted(keys: Seq<Key>, i: int)
    requires
        keys_sorted(keys),
        0 <= i < keys.len(),
    ensures
        keys_sorted(keys.remove(i)),
{
    let t = keys.remove(i);
    assert forall|a: int, b: int| 0 <= a < b < t.len() implies t[a] < t[b] by {
        let a1 = if a < i { a } else { a + 1 };
        let b1 = if b < i { b } else { b + 1 };
        assert(t[a] == keys[a1] && t[b] == keys[b1]);
    }
}

} // verus!
