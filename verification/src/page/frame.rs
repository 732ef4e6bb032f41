//! What a write leaves as it was.

use crate::database::DatabaseMeta;
use crate::database::HEADER_LEN;
use crate::database::lemma_header_kept;
use crate::page::image;
use vstd::prelude::*;

verus! {

/// `d2` is `d` but for the bytes in `lo..hi`, and possibly longer.
#[verifier::opaque]
pub open spec fn kept_outside(d: Seq<u8>, d2: Seq<u8>, lo: int, hi: int) -> bool {
    &&& d2.len() >= d.len()
    &&& forall|i: int| 0 <= i < d.len() && !(lo <= i < hi) ==> #[trigger] d2[i] == d[i]
}

/// Where two devices differ only within `lo..hi`, a range outside it reads
/// the same on both.
pub proof fn lemma_kept_subrange(d: Seq<u8>, d2: Seq<u8>, lo: int, hi: int, a: int, b: int)
    requires
        kept_outside(d, d2, lo, hi),
        0 <= a <= b <= d.len(),
        b <= lo || hi <= a,
    ensures
        d2.subrange(a, b) == d.subrange(a, b),
{
    reveal(kept_outside);
    assert(d2.subrange(a, b) =~= d.subrange(a, b));
}

/// `d2` is `d` below `limit` but for the file header and the bytes in
/// `lo..hi`, and possibly longer.
#[verifier::opaque]
pub open spec fn kept_below(d: Seq<u8>, d2: Seq<u8>, limit: int, lo: int, hi: int) -> bool {
    &&& d2.len() >= d.len()
    &&& forall|i: int|
        HEADER_LEN <= i < d.len() && i < limit && !(lo <= i < hi) ==> #[trigger] d2[i] == d[i]
}

/// A device differs from itself nowhere.
pub proof fn lemma_kept_outside_refl(d: Seq<u8>, lo: int, hi: int)
    ensures
        kept_outside(d, d, lo, hi),
{
    reveal(kept_outside);
}

/// Devices that each differ from the one before only within `lo..hi`
/// differ from the first only there.
pub proof fn lemma_kept_outside_trans(d: Seq<u8>, d2: Seq<u8>, d3: Seq<u8>, lo: int, hi: int)
    requires
        kept_outside(d, d2, lo, hi),
        kept_outside(d2, d3, lo, hi),
    ensures
        kept_outside(d, d3, lo, hi),
{
    reveal(kept_outside);
    assert forall|i: int| 0 <= i < d.len() && !(lo <= i < hi) implies #[trigger] d3[i] == d[i] by {
        assert(d2[i] == d[i]);
    }
}

/// Where two devices differ below `limit` only in the file header and
/// within `lo..hi`, a range outside these reads the same on both.
pub proof fn lemma_kept_below_subrange(
    d: Seq<u8>,
    d2: Seq<u8>,
    limit: int,
    lo: int,
    hi: int,
    a: int,
    b: int,
)
    requires
        kept_below(d, d2, limit, lo, hi),
        HEADER_LEN <= a <= b <= d.len(),
        b <= limit,
        b <= lo || hi <= a,
    ensures
        d2.subrange(a, b) == d.subrange(a, b),
{
    reveal(kept_below);
    assert(d2.subrange(a, b) =~= d.subrange(a, b));
}

/// Where block 0 is outside what a write changed, the device spells the
/// same file header.
pub proof fn lemma_frame_header(d: Seq<u8>, d2: Seq<u8>, lo: int, hi: int)
    requires
        kept_outside(d, d2, lo, hi),
        HEADER_LEN <= d.len(),
        HEADER_LEN <= lo,
    ensures
        DatabaseMeta::decoded(d2) == DatabaseMeta::decoded(d),
{
    reveal(kept_outside);
    assert(d2.subrange(0, HEADER_LEN as int) =~= d.subrange(0, HEADER_LEN as int));
    lemma_header_kept(d, d2);
}

/// A page outside what a write changed reads as before.
pub proof fn lemma_frame_image(d: Seq<u8>, d2: Seq<u8>, lo: int, hi: int, off: int, bs: int)
    requires
        kept_outside(d, d2, lo, hi),
        0 <= off,
        0 <= bs,
        off + bs <= d.len(),
        off + bs <= lo || hi <= off,
    ensures
        image(d2, off, bs) == image(d, off, bs),
{
    reveal(kept_outside);
    assert(image(d2, off, bs) =~= image(d, off, bs));
}

} // verus!
