//! The block device: a linear, byte-addressable medium, and one kept in
//! memory.

use vstd::prelude::*;
use vstd::slice::slice_subrange;
use vstd::slice::slice_to_vec;

verus! {

/// The end beyond which a device need not take writes: 2^62, or the
/// largest address of the machine where that is less.
pub open spec fn spec_write_limit() -> u64 {
    if usize::MAX >= 0x4000_0000_0000_0000 {
        0x4000_0000_0000_0000
    } else {
        usize::MAX as u64
    }
}

/// The end beyond which a device need not take writes.
#[verifier::when_used_as_spec(spec_write_limit)]
pub fn write_limit() -> (r: u64)
    ensures
        r == spec_write_limit(),
        0xffff_ffff <= r <= 0x4000_0000_0000_0000,
{
    let widest: u64 = usize::MAX as u64;
    if widest >= 0x4000_0000_0000_0000 {
        0x4000_0000_0000_0000
    } else {
        widest
    }
}

/// Why a device access failed.
#[derive(Clone, Copy, Debug, PartialEq, Eq, Structural)]
pub enum DiskError {
    /// A read reached beyond the end of the device.
    OutOfBounds,
    /// The device itself failed.
    Failure,
}

/// What a device holds after `data` has been written at `offset`: a write
/// beyond the end first fills the gap with zeros, and the device never
/// shrinks.
#[verifier::opaque]
pub open spec fn written(d: Seq<u8>, offset: int, data: Seq<u8>) -> Seq<u8> {
    let end = offset + data.len();
    Seq::new(
        (if end > d.len() { end } else { d.len() as int }) as nat,
        |i: int|
            if offset <= i < end {
                data[i - offset]
            } else if i < d.len() {
                d[i]
            } else {
                0u8
            },
    )
}

/// A write leaves every byte outside its range as it was.
pub proof fn lemma_written_outside(d: Seq<u8>, offset: int, data: Seq<u8>, lo: int, hi: int)
    requires
        0 <= offset,
        0 <= lo <= hi <= d.len(),
        hi <= offset || offset + data.len() <= lo,
    ensures
        written(d, offset, data).len() >= d.len(),
        written(d, offset, data).subrange(lo, hi) == d.subrange(lo, hi),
{
    reveal(written);
    assert(written(d, offset, data).subrange(lo, hi) =~= d.subrange(lo, hi));
}

/// A write extends the device to its end and no further, and changes no
/// byte outside its range.
pub proof fn lemma_written(d: Seq<u8>, offset: int, data: Seq<u8>)
    requires
        0 <= offset,
    ensures
        written(d, offset, data).len() == if offset + data.len() > d.len() {
            offset + data.len()
        } else {
            d.len() as int
        },
        forall|i: int|
            0 <= i < d.len() && !(offset <= i < offset + data.len()) ==> #[trigger] written(
                d,
                offset,
                data,
            )[i] == d[i],
        forall|i: int|
            offset <= i < offset + data.len() ==> #[trigger] written(d, offset, data)[i] == data[i
                - offset],
{
    reveal(written);
}

/// A write can be read back.
pub proof fn lemma_written_inside(d: Seq<u8>, offset: int, data: Seq<u8>)
    requires
        0 <= offset,
    ensures
        written(d, offset, data).len() >= offset + data.len(),
        written(d, offset, data).subrange(offset, offset + data.len()) == data,
{
    reveal(written);
    assert(written(d, offset, data).subrange(offset, offset + data.len()) =~= data);
}

/// A byte-addressable device. Reads are exact: they return the bytes asked
/// for or fail. Writes may extend the device.
pub trait Disk {
    /// The bytes that the device holds. An implementation that is not
    /// verified leaves this as it is: nothing is known of what it holds but
    /// what its reads and writes say.
    open spec fn view(&self) -> Seq<u8> {
        arbitrary()
    }

    /// Whether the device is one that does not fail: its reads fail only
    /// beyond its end, and its writes only beyond the write limit. An
    /// implementation that is not verified leaves this as it is: it is
    /// taken to be a device that may fail.
    open spec fn reliable(&self) -> bool {
        false
    }

    /// Reads `len` bytes at `offset`. The device is left as it was.
    fn read_exact_at(&mut self, offset: u64, len: usize) -> (r: Result<Vec<u8>, DiskError>)
        ensures
            final(self)@ == old(self)@,
            final(self).reliable() == old(self).reliable(),
            match r {
                Ok(v) => offset + len <= old(self)@.len() && v@ == old(self)@.subrange(
                    offset as int,
                    offset + len,
                ),
                Err(DiskError::OutOfBounds) => offset + len > old(self)@.len(),
                Err(DiskError::Failure) => !old(self).reliable(),
            },
    ;

    /// Writes all of `data` at `offset`.
    fn write_all_at(&mut self, offset: u64, data: &[u8]) -> (r: Result<(), DiskError>)
        ensures
            final(self).reliable() == old(self).reliable(),
            r is Ok ==> final(self)@ == written(old(self)@, offset as int, data@),
            r is Err ==> !old(self).reliable() || offset + data@.len() > write_limit(),
    ;
}

/// A device kept in memory. It fails only where a read goes beyond its end
/// or a write beyond the largest address of the machine.
pub struct MemDisk {
    pub bytes: Vec<u8>,
}

impl MemDisk {
    /// An empty device.
    pub fn new() -> (r: MemDisk)
        ensures
            r@ == Seq::<u8>::empty(),
    {
        MemDisk { bytes: Vec::new() }
    }

    /// A device that holds `bytes`.
    pub fn from_bytes(bytes: Vec<u8>) -> (r: MemDisk)
        ensures
            r@ == bytes@,
    {
        MemDisk { bytes }
    }

    /// The bytes of the device.
    pub fn into_bytes(self) -> (r: Vec<u8>)
        ensures
            r@ == self@,
    {
        self.bytes
    }

    /// The number of bytes that the device holds.
    pub fn len(&self) -> (r: usize)
        ensures
            r == self@.len(),
    {
        self.bytes.len()
    }
}

impl Disk for MemDisk {
    open spec fn view(&self) -> Seq<u8> {
        self.bytes@
    }

    /// A vector takes every write within the write limit.
    open spec fn reliable(&self) -> bool {
        true
    }

    fn read_exact_at(&mut self, offset: u64, len: usize) -> (r: Result<Vec<u8>, DiskError>)
        ensures
            r is Ok <==> offset + len <= old(self)@.len(),
            r is Err ==> r == Err::<Vec<u8>, DiskError>(DiskError::OutOfBounds),
    {
        let size: usize = self.bytes.len();
        if offset > size as u64 || len > size - offset as usize {
            return Err(DiskError::OutOfBounds);
        }
        let start: usize = offset as usize;
        Ok(slice_to_vec(slice_subrange(self.bytes.as_slice(), start, start + len)))
    }

    fn write_all_at(&mut self, offset: u64, data: &[u8]) -> (r: Result<(), DiskError>)
        ensures
            r is Ok <==> offset + data@.len() <= usize::MAX,
            r is Err ==> final(self)@ == old(self)@,
    {
        let len: usize = data.len();
        if offset > usize::MAX as u64 || len > usize::MAX - offset as usize {
            return Err(DiskError::Failure);
        }
        let start: usize = offset as usize;
        if self.bytes.len() < start {
            self.bytes.resize(start, 0u8);
        }
        let ghost base = self.bytes@;
        let mut i: usize = 0;
        proof {
            reveal(written);
        }
        while i < len
            invariant
                len == data@.len(),
                start + len <= usize::MAX,
                i <= len,
                base.len() >= start,
                self.bytes@ == written(base, start as int, data@.subrange(0, i as int)),
            decreases len - i,
        {
            let pos: usize = start + i;
            proof {
                reveal(written);
            }
            if pos < self.bytes.len() {
                self.bytes[pos] = data[i];
            } else {
                self.bytes.push(data[i]);
            }
            assert(self.bytes@ =~= written(base, start as int, data@.subrange(0, i + 1)));
            i += 1;
        }
        assert(data@.subrange(0, len as int) =~= data@);
        assert(written(base, start as int, data@) =~= written(old(self)@, offset as int, data@));
        Ok(())
    }
}

} // verus!
