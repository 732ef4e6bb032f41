//! The database: the file header and the block allocator over the device.

use crate::bytes::get_u64;
use crate::bytes::lemma_u64_be_roundtrip;
use crate::bytes::put_u64;
use crate::bytes::u64_from_be;
use crate::bytes::u64_to_be;
use crate::disk::Disk;
use crate::disk::lemma_written;
use crate::disk::write_limit;
use crate::disk::written;
use crate::error::Error;
use crate::error::io_failure;
use crate::error::write_failure;
use crate::nested::nested_ok;
use vstd::arithmetic::power2::lemma2_to64;
use vstd::arithmetic::power2::lemma_pow2_adds;
use vstd::arithmetic::power2::lemma_pow2_pos;
use vstd::arithmetic::power2::lemma_pow2_strictly_increases;
use vstd::arithmetic::power2::pow2;
use vstd::bits::lemma_u64_shl_is_mul;
use vstd::prelude::*;

verus! {

/// The number of bytes of the file header.
pub const HEADER_LEN: usize = 24;

/// The exponent of the block size of a new database: blocks of 8 KiB.
pub const BLOCK_SIZE_EXP: u64 = 13;

/// The smallest block size exponent with which a tree can be kept.
pub const MIN_BLOCK_SIZE_EXP: u64 = 7;

/// The largest block size exponent that is accepted.
pub const MAX_BLOCK_SIZE_EXP: u64 = 31;

/// The end beyond which no block is allocated: the write limit of a
/// device.
pub open spec fn spec_max_device_size() -> u64 {
    write_limit()
}

/// The end beyond which no block is allocated.
#[verifier::when_used_as_spec(spec_max_device_size)]
pub fn max_device_size() -> (r: u64)
    ensures
        r == spec_max_device_size(),
        0xffff_ffff <= r <= 0x4000_0000_0000_0000,
{
    write_limit()
}

/// Something that hands out blocks of a device and writes to them.
pub trait BlockAllocator {
    /// What the allocator needs to hold of itself to work.
    open spec fn valid(&self) -> bool {
        true
    }

    /// Allocates one more block and returns its offset.
    fn allocate_block(&mut self) -> (r: Result<u64, Error>)
        requires
            old(self).valid(),
        ensures
            final(self).valid(),
    ;

    /// Writes `data` at `offset`.
    fn write(&mut self, offset: u64, data: &[u8]) -> (r: Result<(), Error>)
        requires
            old(self).valid(),
        ensures
            final(self).valid(),
    ;
}

/// The file header, as it is kept in memory.
#[derive(Clone, Copy, Debug, PartialEq, Eq, Structural)]
pub struct DatabaseMeta {
    pub block_size_exp: u64,
    pub num_blocks_allocated: u64,
    pub root_btree_offset: u64,
}

impl DatabaseMeta {
    /// The block size, `2^block_size_exp`.
    pub open spec fn spec_block_size(&self) -> int {
        pow2(self.block_size_exp as nat) as int
    }

    /// The offset at which the allocated blocks end.
    #[verifier::opaque]
    pub open spec fn spec_end(&self) -> int {
        self.num_blocks_allocated * self.spec_block_size()
    }

    /// The header describes a usable device: its block size is supported,
    /// block 0 is allocated, and the allocated blocks end within the limit.
    pub open spec fn inv(&self) -> bool {
        &&& MIN_BLOCK_SIZE_EXP <= self.block_size_exp <= MAX_BLOCK_SIZE_EXP
        &&& self.num_blocks_allocated >= 1
        &&& self.spec_end() <= max_device_size()
    }

    /// The 24 bytes of the header on disk.
    pub open spec fn encoding(&self) -> Seq<u8> {
        u64_to_be(self.block_size_exp) + u64_to_be(self.num_blocks_allocated) + u64_to_be(
            self.root_btree_offset,
        )
    }

    /// The header that the first 24 bytes of a device spell.
    pub open spec fn decoded(d: Seq<u8>) -> DatabaseMeta
        recommends
            d.len() >= HEADER_LEN,
    {
        DatabaseMeta {
            block_size_exp: u64_from_be(d.subrange(0, 8)),
            num_blocks_allocated: u64_from_be(d.subrange(8, 16)),
            root_btree_offset: u64_from_be(d.subrange(16, 24)),
        }
    }

    /// A header can be read back from its encoding, whatever follows it.
    pub proof fn lemma_decode_encoding(&self, d: Seq<u8>)
        requires
            d.len() >= HEADER_LEN,
            d.subrange(0, HEADER_LEN as int) == self.encoding(),
        ensures
            self.encoding().len() == HEADER_LEN,
            DatabaseMeta::decoded(d) == *self,
    {
        lemma_u64_be_roundtrip(self.block_size_exp);
        lemma_u64_be_roundtrip(self.num_blocks_allocated);
        lemma_u64_be_roundtrip(self.root_btree_offset);
        let e = self.encoding();
        let h = d.subrange(0, HEADER_LEN as int);
        assert(d.subrange(0, 8) =~= h.subrange(0, 8));
        assert(d.subrange(8, 16) =~= h.subrange(8, 16));
        assert(d.subrange(16, 24) =~= h.subrange(16, 24));
        assert(e.subrange(0, 8) =~= u64_to_be(self.block_size_exp));
        assert(e.subrange(8, 16) =~= u64_to_be(self.num_blocks_allocated));
        assert(e.subrange(16, 24) =~= u64_to_be(self.root_btree_offset));
    }

    /// The block size bounds that follow from a supported exponent.
    pub proof fn lemma_block_size_bounds(&self)
        requires
            MIN_BLOCK_SIZE_EXP <= self.block_size_exp <= MAX_BLOCK_SIZE_EXP,
        ensures
            128 <= self.spec_block_size() <= 0x8000_0000,
    {
        lemma2_to64();
        if self.block_size_exp > 7 {
            lemma_pow2_strictly_increases(7, self.block_size_exp as nat);
        }
        if self.block_size_exp < 31 {
            lemma_pow2_strictly_increases(self.block_size_exp as nat, 31);
        }
    }

    /// The block size.
    pub fn block_size(&self) -> (r: u64)
        requires
            self.block_size_exp < 64,
        ensures
            r == self.spec_block_size(),
    {
        proof {
            lemma2_to64();
            lemma_pow2_strictly_increases(self.block_size_exp as nat, 64);
            lemma_u64_shl_is_mul(1, self.block_size_exp);
        }
        1u64 << self.block_size_exp
    }

    /// Writes the header at the start of the device.
    pub fn persist<D: Disk>(&self, disk: &mut D) -> (r: Result<(), Error>)
        ensures
            final(disk).reliable() == old(disk).reliable(),
            match r {
                Ok(()) => final(disk)@ == written(old(disk)@, 0, self.encoding()),
                Err(e) => io_failure(old(disk), e),
            },
    {
        let mut buf: Vec<u8> = Vec::new();
        put_u64(&mut buf, self.block_size_exp);
        put_u64(&mut buf, self.num_blocks_allocated);
        put_u64(&mut buf, self.root_btree_offset);
        proof {
            lemma_u64_be_roundtrip(self.block_size_exp);
            lemma_u64_be_roundtrip(self.num_blocks_allocated);
            lemma_u64_be_roundtrip(self.root_btree_offset);
            assert(buf@ =~= self.encoding());
        }
        match disk.write_all_at(0, buf.as_slice()) {
            Ok(()) => Ok(()),
            Err(_) => Err(Error::Io),
        }
    }
}

/// A database over a device: the device, and the header as last written.
pub struct Database<D: Disk> {
    pub disk: D,
    pub meta: DatabaseMeta,
}

impl<D: Disk> Database<D> {
    /// The header in memory describes a usable device.
    pub open spec fn inv(&self) -> bool {
        self.meta.inv()
    }

    /// The header on the device is the one in memory.
    pub open spec fn synced(&self) -> bool {
        &&& self.disk@.len() >= HEADER_LEN
        &&& DatabaseMeta::decoded(self.disk@) == self.meta
    }

    /// The block size as a mathematical integer.
    pub open spec fn spec_block_size(&self) -> int {
        self.meta.spec_block_size()
    }

    /// The offset at which the allocated blocks end.
    pub open spec fn spec_end(&self) -> int {
        self.meta.spec_end()
    }

    /// The device can grow by what `steps` operations may allocate, one
    /// after the other: each at most as many blocks as there are, and four
    /// more.
    pub open spec fn roomy_for(&self, steps: nat) -> bool {
        pow2(steps) * (self.spec_end() + 4 * self.spec_block_size()) <= max_device_size()
    }

    /// The database has grown to `after` by no more than what `steps`
    /// operations may allocate, one after the other.
    pub open spec fn grown_by(&self, after: &Database<D>, steps: nat) -> bool {
        after.spec_end() + 4 * after.spec_block_size() <= pow2(steps) * (self.spec_end() + 4
            * self.spec_block_size())
    }

    /// A device that can grow by what some operations may allocate can do
    /// so after the first of them.
    pub proof fn lemma_roomy_after(&self, after: &Database<D>, done: nat, left: nat)
        requires
            self.inv(),
            after.inv(),
            after.meta.block_size_exp == self.meta.block_size_exp,
            self.roomy_for(done + left),
            self.grown_by(after, done),
        ensures
            after.roomy_for(left),
    {
        lemma_end_bounds(self.meta);
        lemma_end_bounds(after.meta);
        lemma_pow2_adds(done, left);
        lemma_pow2_pos(left);
        let x = self.spec_end() + 4 * self.spec_block_size();
        let y = after.spec_end() + 4 * after.spec_block_size();
        assert(pow2(left) * y <= pow2(left) * (pow2(done) * x)) by (nonlinear_arith)
            requires
                y <= pow2(done) * x,
                pow2(left) > 0,
        ;
        assert(pow2(left) * (pow2(done) * x) == (pow2(done) * pow2(left)) * x)
            by (nonlinear_arith);
    }

    /// A device that can grow by what some operations may allocate can
    /// grow by what fewer may.
    pub proof fn lemma_roomy_fewer(&self, steps: nat, fewer: nat)
        requires
            self.inv(),
            self.roomy_for(steps),
            fewer <= steps,
        ensures
            self.roomy_for(fewer),
    {
        lemma_end_bounds(self.meta);
        let x = self.spec_end() + 4 * self.spec_block_size();
        if fewer < steps {
            lemma_pow2_strictly_increases(fewer, steps);
        }
        assert(pow2(fewer) * x <= pow2(steps) * x) by (nonlinear_arith)
            requires
                pow2(fewer) <= pow2(steps),
                x >= 0,
        ;
    }

    /// What two runs of operations may allocate, one after the other, is
    /// what all of them may.
    pub proof fn lemma_grown_twice(
        &self,
        then: &Database<D>,
        after: &Database<D>,
        first: nat,
        second: nat,
    )
        requires
            self.grown_by(then, first),
            then.grown_by(after, second),
        ensures
            self.grown_by(after, first + second),
    {
        lemma_pow2_adds(first, second);
        lemma_pow2_pos(second);
        let x = self.spec_end() + 4 * self.spec_block_size();
        let y = then.spec_end() + 4 * then.spec_block_size();
        assert(pow2(second) * y <= pow2(second) * (pow2(first) * x)) by (nonlinear_arith)
            requires
                y <= pow2(first) * x,
                pow2(second) > 0,
        ;
        assert(pow2(second) * (pow2(first) * x) == (pow2(first) * pow2(second)) * x)
            by (nonlinear_arith);
    }

    /// What some operations may allocate, more of them may.
    pub proof fn lemma_grown_more(&self, after: &Database<D>, steps: nat, more: nat)
        requires
            self.inv(),
            self.grown_by(after, steps),
            steps <= more,
        ensures
            self.grown_by(after, more),
    {
        lemma_end_bounds(self.meta);
        let x = self.spec_end() + 4 * self.spec_block_size();
        if steps < more {
            lemma_pow2_strictly_increases(steps, more);
        }
        assert(pow2(steps) * x <= pow2(more) * x) by (nonlinear_arith)
            requires
                pow2(steps) <= pow2(more),
                x >= 0,
        ;
    }

    /// A device that can grow by what an operation may allocate takes four
    /// blocks more.
    pub proof fn lemma_roomy_blocks(&self, steps: nat)
        requires
            self.inv(),
            self.roomy_for(steps),
        ensures
            self.spec_end() + 4 * self.spec_block_size() <= max_device_size(),
    {
        lemma_end_bounds(self.meta);
        lemma_pow2_pos(steps);
        let x = self.spec_end() + 4 * self.spec_block_size();
        assert(x <= pow2(steps) * x) by (nonlinear_arith)
            requires
                pow2(steps) >= 1,
                x >= 0,
        ;
    }

    /// An operation that allocates no more blocks than there are, and four
    /// more, is one operation.
    pub proof fn lemma_grown_once(&self, after: &Database<D>)
        requires
            self.inv(),
            after.inv(),
            after.meta.block_size_exp == self.meta.block_size_exp,
            after.meta.num_blocks_allocated <= 2 * self.meta.num_blocks_allocated + 4,
        ensures
            self.grown_by(after, 1),
    {
        reveal(DatabaseMeta::spec_end);
        lemma2_to64();
        let bs = self.spec_block_size();
        let n = self.meta.num_blocks_allocated as int;
        let n2 = after.meta.num_blocks_allocated as int;
        lemma_end_bounds(self.meta);
        assert(n2 * bs <= (2 * n + 4) * bs) by (nonlinear_arith)
            requires
                n2 <= 2 * n + 4,
                bs > 0,
        ;
        assert((2 * n + 4) * bs == 2 * (n * bs) + 4 * bs) by (nonlinear_arith);
    }

    /// The block size.
    pub fn block_size(&self) -> (r: u64)
        requires
            self.inv(),
        ensures
            r == self.spec_block_size(),
            128 <= r <= 0x8000_0000,
    {
        proof {
            self.meta.lemma_block_size_bounds();
        }
        self.meta.block_size()
    }

    /// The offset at which the allocated blocks end.
    pub fn end(&self) -> (r: u64)
        requires
            self.inv(),
        ensures
            r == self.spec_end(),
    {
        let block_size: u64 = self.block_size();
        proof {
            reveal(DatabaseMeta::spec_end);
        }
        self.meta.num_blocks_allocated * block_size
    }

    /// Opens a database that the device holds already. The header is read
    /// and nothing is written. A device shorter than a header, or a header
    /// that describes no usable device, is a format error.
    pub fn from_existing(disk: D) -> (r: Result<Self, Error>)
        ensures
            match r {
                Ok(db) => {
                    &&& db.disk@ == disk@
                    &&& db.disk.reliable() == disk.reliable()
                    &&& db.inv()
                    &&& db.synced()
                },
                Err(Error::Format) => disk@.len() < HEADER_LEN || !DatabaseMeta::decoded(
                    disk@,
                ).inv(),
                Err(e) => io_failure(&disk, e),
            },
    {
        let mut disk = disk;
        let meta = match Self::read_header(&mut disk) {
            Ok(meta) => meta,
            Err(e) => {
                return Err(e);
            },
        };
        if meta.block_size_exp < MIN_BLOCK_SIZE_EXP || meta.block_size_exp > MAX_BLOCK_SIZE_EXP
            || meta.num_blocks_allocated < 1 {
            return Err(Error::Format);
        }
        let block_size: u64 = meta.block_size();
        proof {
            reveal(DatabaseMeta::spec_end);
            meta.lemma_block_size_bounds();
            assert(meta.num_blocks_allocated <= max_device_size() / block_size <==> meta.num_blocks_allocated
                * block_size <= max_device_size()) by (nonlinear_arith)
                requires
                    block_size > 0,
            ;
        }
        if meta.num_blocks_allocated > max_device_size() / block_size {
            return Err(Error::Format);
        }
        Ok(Database { disk, meta })
    }

    /// Makes the device an empty database: a header with blocks of 8 KiB,
    /// one block allocated (the header's), and no root tree yet.
    pub fn initialize(disk: D) -> (r: Result<Self, Error>)
        ensures
            match r {
                Ok(db) => {
                    &&& db.meta == DatabaseMeta {
                        block_size_exp: BLOCK_SIZE_EXP,
                        num_blocks_allocated: 1,
                        root_btree_offset: 0,
                    }
                    &&& db.disk@ == written(disk@, 0, db.meta.encoding())
                    &&& db.disk.reliable() == disk.reliable()
                    &&& db.inv()
                    &&& db.synced()
                    &&& nested_ok(&db)
                },
                Err(e) => io_failure(&disk, e),
            },
    {
        let mut disk = disk;
        let meta = match Self::init_header(&mut disk) {
            Ok(meta) => meta,
            Err(e) => {
                return Err(e);
            },
        };
        Ok(Database { disk, meta })
    }

    fn read_header(disk: &mut D) -> (r: Result<DatabaseMeta, Error>)
        ensures
            final(disk).reliable() == old(disk).reliable(),
            final(disk)@ == old(disk)@,
            match r {
                Ok(meta) => old(disk)@.len() >= HEADER_LEN && meta == DatabaseMeta::decoded(
                    old(disk)@,
                ),
                Err(Error::Format) => old(disk)@.len() < HEADER_LEN,
                Err(e) => io_failure(old(disk), e),
            },
    {
        let buf = match disk.read_exact_at(0, HEADER_LEN) {
            Ok(buf) => buf,
            Err(e) => {
                return Err(Error::from_disk(e));
            },
        };
        let block_size_exp: u64 = get_u64(buf.as_slice(), 0);
        let num_blocks_allocated: u64 = get_u64(buf.as_slice(), 8);
        let root_btree_offset: u64 = get_u64(buf.as_slice(), 16);
        proof {
            let d = old(disk)@;
            assert(buf@.subrange(0, 8) =~= d.subrange(0, 8));
            assert(buf@.subrange(8, 16) =~= d.subrange(8, 16));
            assert(buf@.subrange(16, 24) =~= d.subrange(16, 24));
        }
        Ok(DatabaseMeta { block_size_exp, num_blocks_allocated, root_btree_offset })
    }

    fn init_header(disk: &mut D) -> (r: Result<DatabaseMeta, Error>)
        ensures
            final(disk).reliable() == old(disk).reliable(),
            match r {
                Ok(meta) => {
                    &&& meta == DatabaseMeta {
                        block_size_exp: BLOCK_SIZE_EXP,
                        num_blocks_allocated: 1,
                        root_btree_offset: 0,
                    }
                    &&& meta.inv()
                    &&& final(disk)@ == written(old(disk)@, 0, meta.encoding())
                    &&& final(disk)@.len() >= HEADER_LEN
                    &&& DatabaseMeta::decoded(final(disk)@) == meta
                },
                Err(e) => io_failure(old(disk), e),
            },
    {
        let meta = DatabaseMeta {
            block_size_exp: BLOCK_SIZE_EXP,
            // one block, for the header
            num_blocks_allocated: 1,
            // no root tree yet: it is allocated when first asked for
            root_btree_offset: 0,
        };
        match meta.persist(disk) {
            Ok(()) => {},
            Err(e) => {
                return Err(e);
            },
        }
        proof {
            reveal(DatabaseMeta::spec_end);
            lemma2_to64();
            lemma_header_written(old(disk)@, meta);
        }
        Ok(meta)
    }

    /// Writes the header in memory to the device.
    pub fn persist_meta(&mut self) -> (r: Result<(), Error>)
        ensures
            final(self).disk.reliable() == old(self).disk.reliable(),
            final(self).meta == old(self).meta,
            match r {
                Ok(()) => {
                    &&& final(self).disk@ == written(old(self).disk@, 0, old(self).meta.encoding())
                    &&& final(self).synced()
                },
                Err(e) => io_failure(&old(self).disk, e),
            },
    {
        let r = self.meta.persist(&mut self.disk);
        proof {
            if r is Ok {
                lemma_header_written(old(self).disk@, self.meta);
            }
        }
        r
    }
}

/// After a header has been written, the device starts with it, and every
/// byte behind the header is as before.
pub proof fn lemma_header_written(d: Seq<u8>, meta: DatabaseMeta)
    ensures
        meta.encoding().len() == HEADER_LEN,
        written(d, 0, meta.encoding()).len() >= HEADER_LEN,
        written(d, 0, meta.encoding()).len() >= d.len(),
        DatabaseMeta::decoded(written(d, 0, meta.encoding())) == meta,
        forall|i: int|
            HEADER_LEN <= i < d.len() ==> #[trigger] written(d, 0, meta.encoding())[i] == d[i],
{
    lemma_u64_be_roundtrip(meta.block_size_exp);
    lemma_u64_be_roundtrip(meta.num_blocks_allocated);
    lemma_u64_be_roundtrip(meta.root_btree_offset);
    let w = written(d, 0, meta.encoding());
    lemma_written(d, 0, meta.encoding());
    assert(w.subrange(0, HEADER_LEN as int) =~= meta.encoding());
    meta.lemma_decode_encoding(w);
}

/// A device that starts with the same 24 bytes spells the same header.
pub proof fn lemma_header_kept(d: Seq<u8>, d2: Seq<u8>)
    requires
        d.len() >= HEADER_LEN,
        d2.len() >= HEADER_LEN,
        d2.subrange(0, HEADER_LEN as int) == d.subrange(0, HEADER_LEN as int),
    ensures
        DatabaseMeta::decoded(d2) == DatabaseMeta::decoded(d),
{
    let h = d.subrange(0, HEADER_LEN as int);
    let h2 = d2.subrange(0, HEADER_LEN as int);
    assert(d.subrange(0, 8) =~= h.subrange(0, 8));
    assert(d.subrange(8, 16) =~= h.subrange(8, 16));
    assert(d.subrange(16, 24) =~= h.subrange(16, 24));
    assert(d2.subrange(0, 8) =~= h2.subrange(0, 8));
    assert(d2.subrange(8, 16) =~= h2.subrange(8, 16));
    assert(d2.subrange(16, 24) =~= h2.subrange(16, 24));
}

/// The allocated blocks of a usable device end behind block 0.
pub proof fn lemma_end_bounds(meta: DatabaseMeta)
    requires
        meta.inv(),
    ensures
        128 <= meta.spec_block_size() <= 0x8000_0000,
        meta.spec_block_size() <= meta.spec_end() <= max_device_size(),
        meta.num_blocks_allocated < max_device_size(),
{
    reveal(DatabaseMeta::spec_end);
    meta.lemma_block_size_bounds();
    let bs = meta.spec_block_size();
    let n = meta.num_blocks_allocated as int;
    assert(bs <= n * bs && n < n * bs) by (nonlinear_arith)
        requires
            n >= 1,
            bs >= 2,
    ;
}

impl<D: Disk> BlockAllocator for Database<D> {
    open spec fn valid(&self) -> bool {
        self.inv()
    }

    /// Allocates the block behind the last one and writes the header. The
    /// block's bytes are left as the device has them.
    fn allocate_block(&mut self) -> (r: Result<u64, Error>)
        ensures
            final(self).disk.reliable() == old(self).disk.reliable(),
            final(self).meta.block_size_exp == old(self).meta.block_size_exp,
            final(self).meta.root_btree_offset == old(self).meta.root_btree_offset,
            final(self).meta.num_blocks_allocated >= old(self).meta.num_blocks_allocated,
            match r {
                Ok(offset) => {
                    &&& offset == old(self).spec_end()
                    &&& final(self).meta == DatabaseMeta {
                        num_blocks_allocated: (old(self).meta.num_blocks_allocated + 1) as u64,
                        ..old(self).meta
                    }
                    &&& final(self).disk@ == written(
                        old(self).disk@,
                        0,
                        final(self).meta.encoding(),
                    )
                    &&& final(self).synced()
                    &&& final(self).spec_end() == offset + old(self).spec_block_size()
                },
                Err(Error::Capacity) => {
                    &&& old(self).spec_end() + old(self).spec_block_size() > max_device_size()
                    &&& *final(self) == *old(self)
                },
                Err(e) => io_failure(&old(self).disk, e),
            },
    {
        let block_size: u64 = self.block_size();
        proof {
            reveal(DatabaseMeta::spec_end);
        }
        let new_offset: u64 = self.meta.num_blocks_allocated * block_size;
        proof {
            assert((self.meta.num_blocks_allocated + 1) * block_size == new_offset + block_size)
                by (nonlinear_arith)
                requires
                    new_offset == self.meta.num_blocks_allocated * block_size,
            ;
            assert(self.meta.num_blocks_allocated <= new_offset) by (nonlinear_arith)
                requires
                    new_offset == self.meta.num_blocks_allocated * block_size,
                    block_size >= 1,
            ;
        }
        if new_offset + block_size > max_device_size() {
            return Err(Error::Capacity);
        }
        self.meta.num_blocks_allocated += 1;
        match self.persist_meta() {
            Ok(()) => Ok(new_offset),
            Err(e) => Err(e),
        }
    }

    /// Writes `data` at `offset`.
    fn write(&mut self, offset: u64, data: &[u8]) -> (r: Result<(), Error>)
        ensures
            final(self).disk.reliable() == old(self).disk.reliable(),
            final(self).meta == old(self).meta,
            match r {
                Ok(()) => final(self).disk@ == written(old(self).disk@, offset as int, data@),
                Err(e) => write_failure(&old(self).disk, e, offset + data@.len()),
            },
    {
        match self.disk.write_all_at(offset, data) {
            Ok(()) => Ok(()),
            Err(_) => Err(Error::Io),
        }
    }
}

} // verus!
