//! Internal pages: separator keys and the offsets of the children between
//! them.

use crate::bytes::get_u128;
use crate::bytes::get_u64;
use crate::bytes::lemma_u64_be_roundtrip;
use crate::bytes::put_u128;
use crate::bytes::put_u64;
use crate::database::BlockAllocator;
use crate::database::Database;
use crate::database::DatabaseMeta;
use crate::database::lemma_end_bounds;
use crate::database::lemma_header_written;
use crate::database::max_device_size;
use crate::disk::Disk;
use crate::error::Error;
use crate::error::io_failure;
use crate::key::Key;
use crate::page::INTERNAL_TAG;
use crate::page::PAGE_HEADER_LEN;
use crate::page::PageOffset;
use crate::page::frame::kept_below;
use crate::page::frame::kept_outside;
use crate::page::frame::lemma_frame_header;
use crate::page::frame::lemma_frame_image;
use crate::page::image;
use crate::page::internal_spec::internal_bytes;
use crate::page::internal_spec::internal_keys;
use crate::page::internal_spec::internal_pointers;
use crate::page::internal_spec::is_internal;
use crate::page::internal_spec::is_route;
use crate::page::internal_spec::key_pos;
use crate::page::internal_spec::keys_bytes;
use crate::page::internal_spec::keys_sorted;
use crate::page::internal_spec::lemma_internal_write;
use crate::page::internal_spec::lemma_keys_bytes;
use crate::page::internal_spec::lemma_keys_remove_sorted;
use crate::page::internal_spec::lemma_keys_subrange_sorted;
use crate::page::internal_spec::lemma_pointers_bytes;
use crate::page::internal_spec::lemma_route;
use crate::page::internal_spec::max_children;
use crate::page::internal_spec::node_wf;
use crate::page::internal_spec::padded;
use crate::page::internal_spec::pointer_pos;
use crate::page::internal_spec::pointers_bytes;
use crate::page::internal_spec::route;
use crate::page::u128_at;
use crate::page::u64_at;
use vstd::prelude::*;

verus! {

/// The bytes of a key on disk.
pub const KEY_LEN: u64 = 16;

/// The bytes of a child offset on disk.
pub const POINTER_LEN: u64 = 8;

/// An internal page in memory: where it is on the device, its keys, and
/// the offsets of its children.
pub struct InternalPage {
    pub offset: u64,
    pub keys: Vec<Key>,
    pub pointers: Vec<PageOffset>,
}

/// Inserts `val` at `idx`, which may be the end.
pub fn safe_insert<T>(vec: &mut Vec<T>, idx: usize, val: T)
    requires
        idx <= old(vec)@.len(),
    ensures
        final(vec)@ == old(vec)@.insert(idx as int, val),
{
    if idx == vec.len() {
        vec.push(val);
        assert(vec@ =~= old(vec)@.insert(idx as int, val));
    } else {
        vec.insert(idx, val);
    }
}

impl InternalPage {
    /// Keys and child offsets are valid in a page of `bs` bytes, and the
    /// page lies where a device can have it.
    pub open spec fn wf(&self, bs: int) -> bool {
        &&& PAGE_HEADER_LEN <= bs <= 0x8000_0000
        &&& self.offset + bs <= max_device_size()
        &&& node_wf(self.keys@, self.pointers@, bs)
    }

    /// The page is one of the allocated blocks of `db`, behind block 0, and
    /// lies on its device.
    pub open spec fn in_store(&self, db: &Database<impl Disk>) -> bool {
        &&& self.wf(db.spec_block_size())
        &&& self.offset + db.spec_block_size() <= db.disk@.len()
        &&& db.spec_block_size() <= self.offset
        &&& self.offset + db.spec_block_size() <= db.spec_end()
    }

    /// The page is what a device that holds `d` has at its offset, in a
    /// block of `bs` bytes: a valid internal page with these keys and
    /// child offsets.
    pub open spec fn reads(&self, d: Seq<u8>, bs: int) -> bool {
        &&& self.offset + bs <= d.len()
        &&& is_internal(image(d, self.offset as int, bs))
        &&& self.keys@ == internal_keys(image(d, self.offset as int, bs))
        &&& self.pointers@ == internal_pointers(image(d, self.offset as int, bs))
        &&& self.wf(bs)
    }

    /// The offset of the page on the device.
    pub fn offset(&self) -> (r: u64)
        ensures
            r == self.offset,
    {
        self.offset
    }

    /// The separator keys.
    pub fn keys(&self) -> (r: &[Key])
        ensures
            r@ == self.keys@,
    {
        self.keys.as_slice()
    }

    /// The offsets of the children.
    pub fn pointers(&self) -> (r: &[PageOffset])
        ensures
            r@ == self.pointers@,
    {
        self.pointers.as_slice()
    }

    /// The separator key at `i`.
    pub fn key(&self, i: usize) -> (r: Key)
        requires
            i < self.keys@.len(),
        ensures
            r == self.keys@[i as int],
    {
        self.keys[i]
    }

    /// The offset of child `i`.
    pub fn pointer(&self, i: usize) -> (r: PageOffset)
        requires
            i < self.pointers@.len(),
        ensures
            r == self.pointers@[i as int],
    {
        self.pointers[i]
    }

    /// The bytes before the keys: the tag and the key count.
    pub fn header_size() -> (r: u64)
        ensures
            r == PAGE_HEADER_LEN,
    {
        PAGE_HEADER_LEN
    }

    /// The number of children that a page of `page_size` bytes can have.
    pub fn max_children_capacity(page_size: u64) -> (r: u64)
        requires
            page_size <= u64::MAX - KEY_LEN,
        ensures
            r == max_children(page_size as int),
    {
        let head_size: u64 = Self::header_size();
        let child_ptr_size: u64 = POINTER_LEN;
        let key_size: u64 = KEY_LEN;
        (page_size + key_size - head_size) / (child_ptr_size + key_size)
    }

    /// Whether the page has as many children as a page of `page_size`
    /// bytes can have.
    pub fn is_full(&self, page_size: u64) -> (r: bool)
        requires
            page_size <= u64::MAX - KEY_LEN,
        ensures
            r == (self.pointers@.len() >= max_children(page_size as int)),
    {
        self.pointers.len() as u64 >= InternalPage::max_children_capacity(page_size)
    }

    /// Whether one more child fits.
    pub fn can_accommodate(&self, page_size: u64) -> (r: bool)
        requires
            page_size <= u64::MAX - KEY_LEN,
        ensures
            r == (self.pointers@.len() < max_children(page_size as int)),
    {
        !self.is_full(page_size)
    }

    /// The child under which `key` is looked for, by binary search: the
    /// index of the separator that equals the key, or else of the first
    /// that is greater, or else the last child.
    pub fn find_child(&self, key: Key) -> (r: usize)
        requires
            keys_sorted(self.keys@),
        ensures
            is_route(self.keys@, key, r as int),
            r == route(self.keys@, key),
    {
        let mut lo: usize = 0;
        let mut hi: usize = self.keys.len();
        while lo < hi
            invariant
                keys_sorted(self.keys@),
                0 <= lo <= hi <= self.keys@.len(),
                forall|i: int| 0 <= i < lo ==> self.keys@[i] < key,
                forall|i: int| hi <= i < self.keys@.len() ==> self.keys@[i] >= key,
            decreases hi - lo,
        {
            let mid: usize = lo + (hi - lo) / 2;
            if self.keys[mid] < key {
                lo = mid + 1;
            } else {
                hi = mid;
            }
        }
        proof {
            lemma_route(self.keys@, key, lo as int);
        }
        lo
    }

    /// Reads an internal page from the image of its page: the tag, the key
    /// count, the keys and the child offsets. An image that is no valid
    /// internal page is a format error.
    pub fn load(offset: u64, buf: &[u8]) -> (r: Result<InternalPage, Error>)
        requires
            PAGE_HEADER_LEN <= buf@.len() <= 0x8000_0000,
            offset + buf@.len() <= max_device_size(),
        ensures
            match r {
                Ok(page) => {
                    &&& is_internal(buf@)
                    &&& page.offset == offset
                    &&& page.keys@ == internal_keys(buf@)
                    &&& page.pointers@ == internal_pointers(buf@)
                    &&& page.wf(buf@.len() as int)
                },
                Err(e) => e == Error::Format && !is_internal(buf@),
            },
    {
        if buf[0] != INTERNAL_TAG {
            return Err(Error::Format);
        }
        let bs: u64 = buf.len() as u64;
        let keys_len: u64 = get_u64(buf, 1);
        if keys_len >= InternalPage::max_children_capacity(bs) {
            return Err(Error::Format);
        }
        let mut keys: Vec<Key> = Vec::new();
        let mut i: u64 = 0;
        while i < keys_len
            invariant
                bs == buf@.len(),
                keys_len == u64_at(buf@, 1),
                keys_len + 1 <= max_children(bs as int),
                bs <= 0x8000_0000,
                0 <= i <= keys_len,
                keys@.len() == i,
                forall|j: int| 0 <= j < i ==> keys@[j] == u128_at(buf@, key_pos(j)),
            decreases keys_len - i,
        {
            let at: usize = (PAGE_HEADER_LEN + KEY_LEN * i) as usize;
            keys.push(get_u128(buf, at));
            i += 1;
        }
        let mut pointers: Vec<PageOffset> = Vec::new();
        let mut i: u64 = 0;
        while i < keys_len + 1
            invariant
                bs == buf@.len(),
                keys_len == u64_at(buf@, 1),
                keys_len + 1 <= max_children(bs as int),
                bs <= 0x8000_0000,
                0 <= i <= keys_len + 1,
                pointers@.len() == i,
                forall|j: int|
                    0 <= j < i ==> pointers@[j] == u64_at(buf@, pointer_pos(keys_len as int, j)),
            decreases keys_len + 1 - i,
        {
            let at: usize = (PAGE_HEADER_LEN + KEY_LEN * keys_len + POINTER_LEN * i) as usize;
            pointers.push(get_u64(buf, at));
            i += 1;
        }
        assert(keys@ =~= internal_keys(buf@));
        assert(pointers@ =~= internal_pointers(buf@));
        let mut j: usize = 1;
        while j < keys.len()
            invariant
                1 <= j,
                keys@ == internal_keys(buf@),
                forall|a: int, b: int| 0 <= a < b < j && b < keys@.len() ==> keys@[a] < keys@[b],
            decreases keys@.len() - j,
        {
            if keys[j - 1] >= keys[j] {
                proof {
                    let a = j - 1;
                    let b = j as int;
                    assert(0 <= a < b < keys@.len() && !(keys@[a] < keys@[b]));
                    assert(!keys_sorted(keys@));
                }
                return Err(Error::Format);
            }
            j += 1;
        }
        Ok(InternalPage { offset, keys, pointers })
    }

    /// The bytes of the page: its contents, and zeros up to the page size.
    fn page_buf(&self, page_size: u64) -> (r: Vec<u8>)
        requires
            self.wf(page_size as int),
        ensures
            r@ == padded(internal_bytes(self.keys@, self.pointers@), page_size as int),
    {
        let keys_len: usize = self.keys.len();
        let mut buf: Vec<u8> = Vec::new();
        buf.push(INTERNAL_TAG);
        put_u64(&mut buf, keys_len as u64);
        let ghost head = buf@;
        let mut i: usize = 0;
        proof {
            assert(self.keys@.take(0) =~= Seq::<Key>::empty());
            assert(buf@ =~= head + keys_bytes(self.keys@.take(0)));
        }
        while i < keys_len
            invariant
                keys_len == self.keys@.len(),
                0 <= i <= keys_len,
                buf@ == head + keys_bytes(self.keys@.take(i as int)),
            decreases keys_len - i,
        {
            put_u128(&mut buf, self.keys[i]);
            proof {
                let t = self.keys@.take(i + 1);
                assert(t.drop_last() =~= self.keys@.take(i as int));
                assert(buf@ =~= head + keys_bytes(t));
            }
            i += 1;
        }
        let ghost mid = buf@;
        let n: usize = self.pointers.len();
        let mut i: usize = 0;
        proof {
            assert(self.keys@.take(keys_len as int) =~= self.keys@);
            assert(self.pointers@.take(0) =~= Seq::<PageOffset>::empty());
            assert(buf@ =~= mid + pointers_bytes(self.pointers@.take(0)));
        }
        while i < n
            invariant
                n == self.pointers@.len(),
                0 <= i <= n,
                buf@ == mid + pointers_bytes(self.pointers@.take(i as int)),
            decreases n - i,
        {
            put_u64(&mut buf, self.pointers[i]);
            proof {
                let t = self.pointers@.take(i + 1);
                assert(t.drop_last() =~= self.pointers@.take(i as int));
                assert(buf@ =~= mid + pointers_bytes(t));
            }
            i += 1;
        }
        proof {
            assert(self.pointers@.take(n as int) =~= self.pointers@);
            lemma_keys_bytes(self.keys@);
            lemma_pointers_bytes(self.pointers@);
            lemma_u64_be_roundtrip(keys_len as u64);
            assert(buf@ =~= internal_bytes(self.keys@, self.pointers@));
        }
        let ghost content = buf@;
        while buf.len() < page_size as usize
            invariant
                content.len() <= page_size,
                content.len() <= buf@.len() <= page_size,
                buf@ == content + Seq::new((buf@.len() - content.len()) as nat, |i: int| 0u8),
            decreases page_size - buf@.len(),
        {
            buf.push(0u8);
            assert(buf@ =~= content + Seq::new((buf@.len() - content.len()) as nat, |i: int| 0u8));
        }
        buf
    }

    /// Writes the whole page.
    pub fn persist<D: Disk>(&self, db: &mut Database<D>) -> (r: Result<(), Error>)
        requires
            old(db).inv(),
            self.wf(old(db).spec_block_size()),
        ensures
            final(db).disk.reliable() == old(db).disk.reliable(),
            final(db).meta == old(db).meta,
            match r {
                Ok(()) => {
                    let bs = old(db).spec_block_size();
                    let off = self.offset as int;
                    &&& final(db).disk@.len() >= old(db).disk@.len()
                    &&& final(db).disk@.len() >= off + bs
                    &&& off + bs <= old(db).disk@.len() ==> final(db).disk@.len() == old(
                        db,
                    ).disk@.len()
                    &&& kept_outside(old(db).disk@, final(db).disk@, off, off + bs)
                    &&& is_internal(image(final(db).disk@, off, bs))
                    &&& internal_keys(image(final(db).disk@, off, bs)) == self.keys@
                    &&& internal_pointers(image(final(db).disk@, off, bs)) == self.pointers@
                },
                Err(e) => io_failure(&old(db).disk, e),
            },
    {
        let page_size: u64 = db.block_size();
        let buf = self.page_buf(page_size);
        proof {
            lemma_internal_write(
                db.disk@,
                self.offset as int,
                page_size as int,
                self.keys@,
                self.pointers@,
            );
        }
        db.write(self.offset, buf.as_slice())
    }

    /// Allocates a block and makes it an internal page with one child and
    /// no key. Where the device is full nothing is changed.
    pub fn init<D: Disk>(db: &mut Database<D>, pointer: PageOffset) -> (r: Result<
        InternalPage,
        Error,
    >)
        requires
            old(db).inv(),
        ensures
            final(db).disk.reliable() == old(db).disk.reliable(),
            final(db).inv(),
            final(db).meta.block_size_exp == old(db).meta.block_size_exp,
            final(db).meta.root_btree_offset == old(db).meta.root_btree_offset,
            final(db).meta.num_blocks_allocated >= old(db).meta.num_blocks_allocated,
            match r {
                Ok(page) => {
                    let bs = old(db).spec_block_size();
                    let off = old(db).spec_end();
                    &&& page.offset == off
                    &&& page.keys@ == Seq::<Key>::empty()
                    &&& page.pointers@ == seq![pointer]
                    &&& page.in_store(final(db))
                    &&& final(db).meta == DatabaseMeta {
                        num_blocks_allocated: (old(db).meta.num_blocks_allocated + 1) as u64,
                        ..old(db).meta
                    }
                    &&& final(db).spec_end() == off + bs
                    &&& final(db).synced()
                    &&& kept_below(old(db).disk@, final(db).disk@, off, off, off)
                    &&& is_internal(image(final(db).disk@, off, bs))
                    &&& internal_keys(image(final(db).disk@, off, bs)) == page.keys@
                    &&& internal_pointers(image(final(db).disk@, off, bs)) == page.pointers@
                },
                Err(Error::Capacity) => {
                    &&& old(db).spec_end() + old(db).spec_block_size() > max_device_size()
                    &&& final(db).meta == old(db).meta
                    &&& final(db).disk@ == old(db).disk@
                },
                Err(e) => io_failure(&old(db).disk, e),
            },
    {
        let ghost d = db.disk@;
        proof {
            lemma_end_bounds(db.meta);
        }
        let offset: u64 = match db.allocate_block() {
            Ok(offset) => offset,
            Err(e) => {
                return Err(e);
            },
        };
        let ghost d1 = db.disk@;
        let mut pointers: Vec<PageOffset> = Vec::new();
        pointers.push(pointer);
        let page = InternalPage { offset, keys: Vec::new(), pointers };
        assert(page.pointers@ =~= seq![pointer]);
        assert(page.keys@ =~= Seq::<Key>::empty());
        match page.persist(db) {
            Ok(()) => {},
            Err(e) => {
                return Err(e);
            },
        }
        proof {
            let d2 = db.disk@;
            let off = offset as int;
            lemma_header_written(d, db.meta);
            lemma_frame_header(d1, d2, off, off + db.spec_block_size());
            reveal(kept_outside);
            reveal(kept_below);
        }
        Ok(page)
    }

    /// Puts `key` at index `i` of the keys and `pointer` behind it, at
    /// index `i + 1` of the child offsets, and writes the page.
    pub fn safe_insert<D: Disk>(
        &mut self,
        i: usize,
        key: Key,
        pointer: PageOffset,
        db: &mut Database<D>,
    ) -> (r: Result<(), Error>)
        requires
            old(db).inv(),
            old(self).wf(old(db).spec_block_size()),
            i <= old(self).keys@.len(),
            old(self).pointers@.len() < max_children(old(db).spec_block_size()),
            keys_sorted(old(self).keys@.insert(i as int, key)),
        ensures
            final(db).disk.reliable() == old(db).disk.reliable(),
            final(db).meta == old(db).meta,
            final(self).offset == old(self).offset,
            final(self).keys@ == old(self).keys@.insert(i as int, key),
            final(self).pointers@ == old(self).pointers@.insert(i + 1, pointer),
            final(self).wf(old(db).spec_block_size()),
            match r {
                Ok(()) => {
                    let bs = old(db).spec_block_size();
                    let off = old(self).offset as int;
                    &&& final(db).disk@.len() >= old(db).disk@.len()
                    &&& final(db).disk@.len() >= off + bs
                    &&& off + bs <= old(db).disk@.len() ==> final(db).disk@.len() == old(
                        db,
                    ).disk@.len()
                    &&& kept_outside(old(db).disk@, final(db).disk@, off, off + bs)
                    &&& is_internal(image(final(db).disk@, off, bs))
                    &&& internal_keys(image(final(db).disk@, off, bs)) == final(self).keys@
                    &&& internal_pointers(image(final(db).disk@, off, bs)) == final(self).pointers@
                },
                Err(e) => io_failure(&old(db).disk, e),
            },
    {
        safe_insert(&mut self.keys, i, key);
        safe_insert(&mut self.pointers, i + 1, pointer);
        self.persist(db)
    }

    /// Removes the key at index `i` and the child offset behind it, at
    /// index `i + 1`, and writes the page.
    pub fn safe_remove<D: Disk>(&mut self, i: usize, db: &mut Database<D>) -> (r: Result<(), Error>)
        requires
            old(db).inv(),
            old(self).wf(old(db).spec_block_size()),
            i < old(self).keys@.len(),
        ensures
            final(db).disk.reliable() == old(db).disk.reliable(),
            final(db).meta == old(db).meta,
            final(self).offset == old(self).offset,
            final(self).keys@ == old(self).keys@.remove(i as int),
            final(self).pointers@ == old(self).pointers@.remove(i + 1),
            final(self).wf(old(db).spec_block_size()),
            match r {
                Ok(()) => {
                    let bs = old(db).spec_block_size();
                    let off = old(self).offset as int;
                    &&& final(db).disk@.len() >= old(db).disk@.len()
                    &&& final(db).disk@.len() >= off + bs
                    &&& off + bs <= old(db).disk@.len() ==> final(db).disk@.len() == old(
                        db,
                    ).disk@.len()
                    &&& kept_outside(old(db).disk@, final(db).disk@, off, off + bs)
                    &&& is_internal(image(final(db).disk@, off, bs))
                    &&& internal_keys(image(final(db).disk@, off, bs)) == final(self).keys@
                    &&& internal_pointers(image(final(db).disk@, off, bs)) == final(self).pointers@
                },
                Err(e) => io_failure(&old(db).disk, e),
            },
    {
        proof {
            lemma_keys_remove_sorted(self.keys@, i as int);
        }
        self.keys.remove(i);
        self.pointers.remove(i + 1);
        self.persist(db)
    }

    /// Removes the first key and the first child offset, and writes the
    /// page.
    pub fn remove_first<D: Disk>(&mut self, db: &mut Database<D>) -> (r: Result<(), Error>)
        requires
            old(db).inv(),
            old(self).wf(old(db).spec_block_size()),
            0 < old(self).keys@.len(),
        ensures
            final(db).disk.reliable() == old(db).disk.reliable(),
            final(db).meta == old(db).meta,
            final(self).offset == old(self).offset,
            final(self).keys@ == old(self).keys@.remove(0),
            final(self).pointers@ == old(self).pointers@.remove(0),
            final(self).wf(old(db).spec_block_size()),
            match r {
                Ok(()) => {
                    let bs = old(db).spec_block_size();
                    let off = old(self).offset as int;
                    &&& final(db).disk@.len() >= old(db).disk@.len()
                    &&& final(db).disk@.len() >= off + bs
                    &&& off + bs <= old(db).disk@.len() ==> final(db).disk@.len() == old(
                        db,
                    ).disk@.len()
                    &&& kept_outside(old(db).disk@, final(db).disk@, off, off + bs)
                    &&& is_internal(image(final(db).disk@, off, bs))
                    &&& internal_keys(image(final(db).disk@, off, bs)) == final(self).keys@
                    &&& internal_pointers(image(final(db).disk@, off, bs)) == final(self).pointers@
                },
                Err(e) => io_failure(&old(db).disk, e),
            },
    {
        proof {
            lemma_keys_remove_sorted(self.keys@, 0);
        }
        self.keys.remove(0);
        self.pointers.remove(0);
        self.persist(db)
    }

    /// Puts `pointer` in place of the child offset at index `i`, and
    /// writes the page.
    pub fn set_pointer<D: Disk>(
        &mut self,
        i: usize,
        pointer: PageOffset,
        db: &mut Database<D>,
    ) -> (r:
        Result<(), Error>)
        requires
            old(db).inv(),
            old(self).wf(old(db).spec_block_size()),
            i < old(self).pointers@.len(),
        ensures
            final(db).disk.reliable() == old(db).disk.reliable(),
            final(db).meta == old(db).meta,
            final(self).offset == old(self).offset,
            final(self).keys@ == old(self).keys@,
            final(self).pointers@ == old(self).pointers@.update(i as int, pointer),
            final(self).wf(old(db).spec_block_size()),
            match r {
                Ok(()) => {
                    let bs = old(db).spec_block_size();
                    let off = old(self).offset as int;
                    &&& final(db).disk@.len() >= old(db).disk@.len()
                    &&& final(db).disk@.len() >= off + bs
                    &&& off + bs <= old(db).disk@.len() ==> final(db).disk@.len() == old(
                        db,
                    ).disk@.len()
                    &&& kept_outside(old(db).disk@, final(db).disk@, off, off + bs)
                    &&& is_internal(image(final(db).disk@, off, bs))
                    &&& internal_keys(image(final(db).disk@, off, bs)) == final(self).keys@
                    &&& internal_pointers(image(final(db).disk@, off, bs)) == final(self).pointers@
                },
                Err(e) => io_failure(&old(db).disk, e),
            },
    {
        self.pointers[i] = pointer;
        self.persist(db)
    }

    /// Splits the page: allocates a new internal page and gives it the
    /// upper half of the keys and the children from the same index on. The
    /// last key that is left becomes the separator and leaves this page.
    /// Returns the new page, the right sibling, and the separator. Where
    /// the device is full nothing is changed.
    pub fn split_in_half<D: Disk>(&mut self, db: &mut Database<D>) -> (r: Result<
        (InternalPage, Key),
        Error,
    >)
        requires
            old(db).inv(),
            old(self).in_store(old(db)),
            old(self).keys@.len() >= 2,
        ensures
            final(db).disk.reliable() == old(db).disk.reliable(),
            final(db).inv(),
            final(db).meta.block_size_exp == old(db).meta.block_size_exp,
            final(db).meta.root_btree_offset == old(db).meta.root_btree_offset,
            final(db).meta.num_blocks_allocated >= old(db).meta.num_blocks_allocated,
            final(self).offset == old(self).offset,
            match r {
                Ok((right, sep)) => {
                    let bs = old(db).spec_block_size();
                    let off = old(self).offset as int;
                    let end = old(db).spec_end();
                    let split = old(self).keys@.len() as int / 2;
                    &&& sep == old(self).keys@[split - 1]
                    &&& final(self).keys@ == old(self).keys@.take(split - 1)
                    &&& final(self).pointers@ == old(self).pointers@.take(split)
                    &&& right.keys@ == old(self).keys@.skip(split)
                    &&& right.pointers@ == old(self).pointers@.skip(split)
                    &&& right.offset == end
                    &&& final(db).meta == DatabaseMeta {
                        num_blocks_allocated: (old(db).meta.num_blocks_allocated + 1) as u64,
                        ..old(db).meta
                    }
                    &&& final(db).spec_end() == end + bs
                    &&& final(db).synced()
                    &&& final(self).in_store(final(db))
                    &&& right.in_store(final(db))
                    &&& kept_below(old(db).disk@, final(db).disk@, end, off, off + bs)
                    &&& is_internal(image(final(db).disk@, off, bs))
                    &&& internal_keys(image(final(db).disk@, off, bs)) == final(self).keys@
                    &&& internal_pointers(image(final(db).disk@, off, bs)) == final(self).pointers@
                    &&& is_internal(image(final(db).disk@, end, bs))
                    &&& internal_keys(image(final(db).disk@, end, bs)) == right.keys@
                    &&& internal_pointers(image(final(db).disk@, end, bs)) == right.pointers@
                },
                Err(Error::Capacity) => {
                    &&& old(db).spec_end() + old(db).spec_block_size() > max_device_size()
                    &&& final(db).meta == old(db).meta
                    &&& final(db).disk@ == old(db).disk@
                    &&& final(self).keys@ == old(self).keys@
                    &&& final(self).pointers@ == old(self).pointers@
                },
                Err(e) => io_failure(&old(db).disk, e),
            },
    {
        let split_idx: usize = self.keys.len() / 2;
        let ghost d = db.disk@;
        let ghost bs = db.spec_block_size();
        let ghost off = self.offset as int;
        let ghost end = db.spec_end();
        let ghost keys0 = self.keys@;
        proof {
            lemma_end_bounds(db.meta);
        }
        let offset: u64 = match db.allocate_block() {
            Ok(offset) => offset,
            Err(e) => {
                return Err(e);
            },
        };
        let ghost d1 = db.disk@;
        let new_right_sibling = InternalPage {
            offset,
            keys: self.keys.split_off(split_idx),
            pointers: self.pointers.split_off(split_idx),
        };
        let key: Key = match self.keys.pop() {
            Some(key) => key,
            None => {
                return Err(Error::InvariantViolation);
            },
        };
        proof {
            lemma_keys_subrange_sorted(keys0, split_idx as int, keys0.len() as int);
            lemma_keys_subrange_sorted(keys0, 0, split_idx - 1);
            assert(self.keys@ =~= keys0.take(split_idx - 1));
            lemma_header_written(d, db.meta);
        }
        match new_right_sibling.persist(db) {
            Ok(()) => {},
            Err(e) => {
                return Err(e);
            },
        }
        let ghost d2 = db.disk@;
        match self.persist(db) {
            Ok(()) => {},
            Err(e) => {
                return Err(e);
            },
        }
        proof {
            let d3 = db.disk@;
            lemma_frame_header(d1, d2, end, end + bs);
            lemma_frame_header(d2, d3, off, off + bs);
            lemma_frame_image(d2, d3, off, off + bs, end, bs);
            reveal(kept_outside);
            reveal(kept_below);
        }
        Ok((new_right_sibling, key))
    }
}

} // verus!
