//! Leaf pages: a slot directory that grows from the header, and the values,
//! which grow from the page's end.

use crate::bytes::get_u128;
use crate::bytes::get_u64;
use crate::bytes::lemma_u64_be_roundtrip;
use crate::bytes::lemma_u64_from_be_zero;
use crate::bytes::put_u128;
use crate::bytes::put_u64;
use crate::bytes::u64_to_be;
use crate::database::BlockAllocator;
use crate::database::Database;
use crate::database::DatabaseMeta;
use crate::database::HEADER_LEN;
use crate::database::lemma_end_bounds;
use crate::database::lemma_header_kept;
use crate::database::lemma_header_written;
use crate::database::max_device_size;
use crate::disk::Disk;
use crate::disk::lemma_written;
use crate::disk::lemma_written_inside;
use crate::disk::lemma_written_outside;
use crate::disk::written;
use crate::error::Error;
use crate::error::io_failure;
use crate::error::write_failure;
use crate::key::Key;
use crate::page::LEAF_TAG;
use crate::page::PAGE_HEADER_LEN;
use crate::page::PageOffset;
use crate::page::frame::kept_below;
use crate::page::frame::kept_outside;
use crate::page::frame::lemma_kept_outside_refl;
use crate::page::frame::lemma_kept_outside_trans;
use crate::page::image;
use crate::page::leaf_spec::entries_bytes;
use crate::page::leaf_spec::entries_sorted;
use crate::page::leaf_spec::entries_value;
use crate::page::leaf_spec::entries_wf;
use crate::page::leaf_spec::entry_at;
use crate::page::leaf_spec::has_key;
use crate::page::leaf_spec::index_of;
use crate::page::leaf_spec::inserted;
use crate::page::leaf_spec::is_index_of;
use crate::page::leaf_spec::is_leaf;
use crate::page::leaf_spec::is_slot_for;
use crate::page::leaf_spec::leaf_entries;
use crate::page::leaf_spec::leaf_header_bytes;
use crate::page::leaf_spec::lemma_entries_bytes;
use crate::page::leaf_spec::lemma_index_of;
use crate::page::leaf_spec::lemma_index_of_sorted;
use crate::page::leaf_spec::lemma_index_of_wf;
use crate::page::leaf_spec::lemma_insert_sorted;
use crate::page::leaf_spec::lemma_min_offset;
use crate::page::leaf_spec::lemma_min_offset_insert;
use crate::page::leaf_spec::lemma_place_value;
use crate::page::leaf_spec::lemma_remove_value;
use crate::page::leaf_spec::lemma_slot_for;
use crate::page::leaf_spec::lemma_total_len_insert;
use crate::page::leaf_spec::lemma_total_len_nonneg;
use crate::page::leaf_spec::lemma_total_len_remove;
use crate::page::leaf_spec::lemma_total_len_take;
use crate::page::leaf_spec::min_offset;
use crate::page::leaf_spec::packed;
use crate::page::leaf_spec::readable;
use crate::page::leaf_spec::slot_for;
use crate::page::leaf_spec::slot_pos;
use crate::page::leaf_spec::total_len;
use crate::page::leaf_spec::upsert_fits;
use crate::page::leaf_spec::upserted;
use crate::page::u64_at;
use vstd::prelude::*;

verus! {

/// The bytes of one slot on disk.
pub const SLOT_LEN: u64 = 32;

/// A slot of a leaf's directory: a key, and where in the page its value is.
#[derive(Clone, Copy, Debug, PartialEq, Eq, Structural)]
pub struct LeafPageEntry {
    pub key: Key,
    pub offset: PageOffset,
    pub value_len: u64,
}

/// A leaf page in memory: where it is on the device, and its directory.
pub struct LeafPage {
    pub offset: u64,
    pub keys: Vec<LeafPageEntry>,
}

impl LeafPageEntry {
    /// The bytes of one slot on disk: a key and two `u64`.
    pub fn size_of_entry() -> (r: u64)
        ensures
            r == SLOT_LEN,
    {
        SLOT_LEN
    }
}

impl LeafPage {
    /// The directory is valid in a page of `bs` bytes, and the page lies
    /// where a device can have it.
    pub open spec fn wf(&self, bs: int) -> bool {
        &&& PAGE_HEADER_LEN <= bs <= 0x8000_0000
        &&& self.offset + bs <= max_device_size()
        &&& entries_wf(self.keys@, bs)
    }

    /// The page lies on the device of `db`, valid for its block size.
    pub open spec fn fits(&self, db: &Database<impl Disk>) -> bool {
        &&& self.wf(db.spec_block_size())
        &&& self.offset + db.spec_block_size() <= db.disk@.len()
    }

    /// The page is one of the allocated blocks of `db`, behind block 0, and
    /// lies on its device.
    pub open spec fn in_store(&self, db: &Database<impl Disk>) -> bool {
        &&& self.fits(db)
        &&& db.spec_block_size() <= self.offset
        &&& self.offset + db.spec_block_size() <= db.spec_end()
    }

    /// The page is what a device that holds `d` has at its offset, in a
    /// block of `bs` bytes: a valid leaf with this directory.
    pub open spec fn reads(&self, d: Seq<u8>, bs: int) -> bool {
        &&& self.offset + bs <= d.len()
        &&& is_leaf(image(d, self.offset as int, bs))
        &&& self.keys@ == leaf_entries(image(d, self.offset as int, bs))
        &&& self.wf(bs)
    }

    /// The offset of the page on the device.
    pub fn offset(&self) -> (r: u64)
        ensures
            r == self.offset,
    {
        self.offset
    }

    /// The slot directory.
    pub fn keys(&self) -> (r: &[LeafPageEntry])
        ensures
            r@ == self.keys@,
    {
        self.keys.as_slice()
    }

    /// The length of the header: tag, slot count, slots.
    fn header_len(&self) -> (r: u64)
        requires
            slot_pos(self.keys@.len() as int) <= u64::MAX,
        ensures
            r == slot_pos(self.keys@.len() as int),
    {
        LeafPageEntry::size_of_entry() * self.keys.len() as u64 + PAGE_HEADER_LEN
    }

    /// Whether the directory is valid in a page of `bs` bytes.
    fn check_entries(entries: &Vec<LeafPageEntry>, bs: u64) -> (r: bool)
        requires
            slot_pos(entries@.len() as int) <= bs <= 0x8000_0000,
        ensures
            r == entries_wf(entries@, bs as int),
    {
        let n: usize = entries.len();
        let header_len: u64 = PAGE_HEADER_LEN + SLOT_LEN * (n as u64);
        let room: u64 = bs - header_len;
        let mut sum: u64 = 0;
        let mut i: usize = 0;
        proof {
            assert(entries@.take(0) =~= Seq::<LeafPageEntry>::empty());
        }
        while i < n
            invariant
                n == entries@.len(),
                header_len == slot_pos(n as int),
                header_len <= bs <= 0x8000_0000,
                room == bs - header_len,
                0 <= i <= n,
                sum == total_len(entries@.take(i as int)),
                sum <= room,
                forall|j: int|
                    0 <= j < i ==> header_len <= (#[trigger] entries@[j]).offset && entries@[j].offset
                        + entries@[j].value_len <= bs,
                forall|a: int, b: int|
                    0 <= a < b < i ==> (#[trigger] entries@[a]).key < (#[trigger] entries@[b]).key,
            decreases n - i,
        {
            let e: LeafPageEntry = entries[i];
            proof {
                lemma_total_len_take(entries@, i as int);
                lemma_total_len_take(entries@, i + 1);
            }
            if e.offset < header_len || e.offset > bs || e.value_len > bs - e.offset {
                return false;
            }
            if e.value_len > room - sum {
                return false;
            }
            if i > 0 && entries[i - 1].key >= e.key {
                return false;
            }
            sum = sum + e.value_len;
            i += 1;
        }
        proof {
            assert(entries@.take(n as int) =~= entries@);
        }
        true
    }

    /// Reads a leaf from the image of its page: the tag, the slot count and
    /// the slots. An image that is no valid leaf is a format error.
    pub fn read_header(offset: u64, buf: &[u8]) -> (r: Result<LeafPage, Error>)
        requires
            PAGE_HEADER_LEN <= buf@.len() <= 0x8000_0000,
            offset + buf@.len() <= max_device_size(),
        ensures
            match r {
                Ok(page) => {
                    &&& is_leaf(buf@)
                    &&& page.offset == offset
                    &&& page.keys@ == leaf_entries(buf@)
                    &&& page.wf(buf@.len() as int)
                },
                Err(e) => e == Error::Format && !is_leaf(buf@),
            },
    {
        if buf[0] != LEAF_TAG {
            return Err(Error::Format);
        }
        let bs: u64 = buf.len() as u64;
        let len: u64 = get_u64(buf, 1);
        proof {
            lemma_total_len_nonneg(leaf_entries(buf@));
        }
        if len > (bs - PAGE_HEADER_LEN) / SLOT_LEN {
            return Err(Error::Format);
        }
        let mut keys: Vec<LeafPageEntry> = Vec::new();
        let mut i: u64 = 0;
        while i < len
            invariant
                bs == buf@.len(),
                len == u64_at(buf@, 1),
                slot_pos(len as int) <= bs,
                bs <= 0x8000_0000,
                0 <= i <= len,
                keys@.len() == i,
                forall|j: int| 0 <= j < i ==> keys@[j] == entry_at(buf@, j),
            decreases len - i,
        {
            let at: usize = (PAGE_HEADER_LEN + SLOT_LEN * i) as usize;
            let key: u128 = get_u128(buf, at);
            let value_offset: u64 = get_u64(buf, at + 16);
            let value_len: u64 = get_u64(buf, at + 24);
            keys.push(LeafPageEntry { key, offset: value_offset, value_len });
            i += 1;
        }
        assert(keys@ =~= leaf_entries(buf@));
        if !Self::check_entries(&keys, bs) {
            return Err(Error::Format);
        }
        Ok(LeafPage { offset, keys })
    }

    /// The bytes of the header: tag, slot count, slots.
    fn header_buf(&self) -> (r: Vec<u8>)
        ensures
            r@ == leaf_header_bytes(self.keys@),
    {
        let n: usize = self.keys.len();
        let mut buf: Vec<u8> = Vec::new();
        buf.push(LEAF_TAG);
        put_u64(&mut buf, n as u64);
        let mut i: usize = 0;
        proof {
            assert(self.keys@.take(0) =~= Seq::<LeafPageEntry>::empty());
            assert(buf@ =~= seq![LEAF_TAG] + u64_to_be(n as u64) + entries_bytes(
                self.keys@.take(0),
            ));
        }
        while i < n
            invariant
                n == self.keys@.len(),
                0 <= i <= n,
                buf@ == seq![LEAF_TAG] + u64_to_be(n as u64) + entries_bytes(
                    self.keys@.take(i as int),
                ),
            decreases n - i,
        {
            let e: LeafPageEntry = self.keys[i];
            put_u128(&mut buf, e.key);
            put_u64(&mut buf, e.offset);
            put_u64(&mut buf, e.value_len);
            proof {
                let t = self.keys@.take(i + 1);
                assert(t.drop_last() =~= self.keys@.take(i as int));
                assert(t.last() == e);
                assert(buf@ =~= seq![LEAF_TAG] + u64_to_be(n as u64) + entries_bytes(t));
            }
            i += 1;
        }
        proof {
            assert(self.keys@.take(n as int) =~= self.keys@);
        }
        buf
    }

    /// Writes the header where the page starts.
    pub fn persist_header<D: Disk>(&self, disk: &mut D) -> (r: Result<(), Error>)
        ensures
            final(disk).reliable() == old(disk).reliable(),
            match r {
                Ok(()) => final(disk)@ == written(
                    old(disk)@,
                    self.offset as int,
                    leaf_header_bytes(self.keys@),
                ),
                Err(e) => write_failure(
                    old(disk),
                    e,
                    self.offset + slot_pos(self.keys@.len() as int),
                ),
            },
    {
        let buf = self.header_buf();
        proof {
            lemma_entries_bytes(self.keys@);
            lemma_u64_be_roundtrip(self.keys@.len() as u64);
        }
        match disk.write_all_at(self.offset, buf.as_slice()) {
            Ok(()) => Ok(()),
            Err(_) => Err(Error::Io),
        }
    }

    /// The index of the first slot for `key`.
    fn find(&self, key: Key) -> (r: Option<usize>)
        ensures
            match r {
                Some(i) => is_index_of(self.keys@, key, i as int),
                None => !has_key(self.keys@, key),
            },
    {
        let mut i: usize = 0;
        while i < self.keys.len()
            invariant
                0 <= i <= self.keys@.len(),
                forall|j: int| 0 <= j < i ==> (#[trigger] self.keys@[j]).key != key,
            decreases self.keys@.len() - i,
        {
            if self.keys[i].key == key {
                return Some(i);
            }
            i += 1;
        }
        None
    }

    /// The index at which a slot for `key` goes, by binary search.
    fn find_slot(&self, key: Key) -> (r: usize)
        requires
            entries_sorted(self.keys@),
        ensures
            is_slot_for(self.keys@, key, r as int),
            r == slot_for(self.keys@, key),
    {
        let mut lo: usize = 0;
        let mut hi: usize = self.keys.len();
        while lo < hi
            invariant
                entries_sorted(self.keys@),
                0 <= lo <= hi <= self.keys@.len(),
                forall|i: int| 0 <= i < lo ==> (#[trigger] self.keys@[i]).key < key,
                forall|i: int| hi <= i < self.keys@.len() ==> (#[trigger] self.keys@[i]).key >= key,
            decreases hi - lo,
        {
            let mid: usize = lo + (hi - lo) / 2;
            if self.keys[mid].key < key {
                assert forall|i: int| 0 <= i < mid + 1 implies (#[trigger] self.keys@[i]).key
                    < key by {
                    if i < mid {
                        assert(self.keys@[i].key < self.keys@[mid as int].key);
                    }
                }
                lo = mid + 1;
            } else {
                assert forall|i: int| mid <= i < self.keys@.len() implies (
                #[trigger] self.keys@[i]).key >= key by {
                    if i > mid {
                        assert(self.keys@[mid as int].key < self.keys@[i].key);
                    }
                }
                hi = mid;
            }
        }
        proof {
            lemma_slot_for(self.keys@, key, lo as int);
        }
        lo
    }

    /// Looks `key` up and, where the page has it, reads its value into
    /// `data` and returns its length. Without the key `data` is left as it
    /// was.
    pub fn lookup_value<D: Disk>(&self, key: Key, data: &mut Vec<u8>, disk: &mut D) -> (r:
        Result<Option<u64>, Error>)
        ensures
            final(disk).reliable() == old(disk).reliable(),
            final(disk)@ == old(disk)@,
            match r {
                Ok(Some(len)) => entries_value(
                    old(disk)@,
                    self.offset as int,
                    self.keys@,
                    key,
                ) == Some(final(data)@) && len
                    == final(data)@.len(),
                Ok(None) => !has_key(self.keys@, key) && final(data)@ == old(data)@,
                Err(Error::Format) => {
                    &&& has_key(self.keys@, key)
                    &&& !readable(
                        old(disk)@,
                        self.offset + self.keys@[index_of(self.keys@, key)].offset,
                        self.keys@[index_of(self.keys@, key)].value_len as int,
                    )
                },
                Err(e) => io_failure(old(disk), e),
            },
    {
        match self.lookup_value_alloc(key, disk) {
            Ok(Some(v)) => {
                let len: u64 = v.len() as u64;
                *data = v;
                Ok(Some(len))
            },
            Ok(None) => Ok(None),
            Err(e) => Err(e),
        }
    }

    /// Looks `key` up and, where the page has it, reads its value from the
    /// device. The device is left as it was. A value that does not lie on
    /// the device is a format error.
    pub fn lookup_value_alloc<D: Disk>(&self, key: Key, disk: &mut D) -> (r: Result<
        Option<Vec<u8>>,
        Error,
    >)
        ensures
            final(disk).reliable() == old(disk).reliable(),
            final(disk)@ == old(disk)@,
            match r {
                Ok(Some(v)) => entries_value(
                    old(disk)@,
                    self.offset as int,
                    self.keys@,
                    key,
                ) == Some(v@),
                Ok(None) => !has_key(self.keys@, key),
                Err(Error::Format) => {
                    &&& has_key(self.keys@, key)
                    &&& !readable(
                        old(disk)@,
                        self.offset + self.keys@[index_of(self.keys@, key)].offset,
                        self.keys@[index_of(self.keys@, key)].value_len as int,
                    )
                },
                Err(e) => io_failure(old(disk), e),
            },
    {
        let i: usize = match self.find(key) {
            Some(i) => i,
            None => {
                return Ok(None);
            },
        };
        proof {
            lemma_index_of(self.keys@, key, i as int);
        }
        let e: LeafPageEntry = self.keys[i];
        if e.offset > u64::MAX - self.offset || e.value_len > u64::MAX - self.offset - e.offset
            || e.value_len > usize::MAX as u64 {
            return Err(Error::Format);
        }
        match disk.read_exact_at(self.offset + e.offset, e.value_len as usize) {
            Ok(v) => Ok(Some(v)),
            Err(e) => Err(Error::from_disk(e)),
        }
    }

    /// Whether a value of `data_len` bytes and its slot fit into the page
    /// beside what it holds. An empty page accommodates everything.
    pub fn can_accommodate(&self, data_len: u64, page_size: u64) -> (r: bool)
        requires
            self.wf(page_size as int),
        ensures
            r == (self.keys@.len() == 0 || page_size - slot_pos(self.keys@.len() as int)
                - total_len(self.keys@) >= data_len + SLOT_LEN),
    {
        if self.keys.len() == 0 {
            return true;
        }
        proof {
            lemma_total_len_nonneg(self.keys@);
        }
        let space_taken_up: u64 = self.values_len();
        let space_in_page_for_data: u64 = page_size - self.header_len();
        let space_available: u64 = space_in_page_for_data - space_taken_up;
        data_len <= u64::MAX - LeafPageEntry::size_of_entry() && space_available >= data_len
            + LeafPageEntry::size_of_entry()
    }

    /// The sum of the value lengths.
    fn values_len(&self) -> (r: u64)
        requires
            total_len(self.keys@) <= u64::MAX,
        ensures
            r == total_len(self.keys@),
    {
        let n: usize = self.keys.len();
        let mut sum: u64 = 0;
        let mut i: usize = 0;
        proof {
            assert(self.keys@.take(0) =~= Seq::<LeafPageEntry>::empty());
        }
        while i < n
            invariant
                n == self.keys@.len(),
                0 <= i <= n,
                total_len(self.keys@) <= u64::MAX,
                sum == total_len(self.keys@.take(i as int)),
            decreases n - i,
        {
            proof {
                lemma_total_len_take(self.keys@, i as int);
                lemma_total_len_take(self.keys@, i + 1);
            }
            sum = sum + self.keys[i].value_len;
            i += 1;
        }
        proof {
            assert(self.keys@.take(n as int) =~= self.keys@);
        }
        sum
    }

    /// Where the values of the page start: the least value offset, or the
    /// page size where there is no value.
    fn values_start(&self, page_size: u64) -> (r: u64)
        ensures
            r == min_offset(self.keys@, page_size as int),
    {
        let n: usize = self.keys.len();
        let mut m: u64 = page_size;
        let mut i: usize = 0;
        proof {
            assert(self.keys@.take(0) =~= Seq::<LeafPageEntry>::empty());
        }
        while i < n
            invariant
                n == self.keys@.len(),
                0 <= i <= n,
                m == min_offset(self.keys@.take(i as int), page_size as int),
            decreases n - i,
        {
            proof {
                assert(self.keys@.take(i + 1).drop_last() =~= self.keys@.take(i as int));
            }
            if self.keys[i].offset < m {
                m = self.keys[i].offset;
            }
            i += 1;
        }
        proof {
            assert(self.keys@.take(n as int) =~= self.keys@);
        }
        m
    }

    /// Removes the slot for `key`, if there is one, and writes the header.
    /// The value's bytes stay where they are. Returns whether a slot was
    /// removed.
    pub fn delete_value<D: Disk>(&mut self, key: Key, disk: &mut D) -> (r: Result<
        bool,
        Error,
    >)
        ensures
            final(disk).reliable() == old(disk).reliable(),
            final(self).offset == old(self).offset,
            match r {
                Ok(true) => {
                    &&& has_key(old(self).keys@, key)
                    &&& final(self).keys@ == old(self).keys@.remove(
                        index_of(old(self).keys@, key),
                    )
                    &&& final(disk)@ == written(
                        old(disk)@,
                        old(self).offset as int,
                        leaf_header_bytes(final(self).keys@),
                    )
                },
                Ok(false) => {
                    &&& !has_key(old(self).keys@, key)
                    &&& final(self).keys@ == old(self).keys@
                    &&& final(disk)@ == old(disk)@
                },
                Err(e) => write_failure(
                    old(disk),
                    e,
                    old(self).offset + slot_pos(old(self).keys@.len() as int),
                ),
            },
    {
        let i: usize = match self.find(key) {
            Some(i) => i,
            None => {
                return Ok(false);
            },
        };
        proof {
            lemma_index_of(self.keys@, key, i as int);
        }
        self.keys.remove(i);
        match self.persist_header(disk) {
            Ok(()) => Ok(true),
            Err(e) => Err(e),
        }
    }

    /// Removes the slot of a key that the page has, and writes the header.
    fn delete_existing<D: Disk>(&mut self, key: Key, db: &mut Database<D>) -> (r: Result<(), Error>)
        requires
            old(db).inv(),
            old(self).fits(old(db)),
            has_key(old(self).keys@, key),
        ensures
            final(db).disk.reliable() == old(db).disk.reliable(),
            final(db).meta == old(db).meta,
            final(self).offset == old(self).offset,
            match r {
                Ok(()) => {
                    let bs = old(db).spec_block_size();
                    let off = old(self).offset as int;
                    &&& final(self).fits(final(db))
                    &&& final(self).keys@ == old(self).keys@.remove(
                        index_of(old(self).keys@, key),
                    )
                    &&& total_len(final(self).keys@) == total_len(old(self).keys@) - old(
                        self,
                    ).keys@[index_of(old(self).keys@, key)].value_len
                    &&& final(db).disk@.len() == old(db).disk@.len()
                    &&& kept_outside(old(db).disk@, final(db).disk@, off, off + bs)
                    &&& is_leaf(image(final(db).disk@, off, bs))
                    &&& leaf_entries(image(final(db).disk@, off, bs)) == final(self).keys@
                    &&& forall|k: Key|
                        #[trigger] entries_value(
                            final(db).disk@,
                            final(self).offset as int,
                            final(self).keys@,
                            k,
                        ) == if k == key {
                            None
                        } else {
                            entries_value(
                                old(db).disk@,
                                old(self).offset as int,
                                old(self).keys@,
                                k,
                            )
                        }
                },
                Err(e) => io_failure(&old(db).disk, e),
            },
    {
        proof {
            lemma_index_of_wf(self.keys@, db.spec_block_size(), key);
            lemma_remove_value(
                db.disk@,
                self.offset as int,
                db.spec_block_size(),
                self.keys@,
                index_of(self.keys@, key),
            );
        }
        match self.delete_value(key, &mut db.disk) {
            Ok(_) => Ok(()),
            Err(e) => Err(e),
        }
    }

    /// Removes the slot for `key`, if the page has one, and writes the
    /// header. Returns whether a slot was removed. Every other key keeps
    /// its value.
    pub(crate) fn delete_stored<D: Disk>(&mut self, key: Key, db: &mut Database<D>) -> (r: Result<
        bool,
        Error,
    >)
        requires
            old(db).inv(),
            old(self).fits(old(db)),
        ensures
            final(db).disk.reliable() == old(db).disk.reliable(),
            final(db).meta == old(db).meta,
            final(self).offset == old(self).offset,
            match r {
                Ok(found) => {
                    let bs = old(db).spec_block_size();
                    let off = old(self).offset as int;
                    &&& found == has_key(old(self).keys@, key)
                    &&& final(self).fits(final(db))
                    &&& !found ==> final(self).keys@ == old(self).keys@ && final(db).disk@ == old(
                        db,
                    ).disk@
                    &&& found ==> is_leaf(image(final(db).disk@, off, bs)) && leaf_entries(
                        image(final(db).disk@, off, bs),
                    ) == final(self).keys@
                    &&& final(db).disk@.len() == old(db).disk@.len()
                    &&& kept_outside(old(db).disk@, final(db).disk@, off, off + bs)
                    &&& forall|k: Key|
                        #[trigger] entries_value(
                            final(db).disk@,
                            final(self).offset as int,
                            final(self).keys@,
                            k,
                        ) == if k == key {
                            None
                        } else {
                            entries_value(
                                old(db).disk@,
                                old(self).offset as int,
                                old(self).keys@,
                                k,
                            )
                        }
                },
                Err(e) => io_failure(&old(db).disk, e),
            },
    {
        match self.find(key) {
            None => {
                proof {
                    lemma_kept_outside_refl(
                        db.disk@,
                        self.offset as int,
                        self.offset + db.spec_block_size(),
                    );
                }
                Ok(false)
            },
            Some(i) => {
                proof {
                    lemma_index_of(self.keys@, key, i as int);
                }
                match self.delete_existing(key, db) {
                    Ok(()) => Ok(true),
                    Err(e) => Err(e),
                }
            },
        }
    }

    /// Places a value below the values of the page, puts its slot into the
    /// directory and writes the header. The key must be new, and there must
    /// be room between the header and the values.
    fn quick_insert<D: Disk>(
        &mut self,
        key: Key,
        data: &[u8],
        db: &mut Database<D>,
        end_offset: Option<u64>,
    ) -> (r: Result<(), Error>)
        requires
            old(db).inv(),
            old(self).wf(old(db).spec_block_size()),
            old(self).offset + old(db).spec_block_size() <= old(db).disk@.len(),
            !has_key(old(self).keys@, key),
            slot_pos(old(self).keys@.len() as int + 1) + total_len(old(self).keys@) + data@.len() <= old(
                db,
            ).spec_block_size(),
            slot_pos(old(self).keys@.len() as int + 1) + data@.len() <= min_offset(
                old(self).keys@,
                old(db).spec_block_size(),
            ),
            end_offset matches Some(e) ==> e == min_offset(
                old(self).keys@,
                old(db).spec_block_size(),
            ),
        ensures
            final(db).disk.reliable() == old(db).disk.reliable(),
            final(db).meta == old(db).meta,
            final(self).offset == old(self).offset,
            match r {
                Ok(()) => {
                    let bs = old(db).spec_block_size();
                    let off = old(self).offset as int;
                    let e = LeafPageEntry {
                        key,
                        offset: (min_offset(old(self).keys@, bs) - data@.len()) as u64,
                        value_len: data@.len() as u64,
                    };
                    &&& final(self).keys@ == old(self).keys@.insert(
                        slot_for(old(self).keys@, key),
                        e,
                    )
                    &&& 0 <= slot_for(old(self).keys@, key) <= old(self).keys@.len()
                    &&& final(self).wf(bs)
                    &&& min_offset(final(self).keys@, bs) == e.offset
                    &&& total_len(final(self).keys@) == total_len(old(self).keys@) + data@.len()
                    &&& final(db).disk@.len() == old(db).disk@.len()
                    &&& kept_outside(old(db).disk@, final(db).disk@, off, off + bs)
                    &&& is_leaf(image(final(db).disk@, off, bs))
                    &&& leaf_entries(image(final(db).disk@, off, bs)) == final(self).keys@
                    &&& forall|k: Key|
                        #[trigger] entries_value(
                            final(db).disk@,
                            final(self).offset as int,
                            final(self).keys@,
                            k,
                        ) == if k == key {
                            Some(data@)
                        } else {
                            entries_value(
                                old(db).disk@,
                                old(self).offset as int,
                                old(self).keys@,
                                k,
                            )
                        }
                },
                Err(e) => io_failure(&old(db).disk, e),
            },
    {
        let page_size: u64 = db.block_size();
        let end_offset: u64 = match end_offset {
            Some(e) => e,
            None => self.values_start(page_size),
        };
        let len: u64 = data.len() as u64;
        let entry = LeafPageEntry { offset: end_offset - len, key, value_len: len };
        let ghost s = self.keys@;
        let ghost d = db.disk@;
        let ghost bs = page_size as int;
        let ghost off = self.offset as int;
        proof {
            lemma_min_offset(s, bs, slot_pos(s.len() as int));
            lemma_total_len_nonneg(s);
        }
        match db.disk.write_all_at(self.offset + entry.offset, data) {
            Ok(()) => {},
            Err(_) => {
                return Err(Error::Io);
            },
        }
        let idx: usize = self.find_slot(key);
        self.keys.insert(idx, entry);
        proof {
            let s2 = s.insert(idx as int, entry);
            lemma_insert_sorted(s, idx as int, entry);
            lemma_total_len_insert(s, idx as int, entry);
            lemma_min_offset_insert(s, bs, idx as int, entry);
            assert forall|i: int| 0 <= i < s2.len() implies slot_pos(s2.len() as int) <= (
            #[trigger] s2[i]).offset && s2[i].offset + s2[i].value_len <= bs by {
                if i < idx {
                    assert(s2[i] == s[i]);
                } else if i > idx {
                    assert(s2[i] == s[i - 1]);
                }
            }
            assert(entries_wf(s2, bs));
            lemma_place_value(d, off, bs, s, idx as int, entry, data@);
        }
        match self.persist_header(&mut db.disk) {
            Ok(()) => Ok(()),
            Err(e) => Err(e),
        }
    }

    /// Reads every value of the page, in the order of the directory.
    fn read_values<D: Disk>(&self, db: &mut Database<D>) -> (r: Result<Vec<Vec<u8>>, Error>)
        requires
            old(db).inv(),
            self.fits(old(db)),
        ensures
            final(db).disk.reliable() == old(db).disk.reliable(),
            final(db).disk@ == old(db).disk@,
            final(db).meta == old(db).meta,
            match r {
                Ok(values) => {
                    &&& values@.len() == self.keys@.len()
                    &&& forall|j: int|
                        0 <= j < values@.len() ==> entries_value(
                            old(db).disk@,
                            self.offset as int,
                            self.keys@,
                            self.keys@[j].key,
                        ) == Some((#[trigger] values@[j])@)
                    &&& forall|j: int|
                        0 <= j < values@.len() ==> (#[trigger] values@[j])@.len()
                            == self.keys@[j].value_len
                },
                Err(e) => io_failure(&old(db).disk, e),
            },
    {
        let n: usize = self.keys.len();
        let mut values: Vec<Vec<u8>> = Vec::new();
        let mut i: usize = 0;
        while i < n
            invariant
                db.disk.reliable() == old(db).disk.reliable(),
                db.disk@ == old(db).disk@,
                db.meta == old(db).meta,
                db.inv(),
                self.fits(db),
                n == self.keys@.len(),
                0 <= i <= n,
                values@.len() == i,
                forall|j: int|
                    0 <= j < i ==> entries_value(
                        db.disk@,
                        self.offset as int,
                        self.keys@,
                        self.keys@[j].key,
                    ) == Some(
                        (#[trigger] values@[j])@,
                    ),
                forall|j: int|
                    0 <= j < i ==> (#[trigger] values@[j])@.len() == self.keys@[j].value_len,
            decreases n - i,
        {
            let key: Key = self.keys[i].key;
            proof {
                lemma_index_of_sorted(self.keys@, i as int);
            }
            let v = match self.lookup_value_alloc(key, &mut db.disk) {
                Ok(Some(v)) => v,
                Ok(None) => {
                    return Err(Error::InvariantViolation);
                },
                Err(e) => {
                    return Err(e);
                },
            };
            values.push(v);
            i += 1;
        }
        Ok(values)
    }

    /// Packs the values against the end of the page, in the order of the
    /// directory, so that the room between header and values is in one
    /// piece. Every key keeps its value.
    fn defragment<D: Disk>(&mut self, db: &mut Database<D>) -> (r: Result<(), Error>)
        requires
            old(db).inv(),
            old(self).fits(old(db)),
        ensures
            final(db).disk.reliable() == old(db).disk.reliable(),
            final(db).meta == old(db).meta,
            final(self).offset == old(self).offset,
            match r {
                Ok(()) => {
                    let bs = old(db).spec_block_size();
                    let off = old(self).offset as int;
                    &&& final(self).wf(bs)
                    &&& final(self).keys@ == packed(old(self).keys@, bs)
                    &&& total_len(final(self).keys@) == total_len(old(self).keys@)
                    &&& min_offset(final(self).keys@, bs) == bs - total_len(final(self).keys@)
                    &&& final(db).disk@.len() == old(db).disk@.len()
                    &&& kept_outside(old(db).disk@, final(db).disk@, off, off + bs)
                    &&& forall|k: Key|
                        #[trigger] entries_value(
                            final(db).disk@,
                            final(self).offset as int,
                            final(self).keys@,
                            k,
                        ) == entries_value(
                            old(db).disk@,
                            old(self).offset as int,
                            old(self).keys@,
                            k,
                        )
                },
                Err(e) => io_failure(&old(db).disk, e),
            },
    {
        let values = match self.read_values(db) {
            Ok(values) => values,
            Err(e) => {
                return Err(e);
            },
        };
        let mut entries: Vec<LeafPageEntry> = Vec::new();
        std::mem::swap(&mut self.keys, &mut entries);
        let n: usize = entries.len();
        let ghost bs = db.spec_block_size();
        let ghost off = self.offset as int;
        let ghost d0 = db.disk@;
        let ghost page0 = *old(self);
        let mut i: usize = 0;
        proof {
            assert(entries@.take(0) =~= Seq::<LeafPageEntry>::empty());
            assert(self.keys@ =~= packed(entries@, bs).take(0));
            lemma_total_len_nonneg(entries@);
            assert(kept_outside(d0, d0, off, off + bs)) by {
                reveal(kept_outside);
            }
        }
        while i < n
            invariant
                db.disk.reliable() == old(db).disk.reliable(),
                db.inv(),
                db.meta == old(db).meta,
                bs == db.spec_block_size(),
                self.offset == off,
                old(self).offset == off,
                off + bs <= d0.len(),
                page0.offset == off,
                page0.keys@ == entries@,
                entries_wf(entries@, bs),
                n == entries@.len(),
                values@.len() == n,
                forall|j: int|
                    0 <= j < n ==> entries_value(
                        d0,
                        page0.offset as int,
                        page0.keys@,
                        entries@[j].key,
                    ) == Some(
                        (#[trigger] values@[j])@,
                    ),
                forall|j: int| 0 <= j < n ==> (#[trigger] values@[j])@.len() == entries@[j].value_len,
                0 <= i <= n,
                self.wf(bs),
                self.keys@.len() == i,
                self.keys@ == packed(entries@, bs).take(i as int),
                total_len(self.keys@) == total_len(entries@.take(i as int)),
                min_offset(self.keys@, bs) == bs - total_len(self.keys@),
                db.disk@.len() == d0.len(),
                kept_outside(d0, db.disk@, off, off + bs),
                forall|j: int|
                    0 <= j < i ==> entries_value(
                        db.disk@,
                        self.offset as int,
                        self.keys@,
                        entries@[j].key,
                    ) == Some(
                        (#[trigger] values@[j])@,
                    ),
            decreases n - i,
        {
            let key: Key = entries[i].key;
            let ghost s = self.keys@;
            let ghost d = db.disk@;
            let ghost page = *self;
            proof {
                lemma_total_len_take(entries@, i as int);
                lemma_total_len_take(entries@, i + 1);
                assert(slot_pos(i + 1) <= slot_pos(n as int)) by (nonlinear_arith)
                    requires
                        i + 1 <= n,
                ;
                if has_key(s, key) {
                    let j = choose|j: int| 0 <= j < s.len() && (#[trigger] s[j]).key == key;
                    assert(entries@[j].key < entries@[i as int].key);
                }
                assert(is_slot_for(s, key, i as int)) by {
                    assert forall|j: int| 0 <= j < i implies (#[trigger] s[j]).key < key by {
                        assert(entries@[j].key < entries@[i as int].key);
                    }
                }
                lemma_slot_for(s, key, i as int);
            }
            match self.quick_insert(key, values[i].as_slice(), db, None) {
                Ok(()) => {},
                Err(e) => {
                    return Err(e);
                },
            }
            proof {
                lemma_kept_outside_trans(d0, d, db.disk@, off, off + bs);
                assert(self.keys@ =~= packed(entries@, bs).take(i + 1));
                assert forall|j: int| 0 <= j < i + 1 implies entries_value(
                    db.disk@,
                    self.offset as int,
                    self.keys@,
                    entries@[j].key,
                ) == Some((#[trigger] values@[j])@) by {
                    if j < i {
                        assert(entries@[j].key < entries@[i as int].key);
                        assert(
                            entries_value(
                                d,
                                page.offset as int,
                                page.keys@,
                                entries@[j].key,
                            ) == Some(values@[j]@)
                        );
                    }
                }
            }
            i += 1;
        }
        proof {
            assert(entries@.take(n as int) =~= entries@);
            assert(packed(entries@, bs).take(n as int) =~= packed(entries@, bs));
            assert forall|k: Key| #[trigger]
                entries_value(
                    db.disk@,
                    self.offset as int,
                    self.keys@,
                    k,
                ) == entries_value(d0, page0.offset as int, page0.keys@, k) by {
                if has_key(entries@, k) {
                    let j = choose|j: int| 0 <= j < n && (#[trigger] entries@[j]).key == k;
                    assert(
                        entries_value(
                            db.disk@,
                            self.offset as int,
                            self.keys@,
                            entries@[j].key,
                        ) == Some(values@[j]@)
                    );
                } else if has_key(self.keys@, k) {
                    let j = choose|j: int| 0 <= j < n && (#[trigger] self.keys@[j]).key == k;
                    assert(entries@[j].key == k);
                }
            }
        }
        Ok(())
    }

    /// Gives a key that the page does not have the value `data`, which
    /// fits: defragments the page where the room between header and values
    /// is too small, and places the value.
    fn insert_new<D: Disk>(&mut self, key: Key, data: &[u8], db: &mut Database<D>) -> (r: Result<
        (),
        Error,
    >)
        requires
            old(db).inv(),
            old(self).fits(old(db)),
            !has_key(old(self).keys@, key),
            slot_pos(old(self).keys@.len() as int + 1) + total_len(old(self).keys@) + data@.len()
                <= old(db).spec_block_size(),
        ensures
            final(db).disk.reliable() == old(db).disk.reliable(),
            final(db).meta == old(db).meta,
            final(self).offset == old(self).offset,
            match r {
                Ok(()) => {
                    let bs = old(db).spec_block_size();
                    let off = old(self).offset as int;
                    &&& final(self).fits(final(db))
                    &&& final(self).keys@ == inserted(old(self).keys@, key, data@.len() as int, bs)
                    &&& final(self).keys@.len() == old(self).keys@.len() + 1
                    &&& total_len(final(self).keys@) == total_len(old(self).keys@) + data@.len()
                    &&& final(db).disk@.len() == old(db).disk@.len()
                    &&& kept_outside(old(db).disk@, final(db).disk@, off, off + bs)
                    &&& is_leaf(image(final(db).disk@, off, bs))
                    &&& leaf_entries(image(final(db).disk@, off, bs)) == final(self).keys@
                    &&& forall|k: Key|
                        #[trigger] entries_value(
                            final(db).disk@,
                            final(self).offset as int,
                            final(self).keys@,
                            k,
                        ) == if k == key {
                            Some(data@)
                        } else {
                            entries_value(
                                old(db).disk@,
                                old(self).offset as int,
                                old(self).keys@,
                                k,
                            )
                        }
                },
                Err(e) => io_failure(&old(db).disk, e),
            },
    {
        let page_size: u64 = db.block_size();
        let ghost bs = page_size as int;
        let ghost off = self.offset as int;
        let ghost d1 = db.disk@;
        let ghost page1 = *self;
        let len: u64 = data.len() as u64;
        proof {
            lemma_min_offset(self.keys@, bs, slot_pos(self.keys@.len() as int));
            lemma_total_len_nonneg(self.keys@);
        }
        let mut end_offset: u64 = self.values_start(page_size);
        let start_offset: u64 = self.header_len() + LeafPageEntry::size_of_entry();
        if start_offset > end_offset || end_offset - start_offset < len {
            match self.defragment(db) {
                Ok(()) => {},
                Err(e) => {
                    return Err(e);
                },
            }
            end_offset = self.values_start(page_size);
        }
        let ghost d2 = db.disk@;
        let ghost page2 = *self;
        proof {
            assert(!has_key(page2.keys@, key)) by {
                assert(
                    entries_value(
                        d2,
                        page2.offset as int,
                        page2.keys@,
                        key,
                    ) == entries_value(d1, page1.offset as int, page1.keys@, key)
                );
            }
        }
        match self.quick_insert(key, data, db, Some(end_offset)) {
            Ok(()) => {
                proof {
                    let d3 = db.disk@;
                    let page3 = *self;
                    if d2 == d1 {
                        lemma_kept_outside_refl(d1, off, off + bs);
                    }
                    lemma_kept_outside_trans(d1, d2, d3, off, off + bs);
                    assert forall|k: Key| #[trigger]
                        entries_value(d3, page3.offset as int, page3.keys@, k) == if k == key {
                            Some(data@)
                        } else {
                            entries_value(d1, page1.offset as int, page1.keys@, k)
                        } by {
                        assert(
                            entries_value(
                                d2,
                                page2.offset as int,
                                page2.keys@,
                                k,
                            ) == entries_value(d1, page1.offset as int, page1.keys@, k)
                        );
                    }
                }
                Ok(())
            },
            Err(e) => Err(e),
        }
    }

    /// Gives `key` the value `data`, in place of the one it has, if any.
    /// Where the room between header and values is too small, the page is
    /// defragmented first. A value that does not fit beside the others is a
    /// capacity error, and the page is left as it was.
    pub fn upsert_value<D: Disk>(&mut self, key: Key, data: &[u8], db: &mut Database<D>) -> (r:
        Result<(), Error>)
        requires
            old(db).inv(),
            old(self).fits(old(db)),
        ensures
            final(db).disk.reliable() == old(db).disk.reliable(),
            final(db).meta == old(db).meta,
            final(self).offset == old(self).offset,
            match r {
                Ok(()) => {
                    let bs = old(db).spec_block_size();
                    let off = old(self).offset as int;
                    &&& upsert_fits(old(self).keys@, key, data@.len() as int, bs)
                    &&& final(self).fits(final(db))
                    &&& final(self).keys@ == upserted(old(self).keys@, key, data@.len() as int, bs)
                    &&& final(self).keys@.len() == old(self).keys@.len() + (if has_key(
                        old(self).keys@,
                        key,
                    ) {
                        0int
                    } else {
                        1int
                    })
                    &&& total_len(final(self).keys@) == total_len(old(self).keys@) + data@.len() - (
                    if has_key(old(self).keys@, key) {
                        old(self).keys@[index_of(old(self).keys@, key)].value_len as int
                    } else {
                        0int
                    })
                    &&& final(db).disk@.len() == old(db).disk@.len()
                    &&& kept_outside(old(db).disk@, final(db).disk@, off, off + bs)
                    &&& is_leaf(image(final(db).disk@, off, bs))
                    &&& leaf_entries(image(final(db).disk@, off, bs)) == final(self).keys@
                    &&& forall|k: Key|
                        #[trigger] entries_value(
                            final(db).disk@,
                            final(self).offset as int,
                            final(self).keys@,
                            k,
                        ) == if k == key {
                            Some(data@)
                        } else {
                            entries_value(
                                old(db).disk@,
                                old(self).offset as int,
                                old(self).keys@,
                                k,
                            )
                        }
                },
                Err(Error::Capacity) => {
                    &&& !upsert_fits(
                        old(self).keys@,
                        key,
                        data@.len() as int,
                        old(db).spec_block_size(),
                    )
                    &&& final(self).keys@ == old(self).keys@
                    &&& final(db).disk@ == old(db).disk@
                },
                Err(e) => io_failure(&old(db).disk, e),
            },
    {
        let page_size: u64 = db.block_size();
        let ghost s = self.keys@;
        proof {
            lemma_total_len_nonneg(s);
        }
        let n: usize = self.keys.len();
        let total: u64 = self.values_len();
        let existing: Option<usize> = self.find(key);
        let slots: u64;
        let others: u64;
        match existing {
            Some(i) => {
                proof {
                    lemma_index_of(s, key, i as int);
                    lemma_total_len_remove(s, i as int);
                    lemma_total_len_nonneg(s.remove(i as int));
                }
                slots = n as u64;
                others = total - self.keys[i].value_len;
            },
            None => {
                slots = n as u64 + 1;
                others = total;
            },
        }
        if data.len() > page_size as usize {
            return Err(Error::Capacity);
        }
        let len: u64 = data.len() as u64;
        if PAGE_HEADER_LEN + SLOT_LEN * slots + others > page_size - len {
            return Err(Error::Capacity);
        }
        let ghost d = db.disk@;
        let ghost off = self.offset as int;
        if existing.is_some() {
            match self.delete_existing(key, db) {
                Ok(()) => {},
                Err(e) => {
                    return Err(e);
                },
            }
        }
        let ghost d1 = db.disk@;
        let r = self.insert_new(key, data, db);
        proof {
            if r is Ok {
                if d1 == d {
                    lemma_kept_outside_refl(d, off, off + page_size);
                }
                lemma_kept_outside_trans(d, d1, db.disk@, off, off + page_size);
            }
        }
        r
    }

    /// Allocates a block and makes it an empty leaf: a page of zeros behind
    /// the tag. Where the device is full nothing is changed.
    pub fn init<D: Disk>(db: &mut Database<D>) -> (r: Result<LeafPage, Error>)
        requires
            old(db).inv(),
        ensures
            final(db).disk.reliable() == old(db).disk.reliable(),
            final(db).inv(),
            final(db).meta.block_size_exp == old(db).meta.block_size_exp,
            final(db).meta.root_btree_offset == old(db).meta.root_btree_offset,
            final(db).meta.num_blocks_allocated >= old(db).meta.num_blocks_allocated,
            match r {
                Ok(page) => {
                    let bs = old(db).spec_block_size();
                    let off = old(db).spec_end();
                    &&& page.offset == off
                    &&& page.keys@.len() == 0
                    &&& page.in_store(final(db))
                    &&& final(db).meta == DatabaseMeta {
                        num_blocks_allocated: (old(db).meta.num_blocks_allocated + 1) as u64,
                        ..old(db).meta
                    }
                    &&& final(db).spec_end() == off + bs
                    &&& final(db).synced()
                    &&& kept_below(old(db).disk@, final(db).disk@, off, off, off)
                    &&& is_leaf(image(final(db).disk@, off, bs))
                    &&& leaf_entries(image(final(db).disk@, off, bs)) == page.keys@
                },
                Err(Error::Capacity) => {
                    &&& old(db).spec_end() + old(db).spec_block_size() > max_device_size()
                    &&& final(db).meta == old(db).meta
                    &&& final(db).disk@ == old(db).disk@
                },
                Err(e) => io_failure(&old(db).disk, e),
            },
    {
        let page_size: u64 = db.block_size();
        let ghost d = db.disk@;
        proof {
            lemma_end_bounds(db.meta);
        }
        let offset: u64 = match db.allocate_block() {
            Ok(offset) => offset,
            Err(e) => {
                return Err(e);
            },
        };
        let ghost d1 = db.disk@;
        // the page is written whole, so that it lies on the device
        let mut buf: Vec<u8> = vec![0u8; page_size as usize];
        buf[0] = LEAF_TAG;
        match db.write(offset, buf.as_slice()) {
            Ok(()) => {},
            Err(e) => {
                return Err(e);
            },
        }
        proof {
            let d2 = db.disk@;
            let bs = page_size as int;
            let off = offset as int;
            lemma_header_written(d, db.meta);
            lemma_written(d1, off, buf@);
            lemma_written_inside(d1, off, buf@);
            lemma_written_outside(d1, off, buf@, 0, HEADER_LEN as int);
            lemma_header_kept(d1, d2);
            reveal(kept_below);
            let img = image(d2, off, bs);
            assert(img =~= buf@);
            lemma_u64_from_be_zero(img.subrange(1, 9));
            assert(u64_at(img, 1) == 0);
            assert(leaf_entries(img) =~= Seq::<LeafPageEntry>::empty());
            assert(kept_below(d, d2, off, off, off));
        }
        Ok(LeafPage { offset, keys: Vec::new() })
    }
}

} // verus!
