//! Pages: one block each, typed by its first byte.

pub mod btree;
pub mod btree_delete;
pub mod btree_insert;
pub mod delete_steps;
pub mod frame;
pub mod insert_steps;
pub mod internal_page;
pub mod internal_spec;
pub mod keys;
pub mod leaf_page;
pub mod leaf_spec;
pub mod leaf_split;
pub mod room;
pub mod shape;
pub mod split_steps;
pub mod steps;

use crate::bytes::u128_from_be;
use crate::bytes::u64_from_be;
use crate::database::Database;
use crate::database::max_device_size;
use crate::disk::Disk;
use crate::error::Error;
use crate::error::io_failure;
use crate::page::internal_page::InternalPage;
use crate::page::internal_spec::is_internal;
use crate::page::internal_spec::max_children;
use crate::page::leaf_page::LeafPage;
use crate::page::leaf_page::SLOT_LEN;
use crate::page::leaf_spec::is_leaf;
use crate::page::leaf_spec::slot_pos;
use crate::page::leaf_spec::total_len;
use vstd::prelude::*;

verus! {

/// The offset of a page on the device, or of a value within its page.
pub type PageOffset = u64;

/// The first byte of a leaf page.
pub const LEAF_TAG: u8 = 0x01;

/// The first byte of an internal page.
pub const INTERNAL_TAG: u8 = 0x02;

/// The bytes before a page's directory: the tag and a count.
pub const PAGE_HEADER_LEN: u64 = 9;

/// The `u64` that starts at `at`.
pub open spec fn u64_at(d: Seq<u8>, at: int) -> u64 {
    u64_from_be(d.subrange(at, at + 8))
}

/// The `u128` that starts at `at`.
pub open spec fn u128_at(d: Seq<u8>, at: int) -> u128 {
    u128_from_be(d.subrange(at, at + 16))
}

/// The block of `bs` bytes at `off`, as a page reads it.
pub open spec fn image(d: Seq<u8>, off: int, bs: int) -> Seq<u8>
    recommends
        0 <= off,
        0 <= bs,
        off + bs <= d.len(),
{
    d.subrange(off, off + bs)
}

/// A page in memory.
pub enum Page {
    Internal(InternalPage),
    Leaf(LeafPage),
}

impl Page {
    /// The page is what a device that holds `d` has at `off`, in a block of
    /// `bs` bytes: a valid page, held in memory as the block spells it.
    pub open spec fn reads(&self, d: Seq<u8>, off: int, bs: int) -> bool {
        match self {
            Page::Leaf(page) => page.offset == off && page.reads(d, bs),
            Page::Internal(page) => page.offset == off && page.reads(d, bs),
        }
    }

    /// The page can take part in an insert into `db`: a leaf lies on the
    /// device, an internal page has room for one more child.
    pub open spec fn usable<D: Disk>(&self, db: &Database<D>) -> bool {
        match self {
            Page::Leaf(page) => page.fits(db),
            Page::Internal(page) => page.wf(db.spec_block_size()) && page.pointers@.len()
                < max_children(db.spec_block_size()),
        }
    }

    /// The offset of the page on the device.
    pub open spec fn spec_offset(&self) -> int {
        match self {
            Page::Leaf(page) => page.offset as int,
            Page::Internal(page) => page.offset as int,
        }
    }

    /// Reads the page at `offset`: one block, a leaf or an internal page by
    /// its first byte. The device is left as it was. A block that lies
    /// beyond the device or holds no valid page is a format error.
    pub fn load<D: Disk>(offset: u64, db: &mut Database<D>) -> (r: Result<Page, Error>)
        requires
            old(db).inv(),
        ensures
            final(db).disk.reliable() == old(db).disk.reliable(),
            final(db).disk@ == old(db).disk@,
            final(db).meta == old(db).meta,
            match r {
                Ok(page) => page.reads(old(db).disk@, offset as int, old(db).spec_block_size()),
                Err(Error::Format) => {
                    let bs = old(db).spec_block_size();
                    ||| offset + bs > old(db).disk@.len()
                    ||| offset + bs > max_device_size()
                    ||| (!is_leaf(image(old(db).disk@, offset as int, bs)) && !is_internal(
                        image(old(db).disk@, offset as int, bs),
                    ))
                },
                Err(e) => io_failure(&old(db).disk, e),
            },
    {
        let page_size: u64 = db.block_size();
        if offset > max_device_size() - page_size {
            return Err(Error::Format);
        }
        let buf = match db.disk.read_exact_at(offset, page_size as usize) {
            Ok(buf) => buf,
            Err(e) => {
                return Err(Error::from_disk(e));
            },
        };
        let tag: u8 = buf[0];
        if tag == LEAF_TAG {
            match LeafPage::read_header(offset, buf.as_slice()) {
                Ok(page) => Ok(Page::Leaf(page)),
                Err(e) => Err(e),
            }
        } else if tag == INTERNAL_TAG {
            match InternalPage::load(offset, buf.as_slice()) {
                Ok(page) => Ok(Page::Internal(page)),
                Err(e) => Err(e),
            }
        } else {
            Err(Error::Format)
        }
    }

    /// Whether the page can take what an insert may bring it: a leaf, a
    /// value of `data_len` bytes with its slot; an internal page, one more
    /// child.
    pub fn can_accommodate(&self, data_len: u64, page_size: u64) -> (r: bool)
        requires
            match self {
                Page::Leaf(page) => page.wf(page_size as int),
                Page::Internal(page) => page.wf(page_size as int),
            },
        ensures
            r == match self {
                Page::Leaf(page) => page.keys@.len() == 0 || page_size - slot_pos(
                    page.keys@.len() as int,
                ) - total_len(page.keys@) >= data_len + SLOT_LEN,
                Page::Internal(page) => page.pointers@.len() < max_children(page_size as int),
            },
    {
        match self {
            Page::Internal(internal) => internal.can_accommodate(page_size),
            Page::Leaf(leaf) => leaf.can_accommodate(data_len, page_size),
        }
    }
}

} // verus!
