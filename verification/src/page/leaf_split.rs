//! Splitting a leaf in two.

use crate::database::Database;
use crate::database::DatabaseMeta;
use crate::database::lemma_end_bounds;
use crate::database::max_device_size;
use crate::disk::Disk;
use crate::error::Error;
use crate::error::io_failure;
use crate::key::Key;
use crate::page::frame::kept_below;
use crate::page::frame::kept_outside;
use crate::page::frame::lemma_kept_outside_trans;
use crate::page::frame::lemma_kept_subrange;
use crate::page::image;
use crate::page::leaf_page::LeafPage;
use crate::page::leaf_page::LeafPageEntry;
use crate::page::leaf_spec::entries_value;
use crate::page::leaf_spec::has_key;
use crate::page::leaf_spec::is_leaf;
use crate::page::leaf_spec::leaf_entries;
use crate::page::leaf_spec::lemma_packed_step;
use crate::page::leaf_spec::lemma_split_done;
use crate::page::leaf_spec::lemma_sub_directory_step;
use crate::page::leaf_spec::min_offset;
use crate::page::leaf_spec::packed;
use crate::page::leaf_spec::total_len;
use vstd::prelude::*;

verus! {

impl LeafPage {
    /// Gives this page, which is empty, every value of `source` from slot
    /// `from` on. `source` and its page are left as they were.
    fn take_from<D: Disk>(
        &mut self,
        source: &LeafPage,
        from: usize,
        db: &mut Database<D>,
    ) -> (r:
        Result<(), Error>)
        requires
            old(db).inv(),
            source.in_store(old(db)),
            old(self).fits(old(db)),
            old(self).keys@.len() == 0,
            from <= source.keys@.len(),
            source.offset + old(db).spec_block_size() <= old(self).offset,
            is_leaf(image(old(db).disk@, old(self).offset as int, old(db).spec_block_size())),
            leaf_entries(
                image(old(db).disk@, old(self).offset as int, old(db).spec_block_size()),
            ) == old(self).keys@,
        ensures
            final(db).disk.reliable() == old(db).disk.reliable(),
            final(db).meta == old(db).meta,
            final(self).offset == old(self).offset,
            match r {
                Ok(()) => {
                    let bs = old(db).spec_block_size();
                    let off = old(self).offset as int;
                    &&& final(self).fits(final(db))
                    &&& final(self).keys@ == packed(source.keys@.skip(from as int), bs)
                    &&& final(db).disk@.len() == old(db).disk@.len()
                    &&& kept_outside(old(db).disk@, final(db).disk@, off, off + bs)
                    &&& is_leaf(image(final(db).disk@, off, bs))
                    &&& leaf_entries(image(final(db).disk@, off, bs)) == final(self).keys@
                    &&& forall|k: Key|
                        #[trigger] entries_value(
                            final(db).disk@,
                            final(self).offset as int,
                            final(self).keys@,
                            k,
                        ) == if has_key(
                            source.keys@.skip(from as int),
                            k,
                        ) {
                            entries_value(old(db).disk@, source.offset as int, source.keys@, k)
                        } else {
                            None
                        }
                },
                Err(e) => io_failure(&old(db).disk, e),
            },
    {
        let n: usize = source.keys.len();
        let ghost bs = db.spec_block_size();
        let ghost off = self.offset as int;
        let ghost d = db.disk@;
        let ghost s = source.keys@;
        let mut buf: Vec<u8> = Vec::new();
        let mut j: usize = from;
        proof {
            assert(s.subrange(from as int, from as int) =~= Seq::<LeafPageEntry>::empty());
            assert(self.keys@ =~= packed(s.skip(from as int), bs).take(0));
            assert(kept_outside(d, d, off, off + bs)) by {
                reveal(kept_outside);
            }
            assert forall|k: Key| !has_key(s.subrange(from as int, from as int), k) by {}
            assert forall|k: Key| #[trigger] entries_value(
                d,
                self.offset as int,
                self.keys@,
                k,
            ) == None::<Seq<u8>> by {}
        }
        while j < n
            invariant
                db.disk.reliable() == old(db).disk.reliable(),
                db.inv(),
                db.meta == old(db).meta,
                bs == db.spec_block_size(),
                source.in_store(db),
                s == source.keys@,
                n == s.len(),
                self.offset == off,
                old(self).offset == off,
                source.offset + bs <= off,
                self.fits(db),
                from <= j <= n,
                db.disk@.len() == d.len(),
                kept_outside(d, db.disk@, off, off + bs),
                is_leaf(image(db.disk@, off, bs)),
                leaf_entries(image(db.disk@, off, bs)) == self.keys@,
                self.keys@ == packed(s.skip(from as int), bs).take(j - from),
                min_offset(self.keys@, bs) == bs - total_len(self.keys@),
                total_len(self.keys@) == total_len(s.subrange(from as int, j as int)),
                forall|k: Key|
                    #[trigger] entries_value(
                        db.disk@,
                        self.offset as int,
                        self.keys@,
                        k,
                    ) == if has_key(
                        s.subrange(from as int, j as int),
                        k,
                    ) {
                        entries_value(d, source.offset as int, source.keys@, k)
                    } else {
                        None
                    },
            decreases n - j,
        {
            let key: Key = source.keys[j].key;
            let ghost dj = db.disk@;
            let ghost pagej = *self;
            proof {
                lemma_sub_directory_step(s, bs, from as int, j as int);
                let e = s[j as int];
                lemma_kept_subrange(
                    d,
                    dj,
                    off,
                    off + bs,
                    source.offset + e.offset,
                    source.offset + e.offset + e.value_len,
                );
                assert(entries_value(dj, pagej.offset as int, pagej.keys@, key) == None::<Seq<u8>>);
                lemma_packed_step(s, bs, from as int, j as int, pagej.keys@);
            }
            match source.lookup_value(key, &mut buf, &mut db.disk) {
                Ok(Some(_)) => {},
                Ok(None) => {
                    return Err(Error::InvariantViolation);
                },
                Err(e) => {
                    return Err(e);
                },
            }
            assert(entries_value(d, source.offset as int, source.keys@, key) == Some(buf@));
            match self.upsert_value(key, buf.as_slice(), db) {
                Ok(()) => {},
                Err(e) => {
                    return Err(e);
                },
            }
            proof {
                lemma_kept_outside_trans(d, dj, db.disk@, off, off + bs);
                assert forall|k: Key| #[trigger]
                    entries_value(db.disk@, self.offset as int, self.keys@, k) == if has_key(
                        s.subrange(from as int, j + 1),
                        k,
                    ) {
                        entries_value(d, source.offset as int, source.keys@, k)
                    } else {
                        None
                    } by {
                    assert(entries_value(dj, pagej.offset as int, pagej.keys@, k) == if has_key(
                        s.subrange(from as int, j as int),
                        k,
                    ) {
                        entries_value(d, source.offset as int, source.keys@, k)
                    } else {
                        None
                    });
                }
            }
            j += 1;
        }
        proof {
            assert(s.subrange(from as int, n as int) =~= s.skip(from as int));
            assert(packed(s.skip(from as int), bs).take(n - from) =~= packed(
                s.skip(from as int),
                bs,
            ));
        }
        Ok(())
    }

    /// Splits the page: allocates a new leaf, gives it the upper half of
    /// the slots with their values, and keeps the lower half, with the
    /// extra slot of an odd count. Returns the new leaf, the right sibling.
    /// Where the device is full nothing is changed.
    pub fn split_in_half<D: Disk>(&mut self, db: &mut Database<D>) -> (r: Result<LeafPage, Error>)
        requires
            old(db).inv(),
            old(self).in_store(old(db)),
        ensures
            final(db).disk.reliable() == old(db).disk.reliable(),
            final(db).inv(),
            final(db).meta.block_size_exp == old(db).meta.block_size_exp,
            final(db).meta.root_btree_offset == old(db).meta.root_btree_offset,
            final(db).meta.num_blocks_allocated >= old(db).meta.num_blocks_allocated,
            final(self).offset == old(self).offset,
            match r {
                Ok(right) => {
                    let bs = old(db).spec_block_size();
                    let off = old(self).offset as int;
                    let end = old(db).spec_end();
                    let s = old(self).keys@;
                    let split = (s.len() + 1) / 2;
                    &&& final(self).keys@ == s.take(split as int)
                    &&& right.keys@ == packed(s.skip(split as int), bs)
                    &&& right.offset == end
                    &&& final(db).meta == DatabaseMeta {
                        num_blocks_allocated: (old(db).meta.num_blocks_allocated + 1) as u64,
                        ..old(db).meta
                    }
                    &&& final(db).spec_end() == end + bs
                    &&& final(db).synced()
                    &&& final(self).in_store(final(db))
                    &&& right.in_store(final(db))
                    &&& kept_below(old(db).disk@, final(db).disk@, end, off, off + bs)
                    &&& is_leaf(image(final(db).disk@, off, bs))
                    &&& leaf_entries(image(final(db).disk@, off, bs)) == final(self).keys@
                    &&& is_leaf(image(final(db).disk@, end, bs))
                    &&& leaf_entries(image(final(db).disk@, end, bs)) == right.keys@
                    &&& forall|k: Key|
                        #[trigger] entries_value(
                            final(db).disk@,
                            final(self).offset as int,
                            final(self).keys@,
                            k,
                        ) == if has_key(
                            s.take(split as int),
                            k,
                        ) {
                            entries_value(
                                old(db).disk@,
                                old(self).offset as int,
                                old(self).keys@,
                                k,
                            )
                        } else {
                            None
                        }
                    &&& forall|k: Key|
                        #[trigger] entries_value(
                            final(db).disk@,
                            right.offset as int,
                            right.keys@,
                            k,
                        ) == if has_key(
                            s.skip(split as int),
                            k,
                        ) {
                            entries_value(
                                old(db).disk@,
                                old(self).offset as int,
                                old(self).keys@,
                                k,
                            )
                        } else {
                            None
                        }
                },
                Err(Error::Capacity) => {
                    &&& old(db).spec_end() + old(db).spec_block_size() > max_device_size()
                    &&& final(db).meta == old(db).meta
                    &&& final(db).disk@ == old(db).disk@
                    &&& final(self).keys@ == old(self).keys@
                },
                Err(e) => io_failure(&old(db).disk, e),
            },
    {
        let keys_len: usize = self.keys.len();
        let split_idx: usize = keys_len - keys_len / 2;
        let ghost bs = db.spec_block_size();
        let ghost off = self.offset as int;
        let ghost end = db.spec_end();
        let ghost s = self.keys@;
        let ghost d = db.disk@;
        proof {
            lemma_end_bounds(db.meta);
        }
        let mut new_right = match LeafPage::init(db) {
            Ok(page) => page,
            Err(e) => {
                return Err(e);
            },
        };
        let ghost d1 = db.disk@;
        match new_right.take_from(self, split_idx, db) {
            Ok(()) => {},
            Err(e) => {
                return Err(e);
            },
        }
        let ghost d2 = db.disk@;
        self.keys.truncate(split_idx);
        match self.persist_header(&mut db.disk) {
            Ok(()) => {},
            Err(e) => {
                return Err(e);
            },
        }
        proof {
            lemma_split_done(
                d,
                d1,
                d2,
                db.disk@,
                off,
                bs,
                end,
                s,
                split_idx as int,
                new_right.keys@,
            );
        }
        Ok(new_right)
    }
}

} // verus!
