//! Holding a tree against what it should hold, one instruction after
//! another.

use crate::database::Database;
use crate::disk::Disk;
use crate::error::Error;
use crate::error::io_failure;
use crate::key::Key;
use crate::laws::Op;
use crate::laws::apply;
use crate::page::btree::BTree;
use crate::page::btree::header_kept;
use crate::page::btree::synced_kept;
use crate::page::btree::tree_step;
use vstd::prelude::*;

verus! {

/// An instruction for a tree.
#[derive(Debug, Clone)]
pub enum Instruction {
    Insert(Key, Vec<u8>),
    Delete(Key),
}

impl Instruction {
    /// The operation that the instruction asks for.
    pub open spec fn op(&self) -> Op {
        match self {
            Instruction::Insert(key, data) => Op::Insert(*key, data@),
            Instruction::Delete(key) => Op::Delete(*key),
        }
    }
}

/// A tree holds every pair of a key and its value.
pub open spec fn holds(m: Map<Key, Seq<u8>>, expected: Seq<(Key, Vec<u8>)>) -> bool {
    forall|i: int|
        0 <= i < expected.len() ==> m.contains_key((#[trigger] expected[i]).0) && m[expected[i].0]
            == expected[i].1@
}

/// Whether two byte strings are the same.
fn same_bytes(a: &[u8], b: &[u8]) -> (r: bool)
    ensures
        r == (a@ == b@),
{
    if a.len() != b.len() {
        return false;
    }
    let mut i: usize = 0;
    while i < a.len()
        invariant
            a@.len() == b@.len(),
            0 <= i <= a@.len(),
            a@.take(i as int) == b@.take(i as int),
        decreases a@.len() - i,
    {
        if a[i] != b[i] {
            return false;
        }
        assert(a@.take(i + 1) =~= a@.take(i as int).push(a@[i as int]));
        assert(b@.take(i + 1) =~= b@.take(i as int).push(b@[i as int]));
        i += 1;
    }
    assert(a@.take(a@.len() as int) =~= a@);
    assert(b@.take(b@.len() as int) =~= b@);
    true
}

/// Whether the tree gives every key of `expected` the value that it has
/// there. The database is left as it was.
pub fn validate<D: Disk>(
    expected: &Vec<(Key, Vec<u8>)>,
    btree: &BTree,
    db: &mut Database<D>,
) -> (r: Result<bool, Error>)
    requires
        old(db).inv(),
    ensures
        final(db).disk.reliable() == old(db).disk.reliable(),
        final(db).disk@ == old(db).disk@,
        final(db).meta == old(db).meta,
        btree.wf(old(db)) ==> match r {
            Ok(all) => all == holds(btree.contents(old(db)), expected@),
            Err(e) => io_failure(&old(db).disk, e),
        },
{
    let ghost m = btree.contents(db);
    let ghost ready = btree.wf(db);
    let mut i: usize = 0;
    while i < expected.len()
        invariant
            db.inv(),
            db.disk.reliable() == old(db).disk.reliable(),
            db.disk@ == old(db).disk@,
            db.meta == old(db).meta,
            ready == btree.wf(old(db)),
            m == btree.contents(old(db)),
            0 <= i <= expected@.len(),
            ready ==> holds(m, expected@.take(i as int)),
        decreases expected@.len() - i,
    {
        let ghost before = *db;
        proof {
            assert(btree.wf(&before) == btree.wf(old(db)));
            assert(btree.contents(&before) == m);
        }
        let found = match btree.lookup(expected[i].0, db) {
            Ok(found) => found,
            Err(e) => {
                return Err(e);
            },
        };
        let same: bool = match found {
            Some(value) => same_bytes(value.as_slice(), expected[i].1.as_slice()),
            None => false,
        };
        if !same {
            return Ok(false);
        }
        proof {
            if ready {
                assert forall|j: int| 0 <= j < i + 1 implies m.contains_key(
                    (#[trigger] expected@.take(i + 1)[j]).0,
                ) && m[expected@.take(i + 1)[j].0] == expected@.take(i + 1)[j].1@ by {
                    if j < i {
                        assert(expected@.take(i + 1)[j] == expected@.take(i as int)[j]);
                    }
                }
            }
        }
        i += 1;
    }
    proof {
        assert(expected@.take(expected@.len() as int) =~= expected@);
    }
    Ok(true)
}

/// Carries out an instruction on a tree: the tree then holds what the
/// operation makes of what it held. An insert that finds no room leaves
/// what the tree holds as it was.
pub fn perform<D: Disk>(instruction: &Instruction, tree: &mut BTree, db: &mut Database<D>) -> (r:
    Result<(), Error>)
    requires
        old(db).inv(),
    ensures
        final(db).disk.reliable() == old(db).disk.reliable(),
        header_kept(old(db), final(db)),
        old(tree).wf(old(db)) ==> match r {
            Ok(()) => {
                &&& tree_step(*old(tree), old(db), *final(tree), final(db))
                &&& final(tree).contents(final(db)) == apply(
                    old(tree).contents(old(db)),
                    instruction.op(),
                )
                &&& synced_kept(old(db), final(db))
            },
            Err(Error::Capacity) => {
                &&& instruction is Insert
                &&& tree_step(*old(tree), old(db), *final(tree), final(db))
                &&& final(tree).contents(final(db)) == old(tree).contents(old(db))
                &&& synced_kept(old(db), final(db))
            },
            Err(e) => io_failure(&old(db).disk, e),
        },
        old(tree).wf(old(db)) && old(db).disk.reliable() && (instruction matches Instruction::Insert(
            key,
            data,
        ) ==> old(tree).takes(old(db), data@.len() as int) || old(tree).has_room(
            old(db),
            *key,
            data@.len() as int,
        )) ==> r is Ok,
{
    match instruction {
        Instruction::Insert(key, data) => tree.insert(*key, data.as_slice(), db),
        Instruction::Delete(key) => tree.delete(*key, db),
    }
}

} // verus!
