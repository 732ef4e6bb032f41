//! A single-file, page-based, ordered key-value store.
//!
//! The store keeps a B+-tree index from 128-bit keys to byte strings in
//! fixed-size blocks of one block device, and builds nested trees on top of
//! it, so that data can be addressed as `root[table][row][field]`.
//!
//! The contracts of the operations on trees speak of what a tree holds, a
//! map from keys to values, where the database holds a well-formed tree;
//! those on nested trees speak of the inline value at the end of a path of
//! keys. They say where the root of each tree is afterwards, and what a
//! split or an unlinked page makes of the page above. On a device that is
//! reliable, as one in memory is, no operation on a well-formed database
//! ends in an I/O error; an insert succeeds where the tree has room for
//! the value on the way to its leaf, also by a split of that leaf, and
//! where the value and the values of the tree are small for the block
//! size, as long as the device can grow. `laws` states what follows for
//! sequences of operations. `expenses` keeps records in nested trees, and
//! `fuzz` holds a tree against what it should hold.

pub mod bytes;
pub mod database;
pub mod disk;
pub mod error;
pub mod expenses;
pub mod fuzz;
pub mod key;
pub mod laws;
pub mod nested;
pub mod page;
pub mod tree;

