//! The ways an operation of the store can fail.

use crate::disk::Disk;
use crate::disk::DiskError;
use crate::disk::write_limit;
use vstd::prelude::*;

verus! {

/// Why an operation did not complete.
#[derive(Clone, Copy, Debug, PartialEq, Eq, Structural)]
pub enum Error {
    /// The block device failed.
    Io,
    /// What was read is no page or header of this format, or the device
    /// ended before it.
    Format,
    /// A value does not fit where it has to go, or the device is full.
    Capacity,
    /// A page is not where the tree's structure needs one.
    InvariantViolation,
}

impl Error {
    /// The error that a failed device access becomes: a read beyond the end
    /// of the device is a format error, anything else an I/O error.
    pub open spec fn of_disk(e: DiskError) -> Error {
        match e {
            DiskError::OutOfBounds => Error::Format,
            DiskError::Failure => Error::Io,
        }
    }

    /// Turns a device error into the store's error.
    pub fn from_disk(e: DiskError) -> (r: Error)
        ensures
            r == Error::of_disk(e),
            r == Error::Format || r == Error::Io,
    {
        match e {
            DiskError::OutOfBounds => Error::Format,
            DiskError::Failure => Error::Io,
        }
    }
}

/// `e` is the error of a device that has failed, and of one that may.
pub open spec fn io_failure<D: Disk>(disk: &D, e: Error) -> bool {
    e == Error::Io && !disk.reliable()
}

/// `e` is the error of a device that has not taken a write that ends at
/// `end`: a device that may fail, or a write beyond the write limit.
pub open spec fn write_failure<D: Disk>(disk: &D, e: Error, end: int) -> bool {
    e == Error::Io && (!disk.reliable() || end > write_limit())
}

} // verus!
