//! Keys: unsigned integers of 128 bits, in their numeric order.

use vstd::prelude::*;

verus! {

/// A key of the store.
pub type Key = u128;

} // verus!
