//! Byte orders.

use vstd::prelude::*;

verus! {

/// Big-endian.
pub const BIG: u64 = 0;

} // verus!
