//! Token kinds of the reverse Polish policy encoding.

use vstd::prelude::*;

verus! {

/// An attribute reference.
pub const ATTR: u64 = 0;
/// AND of the two topmost policies.
pub const AND: u64 = 1;
/// OR of the two topmost policies.
pub const OR: u64 = 2;
/// k-of-n over the n topmost policies.
pub const THRESH: u64 = 3;

} // verus!
