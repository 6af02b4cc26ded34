//! The seal that keeps the scheme markers closed to other crates.

use vstd::prelude::*;

verus! {

/// Implemented only by the scheme markers of this crate.
pub trait Sealed {}

} // verus!
