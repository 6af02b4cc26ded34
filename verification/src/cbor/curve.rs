//! Curve identifiers.

use vstd::prelude::*;

verus! {

/// BLS12-381.
pub const BLS12_381: &'static str = "bls12-381";

} // verus!
