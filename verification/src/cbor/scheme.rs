//! Scheme identifiers.

use vstd::prelude::*;

verus! {

/// Waters '11 CP-ABE.
pub const CPABE_WATERS: &'static str = "cpabe-waters";
/// CCA-secure Waters CP-ABE.
pub const CPABE_WATERS_CCA: &'static str = "cpabe-waters-cca";
/// Waters CP-ABE with proxy re-encryption.
pub const CPABE_WATERS_PRE: &'static str = "cpabe-waters-pre";
/// Decentralized ABE with proxy re-encryption.
pub const DABE_PRE: &'static str = "dabe-pre";

} // verus!
