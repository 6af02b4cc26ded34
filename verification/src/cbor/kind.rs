//! Kinds of ABE items.

use vstd::prelude::*;

verus! {

/// Master secret key.
pub const MSK: u64 = 1;
/// Master public key.
pub const MPK: u64 = 2;
/// User secret key.
pub const SK: u64 = 3;
/// Ciphertext.
pub const CT: u64 = 4;
/// Re-encryption key.
pub const RK: u64 = 5;
/// Re-encrypted ciphertext.
pub const RE_CT: u64 = 6;

} // verus!
