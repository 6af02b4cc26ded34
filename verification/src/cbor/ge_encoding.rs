//! Encodings of group elements.

use vstd::prelude::*;

verus! {

/// The compressed encoding of the IETF pairing-friendly curves draft.
pub const IETF_COMPRESSED: u64 = 0;

} // verus!
