//! Encodings of policies.

use vstd::prelude::*;

verus! {

/// A Boolean syntax tree in reverse Polish notation.
pub const BOOL_AST: u64 = 0;

} // verus!
