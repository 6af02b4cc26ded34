//! Multi-hop proxy re-encryption for decentralized ABE: the checks made
//! before a first-hop re-encryption key is generated. A first hop decides
//! as plain re-encryption does, and further hops as in the single-authority
//! scheme.

use vstd::prelude::*;
use crate::error::AbeError;
use crate::text::decimal;
pub use crate::schemes::ac17_multihop_pre::MAX_HOPS;
use crate::schemes::ac17_multihop_pre::check_hop_limit;

verus! {

/// The checks made before a first-hop re-encryption key is generated from
/// a user key with `components` authority components: the hop limit, then
/// that there is at least one component.
pub fn check_first_hop_rekey(max_hops: usize, components: usize) -> (r: Result<(), AbeError>)
    ensures
        max_hops > MAX_HOPS ==> (r matches Err(AbeError::EncryptError(m)) && m@ == "Max hops "@ + decimal(
            max_hops as nat,
        ) + " exceeds limit "@ + decimal(MAX_HOPS as nat)),
        max_hops <= MAX_HOPS && components == 0 ==> (r matches Err(AbeError::KeygenError(m)) && m@ == "User key has no authority components"@),
        max_hops <= MAX_HOPS && components > 0 ==> r is Ok,
{
    check_hop_limit(max_hops)?;
    if components == 0 {
        return Err(AbeError::KeygenError(String::from_str("User key has no authority components")));
    }
    Ok(())
}

} // verus!
