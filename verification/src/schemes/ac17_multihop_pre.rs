//! Multi-hop proxy re-encryption: the limit on the number of hops, and the
//! checks made before a re-encryption key or a further hop is produced.

use vstd::prelude::*;
use crate::error::AbeError;
use crate::text::decimal;
use crate::text::names;
use crate::text::push_decimal;
use crate::schemes::conditional_pre::check_rekey_attributes;
use crate::schemes::conditional_pre::first_missing;

verus! {

/// The most hops a re-encryption chain may be allowed.
pub const MAX_HOPS: usize = 10;

/// Refuses a chain allowed more than `MAX_HOPS` hops.
pub fn check_hop_limit(max_hops: usize) -> (r: Result<(), AbeError>)
    ensures
        r is Ok <==> max_hops <= MAX_HOPS,
        max_hops > MAX_HOPS ==> (r matches Err(AbeError::EncryptError(m)) && m@ == "Max hops "@ + decimal(
            max_hops as nat,
        ) + " exceeds limit "@ + decimal(MAX_HOPS as nat)),
{
    if max_hops > MAX_HOPS {
        let mut m = String::from_str("Max hops ");
        push_decimal(&mut m, max_hops as u64);
        m.append(" exceeds limit ");
        push_decimal(&mut m, MAX_HOPS as u64);
        return Err(AbeError::EncryptError(m));
    }
    Ok(())
}

/// The checks made before a first-hop re-encryption key is generated: the
/// hop limit, then that the key holds every attribute to delegate.
pub fn check_first_hop_rekey(max_hops: usize, held: &Vec<String>, attrs: &[String]) -> (r: Result<(), AbeError>)
    ensures
        max_hops > MAX_HOPS ==> (r matches Err(AbeError::EncryptError(m)) && m@ == "Max hops "@ + decimal(
            max_hops as nat,
        ) + " exceeds limit "@ + decimal(MAX_HOPS as nat)),
        max_hops <= MAX_HOPS ==> match first_missing(names(held@), names(attrs@)) {
            None => r is Ok,
            Some(a) => r matches Err(AbeError::InvalidAttribute(m)) && m@ == "Missing attribute: "@ + a,
        },
{
    check_hop_limit(max_hops)?;
    check_rekey_attributes(held, attrs)
}

/// The index of the hop that a further re-encryption adds, after the
/// checks it makes: a chain that has used all its hops is refused, and so
/// is one without hops.
pub fn next_hop_index(hop_count: usize, max_hops: usize, hops: usize) -> (r: Result<usize, AbeError>)
    ensures
        hop_count >= max_hops ==> (r matches Err(AbeError::EncryptError(m)) && m@ == "Maximum hops reached"@),
        hop_count < max_hops && hops == 0 ==> (r matches Err(AbeError::DecryptError(m)) && m@ == "No hops in ciphertext"@),
        hop_count < max_hops && hops > 0 ==> r == Ok::<usize, AbeError>(hop_count),
{
    if hop_count >= max_hops {
        return Err(AbeError::EncryptError(String::from_str("Maximum hops reached")));
    }
    if hops == 0 {
        return Err(AbeError::DecryptError(String::from_str("No hops in ciphertext")));
    }
    Ok(hop_count)
}

} // verus!
