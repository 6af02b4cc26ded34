//! User-to-user proxy re-encryption for decentralized ABE: the decisions a
//! proxy makes before it re-encrypts a ciphertext for another user.

use vstd::prelude::*;
use crate::lsss::PolicyNode;
use crate::field::Fr;
use crate::error::AbeError;
use crate::schemes::dabe::is_plan;
use crate::schemes::dabe::proxy_outcome;
use crate::schemes::dabe::proxy_plan;
use crate::schemes::dabe::holdings_view;
use crate::schemes::dabe::labels_view;

verus! {

/// The decisions of re-encrypting a ciphertext for another user, as for
/// plain re-encryption: `proxy_outcome` states the groups returned and each
/// refusal; a component lacking a row's attribute is reported as a missing
/// re-key for that attribute.
pub fn u2u_reencryption_plan(
    policy: &PolicyNode,
    rk: &[(String, Vec<String>)],
    labels: &[(String, String)],
) -> (r: Result<Vec<(String, Vec<(usize, Fr)>)>, AbeError>)
    ensures
        is_plan(r, proxy_outcome(policy@, holdings_view(rk@), labels_view(labels@), "Missing re-key for attr "@)),
{
    proxy_plan(policy, rk, labels, "Missing re-key for attr ")
}

} // verus!
