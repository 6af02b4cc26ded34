//! Proxy re-encryption for decentralized ABE: the decisions a proxy makes
//! before it combines a re-encryption key with a ciphertext.

use vstd::prelude::*;
use crate::lsss::PolicyNode;
use crate::field::Fr;
use crate::error::AbeError;
use crate::schemes::dabe::is_plan;
use crate::schemes::dabe::proxy_outcome;
use crate::schemes::dabe::proxy_plan;
use crate::schemes::dabe::holdings_view;
use crate::schemes::dabe::labels_view;

verus! {

/// The decisions of re-encrypting a ciphertext: the re-encryption key,
/// given as its per-authority components and their attributes, must
/// satisfy the ciphertext's policy; the rows of the satisfying assignment
/// are grouped by authority; and the key needs a component from each
/// group's authority holding each row's attribute. `proxy_outcome` states
/// the groups returned and each refusal.
pub fn reencryption_plan(
    policy: &PolicyNode,
    rk: &[(String, Vec<String>)],
    labels: &[(String, String)],
) -> (r: Result<Vec<(String, Vec<(usize, Fr)>)>, AbeError>)
    ensures
        is_plan(r, proxy_outcome(policy@, holdings_view(rk@), labels_view(labels@), "Missing re-key for attribute "@)),
{
    proxy_plan(policy, rk, labels, "Missing re-key for attribute ")
}

} // verus!
