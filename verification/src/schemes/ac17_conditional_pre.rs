//! Conditional proxy re-encryption for AC17: re-encryption keys carry the
//! same time conditions as the other schemes.

pub use crate::schemes::conditional_pre::TimeCondition;

use vstd::prelude::*;
use crate::error::AbeError;
use crate::field::Fr;
use crate::lsss::PolicyNode;
use crate::lsss::Policy;
use crate::lsss::reconstruction_plan;
use crate::lsss::is_reconstruction;
use crate::lsss::attrs_view;
use crate::schemes::conditional_pre::current_timestamp;

verus! {

/// Whether `r` is what a conditional re-encryption decides at time `now`:
/// a refusal when the key's time condition fails there, and otherwise the
/// reconstruction plan of the rows `rows` whose attribute the
/// re-encryption key holds.
pub open spec fn is_conditional_plan(
    condition: TimeCondition,
    now: u64,
    p: Policy,
    rows: Seq<Seq<char>>,
    rk_attrs: Seq<Seq<char>>,
    r: Result<Vec<(usize, Fr)>, AbeError>,
) -> bool {
    if condition.holds_at(now) {
        is_reconstruction(p, rows, rk_attrs, r)
    } else {
        r matches Err(AbeError::DecryptError(m)) && m@ == "Re-encryption time condition not satisfied"@
    }
}

/// The decisions of a conditional re-encryption at time `now`: the key's
/// time condition must hold, and then the ciphertext rows `row_attrs` whose
/// attribute the re-encryption key holds (`rk_attrs`) are combined as
/// `reconstruction_plan` states.
pub fn conditional_reencryption_plan_at(
    condition: &TimeCondition,
    now: u64,
    policy: &PolicyNode,
    row_attrs: &[String],
    rk_attrs: &[String],
) -> (r: Result<Vec<(usize, Fr)>, AbeError>)
    requires
        policy@.well_formed(),
    ensures
        is_conditional_plan(*condition, now, policy@, attrs_view(row_attrs@), attrs_view(rk_attrs@), r),
{
    if !condition.is_satisfied_at(now) {
        return Err(AbeError::DecryptError(String::from_str("Re-encryption time condition not satisfied")));
    }
    reconstruction_plan(policy, row_attrs, rk_attrs)
}

/// The decisions of a conditional re-encryption at the time the clock
/// reads: what `is_conditional_plan` states for some time.
pub fn conditional_reencryption_plan(
    condition: &TimeCondition,
    policy: &PolicyNode,
    row_attrs: &[String],
    rk_attrs: &[String],
) -> (r: Result<Vec<(usize, Fr)>, AbeError>)
    requires
        policy@.well_formed(),
    ensures
        exists|now: u64| #[trigger] is_conditional_plan(*condition, now, policy@, attrs_view(row_attrs@), attrs_view(rk_attrs@), r),
{
    let now = current_timestamp();
    conditional_reencryption_plan_at(condition, now, policy, row_attrs, rk_attrs)
}

} // verus!
