//! The parts of the ABE schemes that stand apart from pairing arithmetic:
//! time and policy conditions of proxy re-encryption, trusted timestamps,
//! attribute validity windows, the period tree of forward-secure encryption,
//! revocation sets, the authority analysis of decentralized ABE and the
//! rendering of hidden policies.

pub mod conditional_pre;
pub mod ac17_conditional_pre;
pub mod dabe_conditional_pre;
pub mod attribute_expiration;
pub mod binary_tree_encryption;
pub mod direct_revocation;
pub mod dabe;
pub mod dabe_pre;
pub mod dabe_u2u_pre;
pub mod dabe_multihop_pre;
pub mod ac17_multihop_pre;
pub mod hidden_policy;
pub mod bsw;
pub mod ac17;
pub mod gpsw;
