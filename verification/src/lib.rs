//! Attribute-based encryption building blocks: access policies, linear
//! secret sharing over the BLS12-381 scalar field, typed scheme markers and
//! the policy, time and authority logic of the schemes.

pub mod field;
pub mod text;
pub mod lsss;
pub mod policy_key;
pub mod policy_gen;
pub mod scheme_types;
pub mod hash;
pub mod error;
pub mod cbor;
pub mod schemes;

pub use error::AbeError;
pub use field::Fr;
pub use lsss::{LsssMatrix, LsssShare, PolicyNode};
pub use scheme_types::{
    Scheme, Waters, WatersCca, Ac17, Gpsw, Bsw, Dabe,
    TypedMpk, TypedMsk, TypedSecretKey, TypedCiphertext,
    TypedFullCiphertext, TypedReKey, TypedReEncryptedCiphertext,
};
