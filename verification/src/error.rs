//! Errors of ABE operations.

use vstd::prelude::*;

verus! {

/// What can go wrong in an ABE operation.
#[derive(Debug)]
pub enum AbeError {
    /// Setup failed.
    SetupError,
    /// Key generation failed, with the reason.
    KeygenError(String),
    /// Encryption failed, with the reason.
    EncryptError(String),
    /// Decryption failed, with the reason.
    DecryptError(String),
    /// The key's attributes do not satisfy the policy.
    PolicyNotSatisfied,
    /// The policy is malformed, with the reason.
    InvalidPolicy(String),
    /// Encoding or decoding failed, with the reason.
    SerializationError(String),
    /// An attribute is malformed, with the reason.
    InvalidAttribute(String),
}

/// The message shown for an error.
pub open spec fn error_message(e: AbeError) -> Seq<char> {
    match e {
        AbeError::SetupError => "Setup failed"@,
        AbeError::KeygenError(m) => "Key generation failed: "@ + m@,
        AbeError::EncryptError(m) => "Encryption failed: "@ + m@,
        AbeError::DecryptError(m) => "Decryption failed: "@ + m@,
        AbeError::PolicyNotSatisfied => "Policy not satisfied"@,
        AbeError::InvalidPolicy(m) => "Invalid policy: "@ + m@,
        AbeError::SerializationError(m) => "Serialization error: "@ + m@,
        AbeError::InvalidAttribute(m) => "Invalid attribute: "@ + m@,
    }
}

impl AbeError {
    /// The message shown for the error, the text of its `Display`.
    pub fn message(&self) -> (r: String)
        ensures
            r@ == error_message(*self),
    {
        match self {
            AbeError::SetupError => String::from_str("Setup failed"),
            AbeError::KeygenError(m) => {
                let mut r = String::from_str("Key generation failed: ");
                r.append(m.as_str());
                r
            },
            AbeError::EncryptError(m) => {
                let mut r = String::from_str("Encryption failed: ");
                r.append(m.as_str());
                r
            },
            AbeError::DecryptError(m) => {
                let mut r = String::from_str("Decryption failed: ");
                r.append(m.as_str());
                r
            },
            AbeError::PolicyNotSatisfied => String::from_str("Policy not satisfied"),
            AbeError::InvalidPolicy(m) => {
                let mut r = String::from_str("Invalid policy: ");
                r.append(m.as_str());
                r
            },
            AbeError::SerializationError(m) => {
                let mut r = String::from_str("Serialization error: ");
                r.append(m.as_str());
                r
            },
            AbeError::InvalidAttribute(m) => {
                let mut r = String::from_str("Invalid attribute: ");
                r.append(m.as_str());
                r
            },
        }
    }
}

} // verus!
