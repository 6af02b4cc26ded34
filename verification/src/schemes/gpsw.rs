//! GPSW key-policy ABE: the derivation of a symmetric key from a decrypted
//! target-group element. The key components a decryptor combines are
//! chosen by `lsss::reconstruction_plan`, with the key's components as the
//! labelled rows and the ciphertext's attributes as the available ones.

use vstd::prelude::*;
use vstd::utf8::encode_utf8;
use crate::hash::sha256;
use crate::hash::sha256_digest;
use crate::text::push_bytes;

verus! {

/// The bytes a symmetric key is the hash of: a domain tag, then the
/// encoding of the target-group element it is derived from.
pub open spec fn key_input(gt_bytes: Seq<u8>) -> Seq<u8> {
    encode_utf8("GPSW_KEY_DERIVE"@) + gt_bytes
}

/// The symmetric key derived from a target-group element given by its
/// encoding: the SHA-256 digest of the tagged encoding.
pub fn derive_key(gt_bytes: &[u8]) -> (r: Vec<u8>)
    ensures
        r@ == sha256_digest(key_input(gt_bytes@)),
        r@.len() == 32,
{
    let mut msg: Vec<u8> = Vec::new();
    push_bytes(&mut msg, "GPSW_KEY_DERIVE".as_bytes());
    push_bytes(&mut msg, gt_bytes);
    assert(msg@ =~= key_input(gt_bytes@));
    sha256(msg.as_slice())
}

} // verus!
