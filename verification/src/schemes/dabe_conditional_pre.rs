//! Conditional proxy re-encryption for decentralized ABE: time conditions,
//! and timestamps signed by a trusted time authority for stronger
//! enforcement of them.

use vstd::prelude::*;
use vstd::utf8::encode_utf8;
use crate::hash::sha256;
use crate::hash::sha256_digest;
use crate::text::bytes_eq;
use crate::text::push_bytes;

pub use crate::schemes::conditional_pre::TimeCondition;
use crate::schemes::conditional_pre::current_timestamp;
use crate::error::AbeError;
use crate::lsss::PolicyNode;
use crate::field::Fr;
use crate::schemes::dabe::is_plan;
use crate::schemes::dabe::proxy_outcome;
use crate::schemes::dabe::holdings_view;
use crate::schemes::dabe::labels_view;
use crate::schemes::dabe_pre::reencryption_plan;

verus! {

/// The little-endian bytes of `t`.
pub open spec fn le_bytes(t: u64) -> Seq<u8> {
    Seq::new(8, |i: int| (t >> ((8 * i) as u64)) as u8)
}

/// The nonce of a timestamp: its little-endian bytes, then zeros up to 32
/// bytes.
pub open spec fn timestamp_nonce(t: u64) -> Seq<u8> {
    le_bytes(t) + Seq::new(24, |i: int| 0u8)
}

/// The bytes a timestamp signature is taken over: a domain tag, the
/// timestamp, the authority, the nonce and the key.
pub open spec fn signed_bytes(t: u64, authority: Seq<char>, nonce: Seq<u8>, key: Seq<u8>) -> Seq<u8> {
    encode_utf8("TRUSTED_TIMESTAMP_V1"@) + le_bytes(t) + encode_utf8(authority) + nonce + key
}

/// The signature of a timestamp under `key`.
pub open spec fn timestamp_signature(t: u64, authority: Seq<char>, nonce: Seq<u8>, key: Seq<u8>) -> Seq<u8> {
    sha256_digest(signed_bytes(t, authority, nonce, key))
}

/// A timestamp signed by a trusted time authority.
#[derive(Clone, Debug)]
pub struct TrustedTimestamp {
    /// The Unix time it attests.
    pub timestamp: u64,
    /// The authority that signed it.
    pub authority_id: String,
    /// The signature over timestamp, authority and nonce.
    pub signature: Vec<u8>,
    /// A nonce against replay.
    pub nonce: [u8; 32],
}

/// The little-endian bytes of `t`, computed.
fn le_bytes_of(t: u64) -> (r: Vec<u8>)
    ensures
        r@ == le_bytes(t),
{
    let mut r: Vec<u8> = Vec::new();
    let mut i: u64 = 0;
    while i < 8
        invariant
            i <= 8,
            r@ == le_bytes(t).take(i as int),
        decreases 8 - i,
    {
        let b = (t >> (8 * i)) as u8;
        r.push(b);
        i = i + 1;
        assert(r@ =~= le_bytes(t).take(i as int));
    }
    assert(r@ =~= le_bytes(t));
    r
}

impl TrustedTimestamp {
    /// Whether the timestamp names `authority` and carries the signature
    /// that `key` gives over it.
    pub open spec fn verifies(self, authority: Seq<char>, key: Seq<u8>) -> bool {
        &&& self.authority_id@ == authority
        &&& self.signature@ == timestamp_signature(self.timestamp, self.authority_id@, self.nonce@, key)
    }

    /// Signs `timestamp` for `authority_id` with `signing_key`; the nonce is
    /// the timestamp's little-endian bytes followed by zeros.
    pub fn new(timestamp: u64, authority_id: &str, signing_key: &[u8]) -> (r: Self)
        ensures
            r.timestamp == timestamp,
            r.authority_id@ == authority_id@,
            r.nonce@ == timestamp_nonce(timestamp),
            r.signature@ == timestamp_signature(timestamp, authority_id@, r.nonce@, signing_key@),
            r.signature@.len() == 32,
    {
        let mut nonce = [0u8; 32];
        let le = le_bytes_of(timestamp);
        let mut i: usize = 0;
        while i < 8
            invariant
                i <= 8,
                le@ == le_bytes(timestamp),
                nonce@.len() == 32,
                forall|j: int| 0 <= j < i ==> nonce@[j] == le@[j],
                forall|j: int| 8 <= j < 32 ==> nonce@[j] == 0,
            decreases 8 - i,
        {
            nonce[i] = le[i];
            i = i + 1;
        }
        assert(nonce@ =~= timestamp_nonce(timestamp));
        let signature = Self::compute_signature(timestamp, authority_id, &nonce, signing_key);
        TrustedTimestamp {
            timestamp,
            authority_id: String::from_str(authority_id),
            signature,
            nonce,
        }
    }

    /// The signature over timestamp, authority and nonce under `key`.
    fn compute_signature(timestamp: u64, authority_id: &str, nonce: &[u8; 32], key: &[u8]) -> (r: Vec<u8>)
        ensures
            r@ == timestamp_signature(timestamp, authority_id@, nonce@, key@),
            r@.len() == 32,
    {
        let mut msg: Vec<u8> = Vec::new();
        push_bytes(&mut msg, "TRUSTED_TIMESTAMP_V1".as_bytes());
        let le = le_bytes_of(timestamp);
        push_bytes(&mut msg, le.as_slice());
        push_bytes(&mut msg, authority_id.as_bytes());
        push_bytes(&mut msg, nonce.as_slice());
        push_bytes(&mut msg, key);
        assert(msg@ =~= signed_bytes(timestamp, authority_id@, nonce@, key@));
        sha256(msg.as_slice())
    }

    /// Whether the timestamp comes from `expected_authority_id` and its
    /// signature is the one `verification_key` gives.
    pub fn verify(&self, expected_authority_id: &str, verification_key: &[u8]) -> (b: bool)
        ensures
            b == self.verifies(expected_authority_id@, verification_key@),
    {
        if !crate::text::str_eq(self.authority_id.as_str(), expected_authority_id) {
            return false;
        }
        let expected = Self::compute_signature(
            self.timestamp,
            self.authority_id.as_str(),
            &self.nonce,
            verification_key,
        );
        bytes_eq(self.signature.as_slice(), expected.as_slice())
    }
}

/// A timestamp made by `new` verifies for the authority it was made for,
/// under the key it was signed with, and for no other authority.
pub proof fn lemma_timestamp_verifies(
    ts: TrustedTimestamp,
    timestamp: u64,
    authority: Seq<char>,
    key: Seq<u8>,
    other: Seq<char>,
)
    requires
        ts.timestamp == timestamp,
        ts.authority_id@ == authority,
        ts.nonce@ == timestamp_nonce(timestamp),
        ts.signature@ == timestamp_signature(timestamp, authority, ts.nonce@, key),
    ensures
        ts.verifies(authority, key),
        other != authority ==> !ts.verifies(other, key),
{
}

/// The time at which a re-encryption is judged, or why it is refused. A
/// key that names a time authority needs a timestamp from it, the key of
/// that authority, and a signature that verifies under that key; the
/// timestamp's time is then used. A key that names none uses `now`. The
/// time must then lie in the key's window.
pub open spec fn reencryption_time(
    required_authority: Option<Seq<char>>,
    authority_key: Option<Seq<u8>>,
    trusted: Option<TrustedTimestamp>,
    condition: TimeCondition,
    now: u64,
) -> Result<u64, Seq<char>> {
    let chosen: Result<u64, Seq<char>> = match required_authority {
        Some(authority) => match trusted {
            None => Err("Trusted timestamp required but not provided"@),
            Some(ts) => match authority_key {
                None => Err("Time authority key not set in re-encryption key"@),
                Some(key) => if ts.verifies(authority, key) {
                    Ok(ts.timestamp)
                } else {
                    Err("Trusted timestamp verification failed"@)
                },
            },
        },
        None => Ok(now),
    };
    match chosen {
        Ok(t) => if condition.holds_at(t) {
            Ok(t)
        } else {
            Err("Re-encryption time condition not satisfied"@)
        },
        Err(m) => Err(m),
    }
}

/// The characters of an optional string.
pub open spec fn opt_str(o: Option<&str>) -> Option<Seq<char>> {
    match o {
        Some(a) => Some(a@),
        None => None,
    }
}

/// The bytes of an optional byte string.
pub open spec fn opt_bytes(o: Option<&[u8]>) -> Option<Seq<u8>> {
    match o {
        Some(k) => Some(k@),
        None => None,
    }
}

/// An optional timestamp, by value.
pub open spec fn opt_timestamp(o: Option<&TrustedTimestamp>) -> Option<TrustedTimestamp> {
    match o {
        Some(t) => Some(*t),
        None => None,
    }
}

/// Whether `r` is the outcome `expected` describes: the same time, or a
/// decryption error with the same message.
pub open spec fn is_outcome(r: Result<u64, AbeError>, expected: Result<u64, Seq<char>>) -> bool {
    match expected {
        Ok(t) => r == Ok::<u64, AbeError>(t),
        Err(m) => r matches Err(AbeError::DecryptError(e)) && e@ == m,
    }
}

/// The time at which a re-encryption is judged, with `now` standing for
/// the clock: the checks a conditional re-encryption makes before it
/// touches the ciphertext.
pub fn reencryption_time_at(
    required_authority: Option<&str>,
    authority_key: Option<&[u8]>,
    trusted: Option<&TrustedTimestamp>,
    condition: &TimeCondition,
    now: u64,
) -> (r: Result<u64, AbeError>)
    ensures
        is_outcome(
            r,
            reencryption_time(
                opt_str(required_authority),
                opt_bytes(authority_key),
                opt_timestamp(trusted),
                *condition,
                now,
            ),
        ),
{
    let timestamp = match required_authority {
        Some(authority) => {
            let ts = match trusted {
                Some(ts) => ts,
                None => {
                    return Err(AbeError::DecryptError(String::from_str("Trusted timestamp required but not provided")));
                },
            };
            let key = match authority_key {
                Some(key) => key,
                None => {
                    return Err(AbeError::DecryptError(String::from_str("Time authority key not set in re-encryption key")));
                },
            };
            if !ts.verify(authority, key) {
                return Err(AbeError::DecryptError(String::from_str("Trusted timestamp verification failed")));
            }
            ts.timestamp
        },
        None => now,
    };
    if !condition.is_satisfied_at(timestamp) {
        return Err(AbeError::DecryptError(String::from_str("Re-encryption time condition not satisfied")));
    }
    Ok(timestamp)
}

/// When the key names no time authority the clock decides: whatever
/// timestamp and authority key come with the request, the outcome is the
/// outcome without them, which is `now` when it lies in the key's window
/// and the window refusal otherwise.
pub proof fn lemma_clock_decides_without_authority(
    key: Option<Seq<u8>>,
    trusted: Option<TrustedTimestamp>,
    condition: TimeCondition,
    now: u64,
)
    ensures
        reencryption_time(None, key, trusted, condition, now) == reencryption_time(None, None, None, condition, now),
        reencryption_time(None, key, trusted, condition, now) == (if condition.holds_at(now) {
            Ok::<u64, Seq<char>>(now)
        } else {
            Err::<u64, Seq<char>>("Re-encryption time condition not satisfied"@)
        }),
{
}

/// A time that is accepted lies in the key's window, and when the key
/// names a time authority it is the time of a timestamp that verifies
/// under that authority's key.
pub proof fn lemma_accepted_time(
    authority: Option<Seq<char>>,
    key: Option<Seq<u8>>,
    trusted: Option<TrustedTimestamp>,
    condition: TimeCondition,
    now: u64,
    t: u64,
)
    requires
        reencryption_time(authority, key, trusted, condition, now) == Ok::<u64, Seq<char>>(t),
    ensures
        condition.holds_at(t),
        authority is None ==> t == now,
        authority matches Some(a) ==> (trusted matches Some(ts) && key matches Some(k) && ts.verifies(a, k) && t == ts.timestamp),
{
}

/// The time at which a re-encryption is judged, reading the clock when the
/// key names no time authority: the outcome for whatever the clock reads.
pub fn reencryption_time_now(
    required_authority: Option<&str>,
    authority_key: Option<&[u8]>,
    trusted: Option<&TrustedTimestamp>,
    condition: &TimeCondition,
) -> (r: Result<u64, AbeError>)
    ensures
        exists|now: u64|
            is_outcome(
                r,
                #[trigger] reencryption_time(
                    opt_str(required_authority),
                    opt_bytes(authority_key),
                    opt_timestamp(trusted),
                    *condition,
                    now,
                ),
            ),
{
    let now = current_timestamp();
    reencryption_time_at(required_authority, authority_key, trusted, condition, now)
}

/// With a time authority named, the clock plays no part: a trusted
/// timestamp decides, whatever time it is.
pub proof fn lemma_trusted_time_ignores_clock(
    authority: Seq<char>,
    key: Option<Seq<u8>>,
    trusted: Option<TrustedTimestamp>,
    condition: TimeCondition,
    now1: u64,
    now2: u64,
)
    ensures
        reencryption_time(Some(authority), key, trusted, condition, now1) == reencryption_time(
            Some(authority),
            key,
            trusted,
            condition,
            now2,
        ),
{
}


/// The decisions of a conditional re-encryption at time `now`: first the
/// time checks of `reencryption_time`, whose refusal is returned as a
/// decryption error; then those of plain re-encryption, as
/// `proxy_outcome` states them.
pub fn conditional_reencryption_plan_at(
    required_authority: Option<&str>,
    authority_key: Option<&[u8]>,
    trusted: Option<&TrustedTimestamp>,
    condition: &TimeCondition,
    now: u64,
    policy: &PolicyNode,
    rk: &[(String, Vec<String>)],
    labels: &[(String, String)],
) -> (r: Result<Vec<(String, Vec<(usize, Fr)>)>, AbeError>)
    ensures
        match reencryption_time(opt_str(required_authority), opt_bytes(authority_key), opt_timestamp(trusted), *condition, now) {
            Err(m) => r matches Err(AbeError::DecryptError(x)) && x@ == m,
            Ok(_) => is_plan(r, proxy_outcome(policy@, holdings_view(rk@), labels_view(labels@), "Missing re-key for attribute "@)),
        },
{
    match reencryption_time_at(required_authority, authority_key, trusted, condition, now) {
        Err(e) => Err(e),
        Ok(_) => reencryption_plan(policy, rk, labels),
    }
}

/// The decisions of a conditional re-encryption, reading the clock when
/// the key names no time authority: the outcome for whatever the clock
/// reads.
pub fn conditional_reencryption_plan(
    required_authority: Option<&str>,
    authority_key: Option<&[u8]>,
    trusted: Option<&TrustedTimestamp>,
    condition: &TimeCondition,
    policy: &PolicyNode,
    rk: &[(String, Vec<String>)],
    labels: &[(String, String)],
) -> (r: Result<Vec<(String, Vec<(usize, Fr)>)>, AbeError>)
    ensures
        exists|now: u64|
            match #[trigger] reencryption_time(opt_str(required_authority), opt_bytes(authority_key), opt_timestamp(trusted), *condition, now) {
                Err(m) => r matches Err(AbeError::DecryptError(x)) && x@ == m,
                Ok(_) => is_plan(r, proxy_outcome(policy@, holdings_view(rk@), labels_view(labels@), "Missing re-key for attribute "@)),
            },
{
    let now = current_timestamp();
    conditional_reencryption_plan_at(required_authority, authority_key, trusted, condition, now, policy, rk, labels)
}

} // verus!
