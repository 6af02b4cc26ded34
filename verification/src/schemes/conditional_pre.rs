//! Conditions under which a proxy may re-encrypt: a window of time, or a
//! policy that the proxy's own key must satisfy.

use vstd::prelude::*;
use std::time::SystemTime;
use std::time::SystemTimeError;
use std::time::UNIX_EPOCH;
use core::time::Duration;
use crate::lsss::PolicyNode;
use vstd::utf8::encode_utf8;
use crate::error::AbeError;
use crate::hash::sha256;
use crate::hash::sha256_digest;
use crate::text::bytes_eq;
use crate::text::names;
use crate::text::push_bytes;
use crate::text::str_eq;
use crate::schemes::direct_revocation::component_names;
use crate::schemes::direct_revocation::dedup_first;

verus! {

#[verifier::external_type_specification]
#[verifier::external_body]
pub struct ExSystemTime(SystemTime);

#[verifier::external_type_specification]
#[verifier::external_body]
pub struct ExSystemTimeError(SystemTimeError);

/// `SystemTime::now`: the system clock, of which nothing can be promised.
#[verifier::external_body]
fn system_now() -> SystemTime {
    SystemTime::now()
}

/// `SystemTime::duration_since(UNIX_EPOCH)`: the time elapsed since the
/// Unix epoch, or an error for a clock set before it; nothing is promised
/// of the duration.
#[verifier::external_body]
fn since_unix_epoch(t: &SystemTime) -> Result<Duration, SystemTimeError> {
    t.duration_since(UNIX_EPOCH)
}

/// `Duration::as_secs`: the whole seconds of a duration, which this crate
/// cannot look into.
#[verifier::external_body]
fn whole_seconds(d: &Duration) -> u64 {
    d.as_secs()
}

/// The current Unix time in seconds; a clock set before the epoch reads
/// as 0.
pub fn current_timestamp() -> u64 {
    let now = system_now();
    match since_unix_epoch(&now) {
        Ok(d) => whole_seconds(&d),
        Err(_) => 0,
    }
}

/// A window of time in which re-encryption is allowed; a missing bound
/// leaves that side open.
#[derive(Clone, Debug)]
pub struct TimeCondition {
    /// Earliest Unix time allowed, inclusive.
    pub not_before: Option<u64>,
    /// Latest Unix time allowed, inclusive.
    pub not_after: Option<u64>,
}

impl TimeCondition {
    /// Whether `t` lies within the window.
    pub open spec fn holds_at(self, t: u64) -> bool {
        &&& (self.not_before matches Some(nb) ==> nb <= t)
        &&& (self.not_after matches Some(na) ==> t <= na)
    }

    /// No restriction at all.
    pub fn always() -> (c: Self)
        ensures
            c.not_before is None,
            c.not_after is None,
    {
        TimeCondition { not_before: None, not_after: None }
    }

    /// Allowed from `timestamp` on.
    pub fn from(timestamp: u64) -> (c: Self)
        ensures
            c.not_before == Some(timestamp),
            c.not_after is None,
    {
        TimeCondition { not_before: Some(timestamp), not_after: None }
    }

    /// Allowed up to `timestamp`.
    pub fn until(timestamp: u64) -> (c: Self)
        ensures
            c.not_before is None,
            c.not_after == Some(timestamp),
    {
        TimeCondition { not_before: None, not_after: Some(timestamp) }
    }

    /// Allowed from `not_before` to `not_after`, both included.
    pub fn between(not_before: u64, not_after: u64) -> (c: Self)
        ensures
            c.not_before == Some(not_before),
            c.not_after == Some(not_after),
    {
        TimeCondition { not_before: Some(not_before), not_after: Some(not_after) }
    }

    /// Whether the current time lies within the window: the answer for
    /// whatever the clock reads.
    pub fn is_satisfied(&self) -> (b: bool)
        ensures
            exists|t: u64| b == self.holds_at(t),
    {
        let now = current_timestamp();
        self.is_satisfied_at(now)
    }

    /// Whether `timestamp` lies within the window.
    pub fn is_satisfied_at(&self, timestamp: u64) -> (b: bool)
        ensures
            b == self.holds_at(timestamp),
    {
        if let Some(not_before) = self.not_before {
            if timestamp < not_before {
                return false;
            }
        }
        if let Some(not_after) = self.not_after {
            if timestamp > not_after {
                return false;
            }
        }
        true
    }
}

/// A policy that a proxy's key must satisfy before it may re-encrypt, kept
/// as policy text.
#[derive(Clone, Debug)]
pub struct PolicyCondition {
    /// The policy the proxy must satisfy.
    pub proxy_policy: String,
}

impl PolicyCondition {
    /// A condition on a single attribute.
    pub fn requires_attribute(attr: &str) -> (c: Self)
        ensures
            c.proxy_policy@ == attr@,
    {
        PolicyCondition { proxy_policy: String::from_str(attr) }
    }

    /// A condition on a policy, kept in its canonical form.
    pub fn from_policy(policy: &PolicyNode) -> (c: Self)
        ensures
            c.proxy_policy@ == policy@.canonical_string(),
    {
        PolicyCondition { proxy_policy: policy.to_canonical_string() }
    }
}

/// The first of `attrs` that is not among `held`, if any.
pub open spec fn first_missing(held: Seq<Seq<char>>, attrs: Seq<Seq<char>>) -> Option<Seq<char>>
    decreases attrs.len(),
{
    if attrs.len() == 0 {
        None
    } else if !held.contains(attrs[0]) {
        Some(attrs[0])
    } else {
        first_missing(held, attrs.drop_first())
    }
}

/// The check a re-encryption key generator makes first: every attribute
/// to delegate must be one the key holds. The first that is not is named
/// in the error.
pub fn check_rekey_attributes(held: &Vec<String>, attrs: &[String]) -> (r: Result<(), AbeError>)
    ensures
        match first_missing(names(held@), names(attrs@)) {
            None => r is Ok,
            Some(a) => r matches Err(AbeError::InvalidAttribute(m)) && m@ == "Missing attribute: "@ + a,
        },
{
    let ghost h = names(held@);
    let ghost all = names(attrs@);
    let mut i: usize = 0;
    assert(all.skip(0) =~= all);
    while i < attrs.len()
        invariant
            h == names(held@),
            all == names(attrs@),
            i <= attrs@.len(),
            first_missing(h, all) == first_missing(h, all.skip(i as int)),
        decreases attrs@.len() - i,
    {
        let mut found = false;
        let mut j: usize = 0;
        while j < held.len()
            invariant
                h == names(held@),
                i < attrs@.len(),
                j <= held@.len(),
                found <==> exists|k: int| 0 <= k < j && (#[trigger] held@[k])@ == attrs@[i as int]@,
            decreases held@.len() - j,
        {
            if !found && str_eq(held[j].as_str(), attrs[i].as_str()) {
                found = true;
            }
            j = j + 1;
        }
        proof {
            assert(all.skip(i as int)[0] == attrs@[i as int]@);
            assert(all.skip(i as int).drop_first() =~= all.skip(i + 1));
            if found {
                let k = choose|k: int| 0 <= k < held@.len() && (#[trigger] held@[k])@ == attrs@[i as int]@;
                assert(h[k] == attrs@[i as int]@);
            } else {
                assert forall|k: int| 0 <= k < h.len() implies h[k] != attrs@[i as int]@ by {
                    assert(held@[k]@ == h[k]);
                }
            }
        }
        if !found {
            let mut m = String::from_str("Missing attribute: ");
            m.append(attrs[i].as_str());
            return Err(AbeError::InvalidAttribute(m));
        }
        i = i + 1;
    }
    assert(all.skip(i as int).len() == 0);
    Ok(())
}

/// Where `first_missing` finds nothing, every attribute is held.
proof fn lemma_none_missing(held: Seq<Seq<char>>, attrs: Seq<Seq<char>>)
    requires
        first_missing(held, attrs) is None,
    ensures
        forall|i: int| 0 <= i < attrs.len() ==> held.contains(#[trigger] attrs[i]),
    decreases attrs.len(),
{
    if attrs.len() > 0 {
        lemma_none_missing(held, attrs.drop_first());
        assert forall|i: int| 0 <= i < attrs.len() implies held.contains(#[trigger] attrs[i]) by {
            if i > 0 {
                assert(attrs.drop_first()[i - 1] == attrs[i]);
            }
        }
    }
}

/// The component under `name`: that of its first entry, if any.
pub open spec fn component_of<G>(kx: Seq<(String, G)>, name: Seq<char>) -> Option<G>
    decreases kx.len(),
{
    if kx.len() == 0 {
        None
    } else {
        match component_of(kx.drop_last(), name) {
            Some(g) => Some(g),
            None => if kx.last().0@ == name {
                Some(kx.last().1)
            } else {
                None
            },
        }
    }
}

/// A name among the components has a component.
proof fn lemma_component_of_some<G>(kx: Seq<(String, G)>, name: Seq<char>)
    requires
        component_names(kx).contains(name),
    ensures
        component_of(kx, name) is Some,
    decreases kx.len(),
{
    let k = choose|k: int| 0 <= k < component_names(kx).len() && component_names(kx)[k] == name;
    if k < kx.len() - 1 {
        assert(component_names(kx.drop_last())[k] == name);
        lemma_component_of_some(kx.drop_last(), name);
    }
}

/// The names of a key's components.
fn component_name_list<G>(kx: &Vec<(String, G)>) -> (r: Vec<String>)
    ensures
        names(r@) == component_names(kx@),
{
    let mut r: Vec<String> = Vec::new();
    let mut i: usize = 0;
    while i < kx.len()
        invariant
            i <= kx@.len(),
            names(r@) == component_names(kx@).take(i as int),
        decreases kx@.len() - i,
    {
        let ghost before = r@;
        r.push(kx[i].0.clone());
        proof {
            assert(names(r@) =~= names(before).push(kx@[i as int].0@));
            assert(component_names(kx@).take(i + 1) =~= component_names(kx@).take(i as int).push(kx@[i as int].0@));
        }
        i = i + 1;
    }
    assert(component_names(kx@).take(kx@.len() as int) =~= component_names(kx@));
    r
}

/// The component under `name`.
fn lookup_component<G: Copy>(kx: &Vec<(String, G)>, name: &str) -> (r: Option<G>)
    ensures
        r == component_of(kx@, name@),
{
    let mut found: Option<G> = None;
    let mut i: usize = 0;
    while i < kx.len()
        invariant
            i <= kx@.len(),
            found == component_of(kx@.take(i as int), name@),
        decreases kx@.len() - i,
    {
        proof {
            assert(kx@.take(i + 1).drop_last() =~= kx@.take(i as int));
            assert(kx@.take(i + 1).last() == kx@[i as int]);
        }
        if found.is_none() && str_eq(kx[i].0.as_str(), name) {
            found = Some(kx[i].1);
        }
        i = i + 1;
    }
    assert(kx@.take(kx@.len() as int) =~= kx@);
    found
}

/// The components a re-encryption key takes over from a key: after the
/// check of `check_rekey_attributes`, the component of each attribute to
/// delegate, once per attribute, in order of first mention.
pub fn delegated_components<G: Copy>(kx: &Vec<(String, G)>, attrs: &[String]) -> (r: Result<Vec<(String, G)>, AbeError>)
    ensures
        match first_missing(component_names(kx@), names(attrs@)) {
            Some(a) => r matches Err(AbeError::InvalidAttribute(m)) && m@ == "Missing attribute: "@ + a,
            None => r matches Ok(v) && component_names(v@) == dedup_first(names(attrs@)) && forall|j: int|
                0 <= j < v@.len() ==> component_of(kx@, #[trigger] v@[j].0@) == Some(v@[j].1),
        },
{
    let held = component_name_list(kx);
    match check_rekey_attributes(&held, attrs) {
        Err(e) => {
            return Err(e);
        },
        Ok(()) => {},
    }
    let ghost all = names(attrs@);
    proof {
        lemma_none_missing(component_names(kx@), all);
    }
    let mut out: Vec<(String, G)> = Vec::new();
    let mut i: usize = 0;
    proof {
        assert(all.take(0) =~= Seq::<Seq<char>>::empty());
        assert(component_names(out@) =~= Seq::<Seq<char>>::empty());
    }
    while i < attrs.len()
        invariant
            i <= attrs@.len(),
            all == names(attrs@),
            forall|q: int| 0 <= q < all.len() ==> component_names(kx@).contains(#[trigger] all[q]),
            component_names(out@) == dedup_first(all.take(i as int)),
            forall|j: int| 0 <= j < out@.len() ==> component_of(kx@, #[trigger] out@[j].0@) == Some(out@[j].1),
        decreases attrs@.len() - i,
    {
        let name = &attrs[i];
        proof {
            assert(all.take(i + 1).drop_last() =~= all.take(i as int));
            assert(all.take(i + 1).last() == name@);
            assert(all[i as int] == name@);
        }
        let mut present = false;
        let mut j: usize = 0;
        while j < out.len()
            invariant
                j <= out@.len(),
                present <==> exists|k: int| 0 <= k < j && (#[trigger] out@[k]).0@ == name@,
            decreases out@.len() - j,
        {
            if !present && str_eq(out[j].0.as_str(), name.as_str()) {
                present = true;
            }
            j = j + 1;
        }
        proof {
            if present {
                let k = choose|k: int| 0 <= k < out@.len() && (#[trigger] out@[k]).0@ == name@;
                assert(component_names(out@)[k] == name@);
            } else {
                assert forall|k: int| 0 <= k < component_names(out@).len() implies component_names(out@)[k] != name@ by {
                    assert(component_names(out@)[k] == out@[k].0@);
                }
            }
        }
        if !present {
            proof {
                lemma_component_of_some(kx@, name@);
            }
            match lookup_component(kx, name.as_str()) {
                Some(g) => {
                    let ghost before = out@;
                    out.push((name.clone(), g));
                    proof {
                        assert(component_names(out@) =~= component_names(before).push(name@));
                    }
                },
                None => {},
            }
        }
        i = i + 1;
    }
    proof {
        assert(all.take(attrs@.len() as int) =~= all);
    }
    Ok(out)
}

/// The bytes a proxy token's hash is taken over: a domain tag, then the
/// token.
pub open spec fn proxy_token_input(token: Seq<u8>) -> Seq<u8> {
    encode_utf8("POLICY_COND_TOKEN"@) + token
}

/// The hash under which a policy-conditional re-encryption key records its
/// proxy token: the SHA-256 digest of the tagged token.
pub fn proxy_token_hash(token: &[u8]) -> (r: Vec<u8>)
    ensures
        r@ == sha256_digest(proxy_token_input(token@)),
{
    let mut msg: Vec<u8> = Vec::new();
    push_bytes(&mut msg, "POLICY_COND_TOKEN".as_bytes());
    push_bytes(&mut msg, token);
    assert(msg@ =~= proxy_token_input(token@));
    sha256(msg.as_slice())
}

/// Whether `token` is the proxy token of a key that records `token_hash`:
/// whether the tagged token hashes to it.
pub fn verify_proxy_token(token_hash: &[u8], token: &[u8]) -> (b: bool)
    ensures
        b == (token_hash@ == sha256_digest(proxy_token_input(token@))),
{
    let computed = proxy_token_hash(token);
    bytes_eq(computed.as_slice(), token_hash)
}

} // verus!
