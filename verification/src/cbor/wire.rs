//! ABE-CBOR items as bytes: reading and writing CBOR through `ciborium`,
//! and the byte forms of keys and ciphertexts built on the item layouts.

use vstd::prelude::*;
use ciborium::value::{Integer, Value};
use crate::error::AbeError;
use crate::cbor::{CborValue, Cbor, Suite, SuiteModel, default_suite, suite_cbor, writable, plain, group_elems_cbor, attr_list_cbor, attr_entry, lookup, map_get, pair_views, suite_decode, ABE_CBOR_TAG};
use crate::cbor::items;
use crate::cbor::items::{RawCiphertext, RawMpk, RawMsk, RawSecretKey};
use crate::cbor::items::{ct_decode, elems_body, is_decode_error, item_cbor, mpk_decode, mpk_elems, msk_decode, msk_elems, sk_body, sk_decode};
use crate::cbor::items::{untagged, CiphertextModel, DecodeError};
use crate::cbor::scheme;
use crate::cbor::kind;
use crate::cbor::CborValue::{Array as ItemArray, Bool as ItemBool, Bytes as ItemBytes, Dict as ItemDict};
use crate::cbor::CborValue::{Integer as ItemInteger, Null as ItemNull, Tag as ItemTag, Text as ItemText};
use crate::cbor::CborValue::Other as ItemOther;

verus! {

#[verifier::external_type_specification]
#[verifier::external_body]
pub struct ExValue(Value);

/// The item that `ciborium` reads from `data`, in the library's form
/// (a floating-point number, the one kind of item the library has no form
/// for, read as an `Other` item); `None` where it refuses the bytes.
pub uninterp spec fn cbor_read(data: Seq<u8>) -> Option<Cbor>;

/// The bytes `ciborium` writes for an item.
pub uninterp spec fn cbor_written(c: Cbor) -> Seq<u8>;

/// A `ciborium` value in the library's form, converted variant by variant;
/// a floating-point number becomes an `Other` item.
#[verifier::external_body]
fn cbor_of(v: &Value) -> CborValue {
    match v {
        Value::Integer(i) => ItemInteger((*i).into()),
        Value::Bytes(b) => ItemBytes(b.clone()),
        Value::Text(t) => ItemText(t.clone()),
        Value::Bool(b) => ItemBool(*b),
        Value::Null => ItemNull,
        Value::Array(a) => ItemArray(a.iter().map(cbor_of).collect()),
        Value::Map(m) => ItemDict(m.iter().map(|(k, x)| (cbor_of(k), cbor_of(x))).collect()),
        Value::Tag(t, x) => ItemTag(*t, Box::new(cbor_of(x))),
        _ => ItemOther,
    }
}

/// An item as a `ciborium` value, converted variant by variant; `None` for
/// an integer outside CBOR's range.
#[verifier::external_body]
fn value_of(c: &CborValue) -> Option<Value> {
    Some(match c {
        ItemInteger(i) => Value::Integer(Integer::try_from(*i).ok()?),
        ItemBytes(b) => Value::Bytes(b.clone()),
        ItemText(t) => Value::Text(t.clone()),
        ItemBool(b) => Value::Bool(*b),
        ItemNull => Value::Null,
        ItemArray(a) => Value::Array(a.iter().map(value_of).collect::<Option<_>>()?),
        ItemDict(m) => Value::Map(m.iter().map(|(k, x)| Some((value_of(k)?, value_of(x)?))).collect::<Option<_>>()?),
        ItemTag(t, x) => Value::Tag(*t, Box::new(value_of(x)?)),
        ItemOther => return None,
    })
}

/// `ciborium::de::from_reader` on `data`, the value then converted to the
/// library's form: `Err` with `ciborium`'s message where it refuses the
/// bytes. The message itself is left unsaid.
#[verifier::external_body]
fn read_cbor(data: &[u8]) -> (r: Result<CborValue, String>)
    ensures
        match r {
            Ok(v) => cbor_read(data@) == Some(v@),
            Err(_) => cbor_read(data@) is None,
        },
{
    match ciborium::de::from_reader::<Value, _>(data) {
        Ok(v) => Ok(cbor_of(&v)),
        Err(e) => Err(format!("{}", e)),
    }
}

/// `ciborium::ser::into_writer` of the item into a byte vector: the bytes
/// written, or `Ok(None)` where the item holds an integer outside CBOR's
/// range (which `ciborium::value::Integer` refuses) or an `Other` item.
/// Writing into a `Vec` does not fail: its `std::io::Write` appends, and
/// the serializer reports errors only from the writer or for a malformed
/// tag, which a `Value::Tag` never is. `ciborium::de::from_reader` reads
/// the bytes back as the same item, unless it nests deeper than its
/// recursion limit of 256 or holds a tag 2 or 3, which it reads as a big
/// integer; the clause below is guarded well inside both.
#[verifier::external_body]
fn write_cbor(c: &CborValue) -> (r: Result<Option<Vec<u8>>, String>)
    ensures
        r is Ok,
        r matches Ok(Some(b)) ==> b@ == cbor_written(c@),
        (r matches Ok(Some(_))) <==> writable(c@),
        plain(c@, 128) ==> (r matches Ok(Some(b)) ==> cbor_read(b@) == Some(c@)),
{
    match value_of(c) {
        None => Ok(None),
        Some(v) => {
            let mut out: Vec<u8> = Vec::new();
            ciborium::ser::into_writer(&v, &mut out).map_err(|e| format!("{}", e))?;
            Ok(Some(out))
        },
    }
}

/// The default suite is writable.
proof fn lemma_suite_writable(s: SuiteModel)
    ensures
        writable(suite_cbor(s)),
        forall|d: nat| d >= 2 ==> #[trigger] plain(suite_cbor(s), d),
{
    let c = suite_cbor(s)->Dict_0;
    let curve = c[1].1->Dict_0;
    let enc = c[2].1->Dict_0;
    assert(writable(c[1].1)) by {
        assert forall|i: int| 0 <= i < curve.len() implies writable(#[trigger] curve[i].0) && writable(curve[i].1) by {}
    }
    assert(writable(c[2].1)) by {
        assert forall|i: int| 0 <= i < enc.len() implies writable(#[trigger] enc[i].0) && writable(enc[i].1) by {}
    }
    assert forall|i: int| 0 <= i < c.len() implies writable(#[trigger] c[i].0) && writable(c[i].1) by {}
    assert forall|d: nat| d >= 2 implies #[trigger] plain(suite_cbor(s), d) by {
        let e = (d - 1) as nat;
        assert(plain(c[1].1, e)) by {
            assert forall|i: int| 0 <= i < curve.len() implies plain(#[trigger] curve[i].0, (e - 1) as nat) && plain(curve[i].1, (e - 1) as nat) by {}
        }
        assert(plain(c[2].1, e)) by {
            assert forall|i: int| 0 <= i < enc.len() implies plain(#[trigger] enc[i].0, (e - 1) as nat) && plain(enc[i].1, (e - 1) as nat) by {}
        }
        assert forall|i: int| 0 <= i < c.len() implies plain(#[trigger] c[i].0, e) && plain(c[i].1, e) by {}
    }
}

/// An item laid out by `item_cbor` with a writable body is writable.
proof fn lemma_item_writable(k: u64, body: Seq<(Cbor, Cbor)>)
    requires
        forall|i: int| 0 <= i < body.len() ==> writable(#[trigger] body[i].0) && writable(body[i].1),
        forall|i: int| 0 <= i < body.len() ==> plain(#[trigger] body[i].0, 125) && plain(body[i].1, 125),
    ensures
        writable(item_cbor(k, default_suite(), body)),
        plain(item_cbor(k, default_suite(), body), 128),
{
    lemma_suite_writable(default_suite());
    let m = item_cbor(k, default_suite(), body)->Tag_1->Dict_0;
    assert(writable(Cbor::Dict(body)));
    assert forall|i: int| 0 <= i < m.len() implies writable(#[trigger] m[i].0) && writable(m[i].1) by {}
    assert(writable(Cbor::Dict(m)));
    assert(plain(Cbor::Dict(body), 126));
    assert(plain(suite_cbor(default_suite()), 126));
    assert forall|i: int| 0 <= i < m.len() implies plain(#[trigger] m[i].0, 126) && plain(m[i].1, 126) by {}
    assert(plain(Cbor::Dict(m), 127));
}

/// Group elements are writable.
proof fn lemma_elems_writable(elems: Seq<Seq<u8>>)
    ensures
        writable(group_elems_cbor(elems)),
        plain(group_elems_cbor(elems), 125),
{
    let a = group_elems_cbor(elems)->Array_0;
    assert forall|i: int| 0 <= i < a.len() implies writable(#[trigger] a[i]) by {}
    assert forall|i: int| 0 <= i < a.len() implies plain(#[trigger] a[i], 124) by {}
}

/// An attribute list is writable.
proof fn lemma_attr_list_writable(attrs: Seq<Seq<char>>)
    ensures
        writable(attr_list_cbor(attrs)),
        plain(attr_list_cbor(attrs), 125),
{
    let a = attrs.map_values(|x: Seq<char>| attr_entry(x));
    assert forall|i: int| 0 <= i < a.len() implies writable(#[trigger] a[i]) by {
        let e = a[i]->Dict_0;
        assert forall|j: int| 0 <= j < e.len() implies writable(#[trigger] e[j].0) && writable(e[j].1) by {}
    }
    let m = attr_list_cbor(attrs)->Dict_0;
    assert(writable(Cbor::Array(a)));
    assert forall|j: int| 0 <= j < m.len() implies writable(#[trigger] m[j].0) && writable(m[j].1) by {}
    assert forall|i: int| 0 <= i < a.len() implies plain(#[trigger] a[i], 123) by {
        let e = a[i]->Dict_0;
        assert forall|j: int| 0 <= j < e.len() implies plain(#[trigger] e[j].0, 122) && plain(e[j].1, 122) by {}
    }
    assert(plain(Cbor::Array(a), 124));
    assert forall|j: int| 0 <= j < m.len() implies plain(#[trigger] m[j].0, 124) && plain(m[j].1, 124) by {}
}

proof fn lemma_body_writable_mpk(mpk: RawMpk)
    ensures
        writable(item_cbor(kind::MPK, default_suite(), elems_body(mpk_elems(mpk)))),
        plain(item_cbor(kind::MPK, default_suite(), elems_body(mpk_elems(mpk))), 128),
{
    let b = elems_body(mpk_elems(mpk));
    lemma_elems_writable(mpk_elems(mpk));
    assert forall|i: int| 0 <= i < b.len() implies writable(#[trigger] b[i].0) && writable(b[i].1) by {}
    assert forall|i: int| 0 <= i < b.len() implies plain(#[trigger] b[i].0, 125) && plain(b[i].1, 125) by {}
    lemma_item_writable(kind::MPK, b);
}

proof fn lemma_body_writable_msk(msk: RawMsk)
    ensures
        writable(item_cbor(kind::MSK, default_suite(), elems_body(msk_elems(msk)))),
        plain(item_cbor(kind::MSK, default_suite(), elems_body(msk_elems(msk))), 128),
{
    let b = elems_body(msk_elems(msk));
    lemma_elems_writable(msk_elems(msk));
    assert forall|i: int| 0 <= i < b.len() implies writable(#[trigger] b[i].0) && writable(b[i].1) by {}
    assert forall|i: int| 0 <= i < b.len() implies plain(#[trigger] b[i].0, 125) && plain(b[i].1, 125) by {}
    lemma_item_writable(kind::MSK, b);
}

proof fn lemma_body_writable_sk(sk: items::SecretKeyModel)
    ensures
        writable(item_cbor(kind::SK, default_suite(), sk_body(sk))),
        plain(item_cbor(kind::SK, default_suite(), sk_body(sk)), 128),
{
    let b = sk_body(sk);
    let sorted = crate::lsss::sort_strings(sk.attributes);
    lemma_elems_writable(seq![sk.k, sk.l] + items::components_for(sk.kx, sorted));
    lemma_attr_list_writable(sorted);
    assert forall|i: int| 0 <= i < b.len() implies writable(#[trigger] b[i].0) && writable(b[i].1) by {}
    assert forall|i: int| 0 <= i < b.len() implies plain(#[trigger] b[i].0, 125) && plain(b[i].1, 125) by {}
    lemma_item_writable(kind::SK, b);
}

/// `prefix` followed by `m`.
fn prefixed(prefix: &str, m: &str) -> (r: String)
    ensures
        r@ == prefix@ + m@,
{
    let mut r = String::from_str(prefix);
    r.append(m);
    r
}

/// The item held in CBOR bytes; bytes that hold none are a decryption
/// error.
pub fn decode(data: &[u8]) -> (r: Result<CborValue, AbeError>)
    ensures
        match cbor_read(data@) {
            Some(c) => r matches Ok(v) && v@ == c,
            None => r matches Err(AbeError::DecryptError(_)),
        },
{
    match read_cbor(data) {
        Ok(v) => Ok(v),
        Err(m) => Err(AbeError::DecryptError(prefixed("CBOR decode error: ", m.as_str()))),
    }
}

/// The CBOR bytes of an item; an item that cannot be written (an integer
/// out of CBOR's range, or an `Other` item) is an encryption error.
pub fn encode(v: &CborValue) -> (r: Result<Vec<u8>, AbeError>)
    ensures
        r is Ok <==> writable(v@),
        plain(v@, 128) ==> (r matches Ok(b) ==> cbor_read(b@) == Some(v@)),
        match r {
            Ok(b) => b@ == cbor_written(v@),
            Err(e) => e is EncryptError,
        },
{
    match write_cbor(v) {
        Ok(Some(b)) => Ok(b),
        Ok(None) => Err(AbeError::EncryptError(String::from_str("CBOR encode error: item has no CBOR form"))),
        Err(m) => Err(AbeError::EncryptError(prefixed("CBOR encode error: ", m.as_str()))),
    }
}

/// The CBOR bytes of a master public key.
pub fn encode_mpk(mpk: &RawMpk) -> (r: Result<Vec<u8>, AbeError>)
    ensures
        match r {
            Ok(b) => b@ == cbor_written(item_cbor(kind::MPK, default_suite(), elems_body(mpk_elems(*mpk)))),
            Err(e) => e is EncryptError,
        },
        r is Ok,
        r matches Ok(b) ==> cbor_read(b@) == Some(item_cbor(kind::MPK, default_suite(), elems_body(mpk_elems(*mpk)))),
{
    proof { lemma_body_writable_mpk(*mpk); }
    encode(&items::encode_mpk(mpk))
}

/// The master public key held in CBOR bytes.
pub fn decode_mpk(data: &[u8]) -> (r: Result<RawMpk, AbeError>)
    ensures
        match cbor_read(data@) {
            None => r matches Err(AbeError::DecryptError(_)),
            Some(c) => match (r, mpk_decode(c)) {
                (Ok(m), Ok(e)) => mpk_elems(m) == e,
                (Err(AbeError::DecryptError(msg)), Err(e)) => msg@ == e,
                _ => false,
            },
        },
{
    let v = decode(data)?;
    items::decode_mpk(&v)
}

/// The CBOR bytes of a master secret key.
pub fn encode_msk(msk: &RawMsk) -> (r: Result<Vec<u8>, AbeError>)
    ensures
        match r {
            Ok(b) => b@ == cbor_written(item_cbor(kind::MSK, default_suite(), elems_body(msk_elems(*msk)))),
            Err(e) => e is EncryptError,
        },
        r is Ok,
        r matches Ok(b) ==> cbor_read(b@) == Some(item_cbor(kind::MSK, default_suite(), elems_body(msk_elems(*msk)))),
{
    proof { lemma_body_writable_msk(*msk); }
    encode(&items::encode_msk(msk))
}

/// The master secret key held in CBOR bytes.
pub fn decode_msk(data: &[u8]) -> (r: Result<RawMsk, AbeError>)
    ensures
        match cbor_read(data@) {
            None => r matches Err(AbeError::DecryptError(_)),
            Some(c) => match (r, msk_decode(c)) {
                (Ok(m), Ok(e)) => msk_elems(m) == e,
                (Err(AbeError::DecryptError(msg)), Err(e)) => msg@ == e,
                _ => false,
            },
        },
{
    let v = decode(data)?;
    items::decode_msk(&v)
}

/// The CBOR bytes of a user secret key.
pub fn encode_sk(sk: &RawSecretKey) -> (r: Result<Vec<u8>, AbeError>)
    ensures
        match r {
            Ok(b) => b@ == cbor_written(item_cbor(kind::SK, default_suite(), sk_body(sk@))),
            Err(e) => e is EncryptError,
        },
        r is Ok,
        r matches Ok(b) ==> cbor_read(b@) == Some(item_cbor(kind::SK, default_suite(), sk_body(sk@))),
{
    proof { lemma_body_writable_sk(sk@); }
    encode(&items::encode_sk(sk))
}

/// The user secret key held in CBOR bytes.
pub fn decode_sk(data: &[u8]) -> (r: Result<RawSecretKey, AbeError>)
    ensures
        match cbor_read(data@) {
            None => r matches Err(AbeError::DecryptError(_)),
            Some(c) => match (r, sk_decode(c)) {
                (Ok(sk), Ok(m)) => sk@ == m,
                (Err(AbeError::DecryptError(msg)), Err(e)) => msg@ == e,
                _ => false,
            },
        },
{
    let v = decode(data)?;
    items::decode_sk(&v)
}

/// The ciphertext held in CBOR bytes; one that lists more attributes than
/// it carries component elements for is refused.
pub fn decode_ct(data: &[u8]) -> (r: Result<RawCiphertext, AbeError>)
    ensures
        match cbor_read(data@) {
            None => r matches Err(AbeError::DecryptError(_)),
            Some(c) => match ct_decode(c) {
                Ok(m) => r matches Ok(ct) && ct@ == m,
                Err(e) => is_decode_error(r, e),
            },
        },
{
    let v = decode(data)?;
    items::decode_ct(&v)
}

/// A Waters ciphertext with its symmetric payload.
#[derive(Clone, Debug)]
pub struct RawFullCiphertext {
    /// The ABE ciphertext.
    pub abe_ct: RawCiphertext,
    /// The symmetric ciphertext of the payload.
    pub sym_ct: Vec<u8>,
}

/// A CCA-secure Waters ciphertext: the CPA ciphertext, the encrypted
/// message and a 16-byte identifier.
#[derive(Clone, Debug)]
pub struct RawCcaCiphertext {
    /// The CPA ciphertext.
    pub cpa_ct: RawCiphertext,
    /// The encrypted message.
    pub encrypted_m: Vec<u8>,
    /// The identifier.
    pub uid: [u8; 16],
}

/// A CCA-secure ciphertext with its symmetric payload.
#[derive(Clone, Debug)]
pub struct RawCcaFullCiphertext {
    /// The CCA-secure ciphertext.
    pub cca_ct: RawCcaCiphertext,
    /// The symmetric ciphertext of the payload.
    pub sym_ct: Vec<u8>,
}

/// Whether `r` is a decryption error with message `msg`.
pub open spec fn is_error_msg<T>(r: Result<T, AbeError>, msg: Seq<char>) -> bool {
    r matches Err(AbeError::DecryptError(m)) && m@ == msg
}

/// A ciphertext read from bytes, or why it cannot be (`None` where the
/// bytes hold no item the library reads).
pub open spec fn ct_from_bytes(b: Seq<u8>) -> Result<CiphertextModel, Option<DecodeError>> {
    match cbor_read(b) {
        None => Err(None),
        Some(c) => match ct_decode(c) {
            Ok(m) => Ok(m),
            Err(e) => Err(Some(e)),
        },
    }
}

/// Whether `r` is the error `e` describes: any decryption error for bytes
/// that hold no item.
pub open spec fn is_read_error<T>(r: Result<T, AbeError>, e: Option<DecodeError>) -> bool {
    match e {
        None => r matches Err(AbeError::DecryptError(_)),
        Some(d) => is_decode_error(r, d),
    }
}

/// The map under key 5 of an untagged item whose kind is not looked at, or
/// why there is none; `what` names the item.
pub open spec fn loose_body(c: Cbor, what: Seq<char>) -> Result<Seq<(Cbor, Cbor)>, Seq<char>> {
    match untagged(c) {
        Cbor::Dict(m) => match lookup(m, 5) {
            Some(Cbor::Dict(b)) => Ok(b),
            Some(_) => Err("Body must be map"@),
            None => Err("Missing body"@),
        },
        _ => Err(what + " must be map"@),
    }
}

/// The byte string under `key` of a map, if there is one.
pub open spec fn bytes_at(m: Seq<(Cbor, Cbor)>, key: int) -> Option<Seq<u8>> {
    match lookup(m, key) {
        Some(Cbor::Bytes(b)) => Some(b),
        _ => None,
    }
}

/// The first 16 bytes of `b`, padded with zeros.
pub open spec fn uid_of(b: Seq<u8>) -> Seq<u8> {
    Seq::new(16, |i: int| if i < b.len() { b[i] } else { 0u8 })
}

/// The CPA ciphertext, encrypted message and identifier that CCA bytes
/// hold, when `decode_cca_ct` reads them.
pub open spec fn cca_decode(data: Seq<u8>) -> Option<(CiphertextModel, Seq<u8>, Seq<u8>)> {
    match cbor_read(data) {
        None => None,
        Some(c) => match untagged(c) {
            Cbor::Dict(map) => match lookup(map, 1) {
                Some(sv) => match suite_decode(sv) {
                    Ok(suite) => if suite.scheme_id == "cpabe-waters-cca"@ {
                        match loose_body(c, "CCA CT"@) {
                            Ok(body) => match bytes_at(body, 0) {
                                Some(cb) => match ct_from_bytes(cb) {
                                    Ok(m) => match (bytes_at(body, 1), bytes_at(body, 2)) {
                                        (Some(em), Some(u)) => Some((m, em, uid_of(u))),
                                        _ => None,
                                    },
                                    _ => None,
                                },
                                None => None,
                            },
                            _ => None,
                        }
                    } else {
                        None
                    },
                    _ => None,
                },
                None => None,
            },
            _ => None,
        },
    }
}

/// The untagged form of an item.
fn untag(value: &CborValue) -> (r: &CborValue)
    ensures
        r@ == untagged(value@),
{
    match value {
        CborValue::Tag(t, b) => if *t == ABE_CBOR_TAG {
            &**b
        } else {
            value
        },
        _ => value,
    }
}

/// The byte string under `key` of a map.
fn bytes_entry(m: &Vec<(CborValue, CborValue)>, key: u64) -> (r: Option<&Vec<u8>>)
    ensures
        match r {
            Some(b) => bytes_at(pair_views(m@), key as int) == Some(b@),
            None => bytes_at(pair_views(m@), key as int) is None,
        },
{
    match map_get(m.as_slice(), key) {
        Some(CborValue::Bytes(b)) => Some(b),
        _ => None,
    }
}

/// The body of an item, as `loose_body` describes it.
fn loose_body_of<'a>(value: &'a CborValue, what: &str) -> (r: Result<&'a Vec<(CborValue, CborValue)>, AbeError>)
    ensures
        match loose_body(value@, what@) {
            Ok(b) => r matches Ok(v) && pair_views(v@) == b,
            Err(e) => is_error_msg(r, e),
        },
{
    let map = match untag(value) {
        CborValue::Dict(m) => m,
        _ => return Err(AbeError::DecryptError(prefixed(what, " must be map"))),
    };
    match map_get(map.as_slice(), 5) {
        Some(CborValue::Dict(b)) => Ok(b),
        Some(_) => Err(AbeError::DecryptError(String::from_str("Body must be map"))),
        None => Err(AbeError::DecryptError(String::from_str("Missing body"))),
    }
}

/// The first 16 bytes of `b`, padded with zeros.
fn uid_from(b: &Vec<u8>) -> (r: [u8; 16])
    ensures
        r@ == uid_of(b@),
{
    let mut uid = [0u8; 16];
    let mut i: usize = 0;
    while i < 16 && i < b.len()
        invariant
            i <= 16,
            i <= b@.len(),
            uid@.len() == 16,
            forall|j: int| 0 <= j < i ==> uid@[j] == b@[j],
            forall|j: int| i <= j < 16 ==> uid@[j] == 0,
        decreases 16 - i,
    {
        uid[i] = b[i];
        i = i + 1;
    }
    assert(uid@ =~= uid_of(b@));
    uid
}

/// A Waters ciphertext with its payload, held in CBOR bytes: the body's
/// byte string 0 is the ciphertext's own CBOR bytes, byte string 1 the
/// payload.
pub fn decode_full_ct(data: &[u8]) -> (r: Result<RawFullCiphertext, AbeError>)
    ensures
        match cbor_read(data@) {
            None => r matches Err(AbeError::DecryptError(_)),
            Some(c) => match loose_body(c, "Full CT"@) {
                Err(e) => is_error_msg(r, e),
                Ok(body) => match bytes_at(body, 0) {
                    None => is_error_msg(r, "Missing ABE ciphertext"@),
                    Some(cb) => match ct_from_bytes(cb) {
                        Err(e) => is_read_error(r, e),
                        Ok(m) => match bytes_at(body, 1) {
                            None => is_error_msg(r, "Missing sym_ct"@),
                            Some(sym) => r matches Ok(f) && f.abe_ct@ == m && f.sym_ct@ == sym,
                        },
                    },
                },
            },
        },
{
    let v = decode(data)?;
    let body = loose_body_of(&v, "Full CT")?;
    let ct_bytes = match bytes_entry(body, 0) {
        Some(b) => b,
        None => return Err(AbeError::DecryptError(String::from_str("Missing ABE ciphertext"))),
    };
    let abe_ct = decode_ct(ct_bytes.as_slice())?;
    let sym_ct = match bytes_entry(body, 1) {
        Some(b) => b.clone(),
        None => return Err(AbeError::DecryptError(String::from_str("Missing sym_ct"))),
    };
    Ok(RawFullCiphertext { abe_ct, sym_ct })
}

/// A CCA-secure ciphertext held in CBOR bytes: its suite must name
/// CCA-secure Waters; the body's byte string 0 is the CPA ciphertext's own
/// CBOR bytes, 1 the encrypted message, 2 the identifier (its first 16
/// bytes, padded with zeros).
pub fn decode_cca_ct(data: &[u8]) -> (r: Result<RawCcaCiphertext, AbeError>)
    ensures
        match cbor_read(data@) {
            None => r matches Err(AbeError::DecryptError(_)),
            Some(c) => match untagged(c) {
                Cbor::Dict(map) => match lookup(map, 1) {
                    None => is_error_msg(r, "Missing suite"@),
                    Some(sv) => match suite_decode(sv) {
                        Err(e) => is_error_msg(r, e),
                        Ok(suite) => if suite.scheme_id != "cpabe-waters-cca"@ {
                            is_error_msg(r, "Expected scheme cpabe-waters-cca, got "@ + suite.scheme_id)
                        } else {
                            match loose_body(c, "CCA CT"@) {
                                Err(e) => is_error_msg(r, e),
                                Ok(body) => match bytes_at(body, 0) {
                                    None => is_error_msg(r, "Missing CPA ciphertext"@),
                                    Some(cb) => match ct_from_bytes(cb) {
                                        Err(e) => is_read_error(r, e),
                                        Ok(m) => match (bytes_at(body, 1), bytes_at(body, 2)) {
                                            (None, _) => is_error_msg(r, "Missing encrypted_m"@),
                                            (Some(_), None) => is_error_msg(r, "Missing uid"@),
                                            (Some(em), Some(u)) => r matches Ok(ct) && ct.cpa_ct@ == m
                                                && ct.encrypted_m@ == em && ct.uid@ == uid_of(u),
                                        },
                                    },
                                },
                            }
                        },
                    },
                },
                _ => is_error_msg(r, "CCA CT must be map"@),
            },
        },
        match cca_decode(data@) {
            Some(t) => r matches Ok(ct) && ct.cpa_ct@ == t.0 && ct.encrypted_m@ == t.1 && ct.uid@ == t.2,
            None => r is Err,
        },
{
    let v = decode(data)?;
    let map = match untag(&v) {
        CborValue::Dict(m) => m,
        _ => return Err(AbeError::DecryptError(String::from_str("CCA CT must be map"))),
    };
    let suite_val = match map_get(map.as_slice(), 1) {
        Some(sv) => sv,
        None => return Err(AbeError::DecryptError(String::from_str("Missing suite"))),
    };
    let suite = Suite::from_cbor(suite_val)?;
    if !crate::text::str_eq(suite.scheme_id.as_str(), scheme::CPABE_WATERS_CCA) {
        proof { reveal_strlit("cpabe-waters-cca"); }
        return Err(AbeError::DecryptError(prefixed("Expected scheme cpabe-waters-cca, got ", suite.scheme_id.as_str())));
    }
    let body = loose_body_of(&v, "CCA CT")?;
    let cpa_bytes = match bytes_entry(body, 0) {
        Some(b) => b,
        None => return Err(AbeError::DecryptError(String::from_str("Missing CPA ciphertext"))),
    };
    let cpa_ct = decode_ct(cpa_bytes.as_slice())?;
    let encrypted_m = match bytes_entry(body, 1) {
        Some(b) => b.clone(),
        None => return Err(AbeError::DecryptError(String::from_str("Missing encrypted_m"))),
    };
    let uid_bytes = match bytes_entry(body, 2) {
        Some(b) => b,
        None => return Err(AbeError::DecryptError(String::from_str("Missing uid"))),
    };
    Ok(RawCcaCiphertext { cpa_ct, encrypted_m, uid: uid_from(uid_bytes) })
}

/// A CCA-secure ciphertext with its payload, held in CBOR bytes: the
/// body's byte string 0 is the CCA-secure ciphertext's own CBOR bytes, 1
/// the payload.
pub fn decode_cca_full_ct(data: &[u8]) -> (r: Result<RawCcaFullCiphertext, AbeError>)
    ensures
        match cbor_read(data@) {
            None => r matches Err(AbeError::DecryptError(_)),
            Some(c) => match loose_body(c, "CCA Full CT"@) {
                Err(e) => is_error_msg(r, e),
                Ok(body) => match bytes_at(body, 0) {
                    None => is_error_msg(r, "Missing CCA ciphertext"@),
                    Some(cb) => match cca_decode(cb) {
                        None => r is Err,
                        Some(t) => match bytes_at(body, 1) {
                            None => is_error_msg(r, "Missing sym_ct"@),
                            Some(sym) => r matches Ok(f) && f.cca_ct.cpa_ct@ == t.0 && f.cca_ct.encrypted_m@ == t.1
                                && f.cca_ct.uid@ == t.2 && f.sym_ct@ == sym,
                        },
                    },
                },
            },
        },
{
    let v = decode(data)?;
    let body = loose_body_of(&v, "CCA Full CT")?;
    let cca_bytes = match bytes_entry(body, 0) {
        Some(b) => b,
        None => return Err(AbeError::DecryptError(String::from_str("Missing CCA ciphertext"))),
    };
    let cca_ct = decode_cca_ct(cca_bytes.as_slice())?;
    let sym_ct = match bytes_entry(body, 1) {
        Some(b) => b.clone(),
        None => return Err(AbeError::DecryptError(String::from_str("Missing sym_ct"))),
    };
    Ok(RawCcaFullCiphertext { cca_ct, sym_ct })
}

/// Bytes that read back as the item `encode_mpk`, `encode_msk` or
/// `encode_sk` lays out are decoded as the key written: what `decode_mpk`,
/// `decode_msk` and `decode_sk` return on the bytes those encoders give.
pub proof fn lemma_key_bytes_round_trip(mpk: RawMpk, msk: RawMsk, sk: items::SecretKeyModel)
    ensures
        mpk_decode(item_cbor(kind::MPK, default_suite(), elems_body(mpk_elems(mpk)))) == Ok::<Seq<Seq<u8>>, Seq<char>>(mpk_elems(mpk)),
        msk_decode(item_cbor(kind::MSK, default_suite(), elems_body(msk_elems(msk)))) == Ok::<Seq<Seq<u8>>, Seq<char>>(msk_elems(msk)),
        items::all_components_held(sk) ==> sk_decode(item_cbor(kind::SK, default_suite(), sk_body(sk))) == Ok::<
            items::SecretKeyModel,
            Seq<char>,
        >(items::sk_read_back(sk)),
{
    items::lemma_mpk_round_trip(mpk);
    items::lemma_msk_round_trip(msk);
    items::lemma_sk_round_trip(sk);
}

} // verus!
