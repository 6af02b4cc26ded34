//! Whole ABE-CBOR items: the ABE-CBOR tag around a map of kind, suite,
//! version and body, with the bodies of master keys and user keys. Group
//! elements are carried as the byte strings they are encoded as; turning
//! them into points of the curve, and checking that they are, is the
//! pairing library's part.

use vstd::prelude::*;
use crate::error::AbeError;
use crate::text::decimal;
use crate::text::push_decimal;
use crate::cbor::ABE_CBOR_TAG;
use crate::cbor::ABE_CBOR_VERSION;
use crate::cbor::Cbor;
use crate::cbor::CborValue;
use crate::cbor::Suite;
use crate::cbor::SuiteModel;
use crate::cbor::suite_cbor;
use crate::cbor::default_suite;
use crate::cbor::lookup;
use crate::cbor::pair_views;
use crate::cbor::map_insert;
use crate::cbor::map_get;
use crate::cbor::kind;
use crate::cbor::group_elems_cbor;
use crate::cbor::group_elems_decode;
use crate::cbor::byte_views;
use crate::cbor::encode_group_elems;
use crate::cbor::decode_group_elems;
use crate::cbor::lemma_group_elems_round_trip;
use crate::cbor::attr_list_cbor;
use crate::cbor::attr_set_decode;
use crate::cbor::encode_attr_list;
use crate::cbor::decode_attr_set;
use crate::cbor::sorted_strings;
use crate::cbor::lemma_attr_list_round_trip;
use crate::lsss::sort_strings;
use crate::lsss::Policy;
use crate::lsss::PolicyNode;
use crate::cbor::rpn_decode;
use crate::cbor::rpn_to_policy;
use crate::cbor::cbor_views;
use crate::cbor::lemma_cbor_views;
use crate::text::sort_by_key;
use crate::text::insert_by_key;
use crate::text::lemma_sort_by_key_elements;
use crate::text::names;
use crate::text::str_eq;

verus! {

/// An item laid out for the wire: the ABE-CBOR tag around `{0: kind, 1:
/// suite, 2: version, 5: body}`.
pub open spec fn item_cbor(kind: u64, suite: SuiteModel, body: Seq<(Cbor, Cbor)>) -> Cbor {
    Cbor::Tag(
        ABE_CBOR_TAG as nat,
        Box::new(
            Cbor::Dict(
                seq![
                    (Cbor::Integer(0), Cbor::Integer(kind as int)),
                    (Cbor::Integer(1), suite_cbor(suite)),
                    (Cbor::Integer(2), Cbor::Integer(ABE_CBOR_VERSION as int)),
                    (Cbor::Integer(5), Cbor::Dict(body)),
                ],
            ),
        ),
    )
}

/// An item without its ABE-CBOR tag, if it has one.
pub open spec fn untagged(c: Cbor) -> Cbor {
    match c {
        Cbor::Tag(t, b) => if t == ABE_CBOR_TAG {
            *b
        } else {
            c
        },
        _ => c,
    }
}

/// The body of an item of kind `kind` read back, or why it cannot be: the
/// tag is optional, the suite and version are not looked at. `what` names
/// the item in the errors.
pub open spec fn item_body_decode(c: Cbor, kind: u64, what: Seq<char>) -> Result<Seq<(Cbor, Cbor)>, Seq<char>> {
    match untagged(c) {
        Cbor::Dict(m) => match lookup(m, 0) {
            Some(Cbor::Integer(k)) => if 0 <= k <= u64::MAX {
                if k == kind {
                    match lookup(m, 5) {
                        Some(Cbor::Dict(body)) => Ok(body),
                        Some(_) => Err("Body must be map"@),
                        None => Err("Missing body"@),
                    }
                } else {
                    Err("Expected "@ + what + " (kind="@ + decimal(kind as nat) + "), got kind="@ + decimal(k as nat))
                }
            } else {
                Err("Kind must be uint"@)
            },
            _ => Err("Kind must be uint"@),
        },
        _ => Err(what + " must be map"@),
    }
}

/// Lays an item of kind `kind` out under `suite`, around `body`.
pub fn encode_item(kind: u64, suite: &Suite, body: Vec<(CborValue, CborValue)>) -> (c: CborValue)
    ensures
        c@ == item_cbor(kind, suite@, pair_views(body@)),
{
    let ghost b = pair_views(body@);
    let mut item: Vec<(CborValue, CborValue)> = Vec::new();
    assert(pair_views(item@) =~= Seq::<(Cbor, Cbor)>::empty());
    map_insert(&mut item, 0, CborValue::Integer(kind as i128));
    map_insert(&mut item, 1, suite.to_cbor());
    map_insert(&mut item, 2, CborValue::Integer(ABE_CBOR_VERSION as i128));
    let body_value = CborValue::Dict(body);
    assert(body_value@ == Cbor::Dict(b));
    map_insert(&mut item, 5, body_value);
    let ghost m = pair_views(item@);
    assert(m =~= item_cbor(kind, suite@, b)->Tag_1->Dict_0);
    let inner = CborValue::Dict(item);
    assert(inner@ == Cbor::Dict(m));
    let c = CborValue::Tag(ABE_CBOR_TAG, Box::new(inner));
    assert(c@ == Cbor::Tag(ABE_CBOR_TAG as nat, Box::new(Cbor::Dict(m))));
    c
}

/// A decryption error with the given message.
fn decode_error(msg: String) -> (e: AbeError)
    ensures
        e == AbeError::DecryptError(msg),
{
    AbeError::DecryptError(msg)
}

/// The body of an item of kind `kind`, as `item_body_decode` describes it;
/// errors are decryption errors.
pub fn decode_item_body<'a>(value: &'a CborValue, kind: u64, what: &str) -> (r: Result<&'a Vec<(CborValue, CborValue)>, AbeError>)
    ensures
        match (r, item_body_decode(value@, kind, what@)) {
            (Ok(b), Ok(m)) => pair_views(b@) == m,
            (Err(AbeError::DecryptError(msg)), Err(e)) => msg@ == e,
            _ => false,
        },
{
    let inner: &CborValue = match value {
        CborValue::Tag(t, b) => if *t == ABE_CBOR_TAG {
            &**b
        } else {
            value
        },
        _ => value,
    };
    assert(inner@ == untagged(value@));
    let map = match inner {
        CborValue::Dict(m) => m,
        _ => {
            let mut msg = String::from_str(what);
            msg.append(" must be map");
            return Err(decode_error(msg));
        },
    };
    let k: u64 = match map_get(map.as_slice(), 0) {
        Some(CborValue::Integer(i)) => {
            if 0 <= *i && *i <= u64::MAX as i128 {
                *i as u64
            } else {
                return Err(decode_error(String::from_str("Kind must be uint")));
            }
        },
        _ => {
            return Err(decode_error(String::from_str("Kind must be uint")));
        },
    };
    if k != kind {
        let mut msg = String::from_str("Expected ");
        msg.append(what);
        msg.append(" (kind=");
        push_decimal(&mut msg, kind);
        msg.append("), got kind=");
        push_decimal(&mut msg, k);
        return Err(decode_error(msg));
    }
    match map_get(map.as_slice(), 5) {
        Some(CborValue::Dict(body)) => Ok(body),
        Some(_) => Err(decode_error(String::from_str("Body must be map"))),
        None => Err(decode_error(String::from_str("Missing body"))),
    }
}

/// The body of an item laid out by `item_cbor` is read back whole.
pub proof fn lemma_item_round_trip(kind: u64, suite: SuiteModel, body: Seq<(Cbor, Cbor)>, what: Seq<char>)
    ensures
        item_body_decode(item_cbor(kind, suite, body), kind, what) == Ok::<Seq<(Cbor, Cbor)>, Seq<char>>(body),
{
    let m = item_cbor(kind, suite, body)->Tag_1->Dict_0;
    assert(lookup(m, 0) == Some(Cbor::Integer(kind as int)));
    assert(m.drop_first().drop_first().drop_first()[0] == m[3]);
    assert(lookup(m.drop_first().drop_first().drop_first(), 5) == Some(Cbor::Dict(body)));
    assert(m.drop_first().drop_first()[0] == m[2]);
    assert(lookup(m.drop_first().drop_first(), 5) == Some(Cbor::Dict(body)));
    assert(m.drop_first()[0] == m[1]);
    assert(lookup(m.drop_first(), 5) == Some(Cbor::Dict(body)));
    assert(lookup(m, 5) == Some(Cbor::Dict(body)));
}

/// The group elements an item of kind `kind` carries under key 0 of its
/// body, read back, or why they cannot be.
pub open spec fn item_elems_decode(c: Cbor, kind: u64, what: Seq<char>) -> Result<Seq<Seq<u8>>, Seq<char>> {
    match item_body_decode(c, kind, what) {
        Err(e) => Err(e),
        Ok(body) => match lookup(body, 0) {
            None => Err("Missing group elems"@),
            Some(v) => group_elems_decode(v),
        },
    }
}

/// The group elements of an item of kind `kind`, as `item_elems_decode`
/// describes them; errors are decryption errors.
fn decode_item_elems(value: &CborValue, kind: u64, what: &str) -> (r: Result<Vec<Vec<u8>>, AbeError>)
    ensures
        match (r, item_elems_decode(value@, kind, what@)) {
            (Ok(v), Ok(w)) => byte_views(v@) == w,
            (Err(AbeError::DecryptError(msg)), Err(e)) => msg@ == e,
            _ => false,
        },
{
    let body = decode_item_body(value, kind, what)?;
    let elems_val = match map_get(body.as_slice(), 0) {
        Some(v) => v,
        None => {
            return Err(decode_error(String::from_str("Missing group elems")));
        },
    };
    decode_group_elems(elems_val)
}

/// A body holding only group elements, under key 0.
pub open spec fn elems_body(elems: Seq<Seq<u8>>) -> Seq<(Cbor, Cbor)> {
    seq![(Cbor::Integer(0), group_elems_cbor(elems))]
}

/// Lays out an item of the default suite whose body holds only the given
/// group elements.
fn encode_elems_item(kind: u64, elems: &Vec<Vec<u8>>) -> (c: CborValue)
    ensures
        c@ == item_cbor(kind, default_suite(), elems_body(byte_views(elems@))),
{
    let mut body: Vec<(CborValue, CborValue)> = Vec::new();
    assert(pair_views(body@) =~= Seq::<(Cbor, Cbor)>::empty());
    map_insert(&mut body, 0, encode_group_elems(elems.as_slice()));
    assert(pair_views(body@) =~= elems_body(byte_views(elems@)));
    encode_item(kind, &Suite::default(), body)
}

/// Group elements laid out in an item's body are read back whole.
pub proof fn lemma_elems_item_round_trip(kind: u64, suite: SuiteModel, elems: Seq<Seq<u8>>, what: Seq<char>)
    ensures
        item_elems_decode(item_cbor(kind, suite, elems_body(elems)), kind, what) == Ok::<Seq<Seq<u8>>, Seq<char>>(elems),
{
    lemma_item_round_trip(kind, suite, elems_body(elems), what);
    lemma_group_elems_round_trip(elems);
    assert(lookup(elems_body(elems), 0) == Some(group_elems_cbor(elems)));
}

/// A master public key, its group elements by their encodings, and the
/// key of the attribute hash.
#[derive(Clone, Debug)]
pub struct RawMpk {
    /// The generator of G1.
    pub g1: Vec<u8>,
    /// The generator of G2.
    pub g2: Vec<u8>,
    /// `g1^a`.
    pub g1a: Vec<u8>,
    /// `g2^alpha`.
    pub g2alpha: Vec<u8>,
    /// `e(g1, g2)^alpha`.
    pub egg_alpha: Vec<u8>,
    /// The key of the attribute hash.
    pub k: Vec<u8>,
}

/// The elements of a master public key, in their order on the wire.
pub open spec fn mpk_elems(m: RawMpk) -> Seq<Seq<u8>> {
    seq![m.g1@, m.g2@, m.g1a@, m.g2alpha@, m.egg_alpha@, m.k@]
}

/// A master public key read back: its six elements, or why not.
pub open spec fn mpk_decode(c: Cbor) -> Result<Seq<Seq<u8>>, Seq<char>> {
    match item_elems_decode(c, kind::MPK, "MPK"@) {
        Err(e) => Err(e),
        Ok(elems) => if elems.len() < 6 {
            Err("MPK requires 6 group elements"@)
        } else {
            Ok(elems.take(6))
        },
    }
}

/// Lays a master public key out as an item.
pub fn encode_mpk(mpk: &RawMpk) -> (c: CborValue)
    ensures
        c@ == item_cbor(kind::MPK, default_suite(), elems_body(mpk_elems(*mpk))),
{
    let mut elems: Vec<Vec<u8>> = Vec::new();
    elems.push(mpk.g1.clone());
    elems.push(mpk.g2.clone());
    elems.push(mpk.g1a.clone());
    elems.push(mpk.g2alpha.clone());
    elems.push(mpk.egg_alpha.clone());
    elems.push(mpk.k.clone());
    assert(byte_views(elems@) =~= mpk_elems(*mpk));
    encode_elems_item(kind::MPK, &elems)
}

/// Reads a master public key back, as `mpk_decode` describes it; errors are
/// decryption errors. Elements past the sixth are ignored.
pub fn decode_mpk(value: &CborValue) -> (r: Result<RawMpk, AbeError>)
    ensures
        match (r, mpk_decode(value@)) {
            (Ok(m), Ok(e)) => mpk_elems(m) == e,
            (Err(AbeError::DecryptError(msg)), Err(e)) => msg@ == e,
            _ => false,
        },
{
    let elems = decode_item_elems(value, kind::MPK, "MPK")?;
    if elems.len() < 6 {
        return Err(decode_error(String::from_str("MPK requires 6 group elements")));
    }
    let m = RawMpk {
        g1: elems[0].clone(),
        g2: elems[1].clone(),
        g1a: elems[2].clone(),
        g2alpha: elems[3].clone(),
        egg_alpha: elems[4].clone(),
        k: elems[5].clone(),
    };
    assert(mpk_elems(m) =~= byte_views(elems@).take(6));
    Ok(m)
}

/// A master public key survives being laid out and read back.
pub proof fn lemma_mpk_round_trip(m: RawMpk)
    ensures
        mpk_decode(item_cbor(kind::MPK, default_suite(), elems_body(mpk_elems(m)))) == Ok::<Seq<Seq<u8>>, Seq<char>>(mpk_elems(m)),
{
    lemma_elems_item_round_trip(kind::MPK, default_suite(), mpk_elems(m), "MPK"@);
    assert(mpk_elems(m).take(6) =~= mpk_elems(m));
}

/// A master secret key, its elements by their encodings.
#[derive(Clone, Debug)]
pub struct RawMsk {
    /// The master secret `alpha`.
    pub alpha: Vec<u8>,
    /// `g2^a`.
    pub g2a: Vec<u8>,
}

/// The elements of a master secret key, in their order on the wire.
pub open spec fn msk_elems(m: RawMsk) -> Seq<Seq<u8>> {
    seq![m.alpha@, m.g2a@]
}

/// A master secret key read back: its two elements, or why not.
pub open spec fn msk_decode(c: Cbor) -> Result<Seq<Seq<u8>>, Seq<char>> {
    match item_elems_decode(c, kind::MSK, "MSK"@) {
        Err(e) => Err(e),
        Ok(elems) => if elems.len() < 2 {
            Err("MSK requires 2 elements"@)
        } else {
            Ok(elems.take(2))
        },
    }
}

/// Lays a master secret key out as an item.
pub fn encode_msk(msk: &RawMsk) -> (c: CborValue)
    ensures
        c@ == item_cbor(kind::MSK, default_suite(), elems_body(msk_elems(*msk))),
{
    let mut elems: Vec<Vec<u8>> = Vec::new();
    elems.push(msk.alpha.clone());
    elems.push(msk.g2a.clone());
    assert(byte_views(elems@) =~= msk_elems(*msk));
    encode_elems_item(kind::MSK, &elems)
}

/// Reads a master secret key back, as `msk_decode` describes it; errors are
/// decryption errors. Elements past the second are ignored.
pub fn decode_msk(value: &CborValue) -> (r: Result<RawMsk, AbeError>)
    ensures
        match (r, msk_decode(value@)) {
            (Ok(m), Ok(e)) => msk_elems(m) == e,
            (Err(AbeError::DecryptError(msg)), Err(e)) => msg@ == e,
            _ => false,
        },
{
    let elems = decode_item_elems(value, kind::MSK, "MSK")?;
    if elems.len() < 2 {
        return Err(decode_error(String::from_str("MSK requires 2 elements")));
    }
    let m = RawMsk { alpha: elems[0].clone(), g2a: elems[1].clone() };
    assert(msk_elems(m) =~= byte_views(elems@).take(2));
    Ok(m)
}

/// A master secret key survives being laid out and read back.
pub proof fn lemma_msk_round_trip(m: RawMsk)
    ensures
        msk_decode(item_cbor(kind::MSK, default_suite(), elems_body(msk_elems(m)))) == Ok::<Seq<Seq<u8>>, Seq<char>>(msk_elems(m)),
{
    lemma_elems_item_round_trip(kind::MSK, default_suite(), msk_elems(m), "MSK"@);
    assert(msk_elems(m).take(2) =~= msk_elems(m));
}

/// A user secret key: its two group elements and a component for each
/// attribute, by their encodings, and its attributes.
#[derive(Clone, Debug)]
pub struct RawSecretKey {
    /// `K`.
    pub k: Vec<u8>,
    /// `L`.
    pub l: Vec<u8>,
    /// The attribute components, each under its attribute.
    pub kx: Vec<(String, Vec<u8>)>,
    /// The attributes.
    pub attributes: Vec<String>,
}

/// A user secret key as mathematical values.
pub struct SecretKeyModel {
    pub k: Seq<u8>,
    pub l: Seq<u8>,
    pub kx: Seq<(Seq<char>, Seq<u8>)>,
    pub attributes: Seq<Seq<char>>,
}

/// The components as names and encodings.
pub open spec fn components_view(kx: Seq<(String, Vec<u8>)>) -> Seq<(Seq<char>, Seq<u8>)> {
    kx.map_values(|e: (String, Vec<u8>)| (e.0@, e.1@))
}

impl View for RawSecretKey {
    type V = SecretKeyModel;

    open spec fn view(&self) -> SecretKeyModel {
        SecretKeyModel {
            k: self.k@,
            l: self.l@,
            kx: components_view(self.kx@),
            attributes: names(self.attributes@),
        }
    }
}

/// The component under `a`: that of the last entry for `a`, as in a table
/// where a later entry replaces an earlier one.
pub open spec fn component_of(kx: Seq<(Seq<char>, Seq<u8>)>, a: Seq<char>) -> Option<Seq<u8>>
    decreases kx.len(),
{
    if kx.len() == 0 {
        None
    } else if kx.last().0 == a {
        Some(kx.last().1)
    } else {
        component_of(kx.drop_last(), a)
    }
}

/// The components of the listed attributes that the key holds, in the
/// attributes' order; attributes without one are passed over.
pub open spec fn components_for(kx: Seq<(Seq<char>, Seq<u8>)>, attrs: Seq<Seq<char>>) -> Seq<Seq<u8>>
    decreases attrs.len(),
{
    if attrs.len() == 0 {
        Seq::empty()
    } else {
        let rest = components_for(kx, attrs.drop_last());
        match component_of(kx, attrs.last()) {
            Some(e) => rest.push(e),
            None => rest,
        }
    }
}

/// The body of a user secret key: its elements `K`, `L` and the components
/// of its attributes in string order, then the attributes in that order.
pub open spec fn sk_body(sk: SecretKeyModel) -> Seq<(Cbor, Cbor)> {
    let sorted = sort_strings(sk.attributes);
    seq![
        (Cbor::Integer(0), group_elems_cbor(seq![sk.k, sk.l] + components_for(sk.kx, sorted))),
        (Cbor::Integer(1), attr_list_cbor(sorted)),
    ]
}

/// A user secret key read back, or why not: the attributes in the order
/// read, each with the element at its place after `K` and `L`.
pub open spec fn sk_decode(c: Cbor) -> Result<SecretKeyModel, Seq<char>> {
    match item_body_decode(c, kind::SK, "SK"@) {
        Err(e) => Err(e),
        Ok(body) => match lookup(body, 0) {
            None => Err("Missing group elems"@),
            Some(ev) => match group_elems_decode(ev) {
                Err(e) => Err(e),
                Ok(elems) => match lookup(body, 1) {
                    None => Err("Missing attr set"@),
                    Some(av) => match attr_set_decode(av) {
                        Err(e) => Err(e),
                        Ok(attrs) => if elems.len() < 2 + attrs.len() {
                            Err("SK: not enough group elements"@)
                        } else {
                            Ok(
                                SecretKeyModel {
                                    k: elems[0],
                                    l: elems[1],
                                    kx: Seq::new(attrs.len(), |i: int| (attrs[i], elems[2 + i])),
                                    attributes: attrs,
                                },
                            )
                        },
                    },
                },
            },
        },
    }
}

/// The index of the last component under `a`, if any.
fn find_component(kx: &Vec<(String, Vec<u8>)>, a: &str) -> (r: Option<usize>)
    ensures
        match r {
            Some(i) => i < kx@.len() && component_of(components_view(kx@), a@) == Some(kx@[i as int].1@),
            None => component_of(components_view(kx@), a@) is None,
        },
{
    let ghost cv = components_view(kx@);
    let mut i: usize = kx.len();
    assert(cv.take(i as int) =~= cv);
    while i > 0
        invariant
            cv == components_view(kx@),
            i <= kx@.len(),
            component_of(cv, a@) == component_of(cv.take(i as int), a@),
        decreases i,
    {
        proof {
            assert(cv.take(i as int).drop_last() =~= cv.take(i - 1));
            assert(cv.take(i as int).last() == cv[i - 1]);
        }
        if str_eq(kx[i - 1].0.as_str(), a) {
            return Some(i - 1);
        }
        i = i - 1;
    }
    None
}

/// Lays a user secret key out as an item; components are taken in the
/// string order of the attributes, and an attribute without one is passed
/// over.
pub fn encode_sk(sk: &RawSecretKey) -> (c: CborValue)
    ensures
        c@ == item_cbor(kind::SK, default_suite(), sk_body(sk@)),
{
    let sorted = sorted_strings(sk.attributes.as_slice());
    let ghost sv = sort_strings(names(sk.attributes@));
    let ghost kxv = components_view(sk.kx@);
    let mut elems: Vec<Vec<u8>> = Vec::new();
    elems.push(sk.k.clone());
    elems.push(sk.l.clone());
    let mut i: usize = 0;
    assert(sv.take(0) =~= Seq::<Seq<char>>::empty());
    assert(byte_views(elems@) =~= seq![sk.k@, sk.l@] + components_for(kxv, sv.take(0)));
    while i < sorted.len()
        invariant
            sv == names(sorted@),
            kxv == components_view(sk.kx@),
            i <= sorted@.len(),
            byte_views(elems@) == seq![sk.k@, sk.l@] + components_for(kxv, sv.take(i as int)),
        decreases sorted@.len() - i,
    {
        let ghost before = byte_views(elems@);
        proof {
            assert(sv.take(i + 1).drop_last() =~= sv.take(i as int));
            assert(sv.take(i + 1).last() == sorted@[i as int]@);
        }
        match find_component(&sk.kx, sorted[i].as_str()) {
            Some(j) => {
                elems.push(sk.kx[j].1.clone());
                assert(byte_views(elems@) =~= before.push(sk.kx@[j as int].1@));
            },
            None => {},
        }
        i = i + 1;
    }
    assert(sv.take(sorted@.len() as int) =~= sv);
    let mut body: Vec<(CborValue, CborValue)> = Vec::new();
    assert(pair_views(body@) =~= Seq::<(Cbor, Cbor)>::empty());
    map_insert(&mut body, 0, encode_group_elems(elems.as_slice()));
    map_insert(&mut body, 1, encode_attr_list(sorted.as_slice()));
    assert(pair_views(body@) =~= sk_body(sk@));
    encode_item(kind::SK, &Suite::default(), body)
}

/// Reads a user secret key back, as `sk_decode` describes it; errors are
/// decryption errors.
pub fn decode_sk(value: &CborValue) -> (r: Result<RawSecretKey, AbeError>)
    ensures
        match (r, sk_decode(value@)) {
            (Ok(sk), Ok(m)) => sk@ == m,
            (Err(AbeError::DecryptError(msg)), Err(e)) => msg@ == e,
            _ => false,
        },
{
    let body = decode_item_body(value, kind::SK, "SK")?;
    let elems_val = match map_get(body.as_slice(), 0) {
        Some(v) => v,
        None => {
            return Err(decode_error(String::from_str("Missing group elems")));
        },
    };
    let elems = decode_group_elems(elems_val)?;
    let attrs_val = match map_get(body.as_slice(), 1) {
        Some(v) => v,
        None => {
            return Err(decode_error(String::from_str("Missing attr set")));
        },
    };
    let attributes = decode_attr_set(attrs_val)?;
    if elems.len() < 2 || elems.len() - 2 < attributes.len() {
        return Err(decode_error(String::from_str("SK: not enough group elements")));
    }
    let ghost ev = byte_views(elems@);
    let ghost av = names(attributes@);
    let n_elems = elems.len();
    let mut kx: Vec<(String, Vec<u8>)> = Vec::new();
    let mut i: usize = 0;
    while i < attributes.len()
        invariant
            ev == byte_views(elems@),
            av == names(attributes@),
            elems@.len() >= 2 + attributes@.len(),
            n_elems == elems@.len(),
            i <= attributes@.len(),
            kx@.len() == i,
            forall|j: int| 0 <= j < i ==> (#[trigger] components_view(kx@)[j]) == (av[j], ev[2 + j]),
        decreases attributes@.len() - i,
    {
        assert(2 + i < n_elems);
        let name = String::from_str(attributes[i].as_str());
        let elem = elems[2 + i].clone();
        assert(elem@ == ev[2 + i]);
        assert(name@ == av[i as int]);
        let ghost before = kx@;
        let ghost entry = (name@, elem@);
        kx.push((name, elem));
        proof {
            assert(components_view(kx@)[i as int] == entry);
            assert forall|j: int| 0 <= j < i + 1 implies (#[trigger] components_view(kx@)[j]) == (av[j], ev[2 + j]) by {
                if j < i {
                    assert(kx@[j] == before[j]);
                    assert(components_view(before)[j] == (av[j], ev[2 + j]));
                }
            }
        }
        i = i + 1;
    }
    let sk = RawSecretKey { k: elems[0].clone(), l: elems[1].clone(), kx, attributes };
    assert(components_view(sk.kx@) =~= Seq::new(av.len(), |j: int| (av[j], ev[2 + j])));
    Ok(sk)
}

/// Whether every attribute of the key has a component.
pub open spec fn all_components_held(sk: SecretKeyModel) -> bool {
    forall|i: int| 0 <= i < sk.attributes.len() ==> (#[trigger] component_of(sk.kx, sk.attributes[i])) is Some
}

/// The key read back from a key whose attributes all have components: the
/// attributes in string order, each with its component.
pub open spec fn sk_read_back(sk: SecretKeyModel) -> SecretKeyModel {
    let sorted = sort_strings(sk.attributes);
    SecretKeyModel {
        k: sk.k,
        l: sk.l,
        kx: Seq::new(sorted.len(), |i: int| (sorted[i], component_of(sk.kx, sorted[i])->Some_0)),
        attributes: sorted,
    }
}

/// Inserting keeps every element of the sequence inserted into.
proof fn lemma_insert_by_key_keeps<T>(s: Seq<(Seq<char>, T)>, x: (Seq<char>, T))
    ensures
        insert_by_key(s, x).contains(x),
        forall|j: int| 0 <= j < s.len() ==> insert_by_key(s, x).contains(#[trigger] s[j]),
    decreases s.len(),
{
    let r = insert_by_key(s, x);
    if s.len() == 0 {
        assert(r[0] == x);
    } else if crate::text::lex_lt(x.0, s[0].0) {
        assert(r[0] == x);
        assert forall|j: int| 0 <= j < s.len() implies r.contains(#[trigger] s[j]) by {
            assert(r[j + 1] == s[j]);
        }
    } else {
        let t = s.drop_first();
        lemma_insert_by_key_keeps(t, x);
        let rt = insert_by_key(t, x);
        assert(r == seq![s[0]] + rt);
        let k = choose|k: int| 0 <= k < rt.len() && rt[k] == x;
        assert(r[k + 1] == x);
        assert forall|j: int| 0 <= j < s.len() implies r.contains(#[trigger] s[j]) by {
            if j == 0 {
                assert(r[0] == s[0]);
            } else {
                assert(s[j] == t[j - 1]);
                let m = choose|m: int| 0 <= m < rt.len() && rt[m] == t[j - 1];
                assert(r[m + 1] == s[j]);
            }
        }
    }
}

/// Sorting keeps every element.
proof fn lemma_sort_by_key_keeps<T>(s: Seq<(Seq<char>, T)>)
    ensures
        forall|j: int| 0 <= j < s.len() ==> sort_by_key(s).contains(#[trigger] s[j]),
    decreases s.len(),
{
    if s.len() > 0 {
        let d = s.drop_last();
        lemma_sort_by_key_keeps(d);
        lemma_insert_by_key_keeps(sort_by_key(d), s.last());
        assert forall|j: int| 0 <= j < s.len() implies sort_by_key(s).contains(#[trigger] s[j]) by {
            if j < s.len() - 1 {
                assert(s[j] == d[j]);
                let m = choose|m: int| 0 <= m < sort_by_key(d).len() && sort_by_key(d)[m] == d[j];
                assert(sort_by_key(d).contains(sort_by_key(d)[m]));
            }
        }
    }
}

/// Sorted strings are the strings themselves, rearranged: as many, each
/// sorted one among the given ones, and each given one among the sorted.
proof fn lemma_sort_strings_elements(ss: Seq<Seq<char>>)
    ensures
        sort_strings(ss).len() == ss.len(),
        forall|i: int| 0 <= i < ss.len() ==> ss.contains(#[trigger] sort_strings(ss)[i]),
        forall|j: int| 0 <= j < ss.len() ==> sort_strings(ss).contains(#[trigger] ss[j]),
{
    let p = ss.map_values(|x: Seq<char>| (x, ()));
    lemma_sort_by_key_elements(p);
    lemma_sort_by_key_keeps(p);
    let sp = sort_by_key(p);
    assert forall|i: int| 0 <= i < ss.len() implies ss.contains(#[trigger] sort_strings(ss)[i]) by {
        let j = choose|j: int| 0 <= j < p.len() && sp[i] == p[j];
        assert(ss[j] == sort_strings(ss)[i]);
    }
    assert forall|j: int| 0 <= j < ss.len() implies sort_strings(ss).contains(#[trigger] ss[j]) by {
        assert(sp.contains(p[j]));
        let i = choose|i: int| 0 <= i < sp.len() && sp[i] == p[j];
        assert(sort_strings(ss)[i] == ss[j]);
    }
}

/// The components found for a list of attributes number as many as the
/// attributes exactly when each has one, and are then theirs in order.
proof fn lemma_components_for(kx: Seq<(Seq<char>, Seq<u8>)>, attrs: Seq<Seq<char>>)
    ensures
        components_for(kx, attrs).len() <= attrs.len(),
        components_for(kx, attrs).len() == attrs.len() <==> forall|i: int| 0 <= i < attrs.len() ==> (#[trigger] component_of(kx, attrs[i])) is Some,
        components_for(kx, attrs).len() == attrs.len() ==> forall|i: int| 0 <= i < attrs.len() ==> (#[trigger] components_for(kx, attrs)[i]) == component_of(kx, attrs[i])->Some_0,
    decreases attrs.len(),
{
    if attrs.len() > 0 {
        let d = attrs.drop_last();
        lemma_components_for(kx, d);
        let c = components_for(kx, attrs);
        let cd = components_for(kx, d);
        if component_of(kx, attrs.last()) is Some {
            if cd.len() == d.len() {
                assert forall|i: int| 0 <= i < attrs.len() implies (#[trigger] c[i]) == component_of(kx, attrs[i])->Some_0 by {
                    if i < d.len() {
                        assert(attrs[i] == d[i]);
                    }
                }
                assert forall|i: int| 0 <= i < attrs.len() implies (#[trigger] component_of(kx, attrs[i])) is Some by {
                    if i < d.len() {
                        assert(attrs[i] == d[i]);
                    }
                }
            } else {
                let k = choose|k: int| 0 <= k < d.len() && !(#[trigger] component_of(kx, d[k]) is Some);
                assert(attrs[k] == d[k]);
            }
        } else {
            assert(!(component_of(kx, attrs[attrs.len() - 1]) is Some));
        }
    }
}

/// A user secret key survives being laid out and read back when each of
/// its attributes has a component, with its attributes in string order; a
/// key missing one is refused as short of elements.
pub proof fn lemma_sk_round_trip(sk: SecretKeyModel)
    ensures
        all_components_held(sk) ==> sk_decode(item_cbor(kind::SK, default_suite(), sk_body(sk))) == Ok::<
            SecretKeyModel,
            Seq<char>,
        >(sk_read_back(sk)),
        !all_components_held(sk) ==> sk_decode(item_cbor(kind::SK, default_suite(), sk_body(sk))) == Err::<
            SecretKeyModel,
            Seq<char>,
        >("SK: not enough group elements"@),
{
    let sorted = sort_strings(sk.attributes);
    let comps = components_for(sk.kx, sorted);
    let elems = seq![sk.k, sk.l] + comps;
    let body = sk_body(sk);
    lemma_item_round_trip(kind::SK, default_suite(), body, "SK"@);
    lemma_group_elems_round_trip(elems);
    lemma_attr_list_round_trip(sorted);
    assert(lookup(body, 0) == Some(group_elems_cbor(elems)));
    assert(body.drop_first()[0] == body[1]);
    assert(lookup(body.drop_first(), 1) == Some(attr_list_cbor(sorted)));
    assert(lookup(body, 1) == Some(attr_list_cbor(sorted)));
    lemma_sort_strings_elements(sk.attributes);
    lemma_components_for(sk.kx, sorted);
    if all_components_held(sk) {
        assert forall|i: int| 0 <= i < sorted.len() implies (#[trigger] component_of(sk.kx, sorted[i])) is Some by {
            assert(sk.attributes.contains(sorted[i]));
            let j = choose|j: int| 0 <= j < sk.attributes.len() && sk.attributes[j] == sorted[i];
            assert(component_of(sk.kx, sk.attributes[j]) is Some);
        }
        let m = SecretKeyModel {
            k: elems[0],
            l: elems[1],
            kx: Seq::new(sorted.len(), |i: int| (sorted[i], elems[2 + i])),
            attributes: sorted,
        };
        assert(m.kx =~= sk_read_back(sk).kx) by {
            assert forall|i: int| 0 <= i < sorted.len() implies m.kx[i] == sk_read_back(sk).kx[i] by {
                assert(elems[2 + i] == comps[i]);
                assert(comps[i] == component_of(sk.kx, sorted[i])->Some_0);
            }
        }
    } else {
        let j = choose|j: int| 0 <= j < sk.attributes.len() && !((#[trigger] component_of(sk.kx, sk.attributes[j])) is Some);
        assert(sorted.contains(sk.attributes[j]));
        let i = choose|i: int| 0 <= i < sorted.len() && sorted[i] == sk.attributes[j];
        assert(!(component_of(sk.kx, sorted[i]) is Some));
    }
}

/// Why an item could not be read: its layout is wrong, or its policy is.
pub enum DecodeError {
    /// The layout is wrong; read as a decryption error.
    Malformed(Seq<char>),
    /// The policy does not decode; read as an invalid policy.
    BadPolicy(Seq<char>),
}

/// Whether `r` is the error `e` describes.
pub open spec fn is_decode_error<T>(r: Result<T, AbeError>, e: DecodeError) -> bool {
    match (r, e) {
        (Err(AbeError::DecryptError(m)), DecodeError::Malformed(msg)) => m@ == msg,
        (Err(AbeError::InvalidPolicy(m)), DecodeError::BadPolicy(msg)) => m@ == msg,
        _ => false,
    }
}

/// What a ciphertext item carries once read: its group elements, its
/// attribute list and its policy, or why they cannot be read.
pub open spec fn ct_parts(c: Cbor) -> Result<(Seq<Seq<u8>>, Seq<Seq<char>>, Policy), DecodeError> {
    match item_body_decode(c, kind::CT, "CT"@) {
        Err(e) => Err(DecodeError::Malformed(e)),
        Ok(body) => match lookup(body, 0) {
            None => Err(DecodeError::Malformed("Missing group elems"@)),
            Some(ev) => match group_elems_decode(ev) {
                Err(e) => Err(DecodeError::Malformed(e)),
                Ok(elems) => match lookup(body, 1) {
                    None => Err(DecodeError::Malformed("Missing policy"@)),
                    Some(Cbor::Dict(pm)) => match lookup(body, 2) {
                        None => Err(DecodeError::Malformed("Missing attr list"@)),
                        Some(av) => match attr_set_decode(av) {
                            Err(e) => Err(DecodeError::Malformed(e)),
                            Ok(attrs) => match lookup(pm, 1) {
                                None => Err(DecodeError::Malformed("Missing policy tokens"@)),
                                Some(Cbor::Array(tokens)) => match rpn_decode(tokens, attrs) {
                                    Err(e) => Err(DecodeError::BadPolicy(e)),
                                    Ok(p) => if elems.len() < 2 {
                                        Err(DecodeError::Malformed("CT: not enough elements"@))
                                    } else {
                                        Ok((elems, attrs, p))
                                    },
                                },
                                Some(_) => Err(DecodeError::Malformed("Tokens must be array"@)),
                            },
                        },
                    },
                    Some(_) => Err(DecodeError::Malformed("Policy must be map"@)),
                },
            },
        },
    }
}

/// A ciphertext component, its two elements by their encodings.
#[derive(Clone, Debug)]
pub struct RawCiphertextComponent {
    /// `C_i`.
    pub c: Vec<u8>,
    /// `D_i`.
    pub d: Vec<u8>,
}

/// A ciphertext: its policy in canonical form, its elements `C` and `C'`
/// and a component for each attribute, by their encodings.
#[derive(Clone, Debug)]
pub struct RawCiphertext {
    /// The policy, in canonical form.
    pub policy: String,
    /// `C`.
    pub c: Vec<u8>,
    /// `C'`.
    pub c_prime: Vec<u8>,
    /// The components, each under its attribute.
    pub components: Vec<(String, RawCiphertextComponent)>,
}

/// A ciphertext as mathematical values.
pub struct CiphertextModel {
    pub policy: Seq<char>,
    pub c: Seq<u8>,
    pub c_prime: Seq<u8>,
    pub components: Seq<(Seq<char>, Seq<u8>, Seq<u8>)>,
}

impl View for RawCiphertext {
    type V = CiphertextModel;

    open spec fn view(&self) -> CiphertextModel {
        CiphertextModel {
            policy: self.policy@,
            c: self.c@,
            c_prime: self.c_prime@,
            components: self.components@.map_values(|e: (String, RawCiphertextComponent)| (e.0@, e.1.c@, e.1.d@)),
        }
    }
}

/// A ciphertext read back, or why not: the policy decoded and put in
/// canonical form, and each listed attribute with the pair of elements at
/// its place after `C` and `C'`. A ciphertext listing more attributes than
/// it carries pairs of elements for is refused.
pub open spec fn ct_decode(c: Cbor) -> Result<CiphertextModel, DecodeError> {
    match ct_parts(c) {
        Err(e) => Err(e),
        Ok((elems, attrs, p)) => if elems.len() < 2 + 2 * attrs.len() {
            Err(DecodeError::Malformed("CT: not enough group elements for components"@))
        } else {
            Ok(
            CiphertextModel {
                policy: p.canonical_string(),
                c: elems[0],
                c_prime: elems[1],
                components: Seq::new(attrs.len(), |i: int| (attrs[i], elems[2 + 2 * i], elems[3 + 2 * i])),
            },
        )
        },
    }
}

/// What a ciphertext item carries, as `ct_parts` describes it: its group
/// elements, its attribute list and its policy. Layout errors are
/// decryption errors, policy errors invalid policies.
pub fn decode_ct_parts(value: &CborValue) -> (r: Result<(Vec<Vec<u8>>, Vec<String>, PolicyNode), AbeError>)
    ensures
        match ct_parts(value@) {
            Ok((elems, attrs, p)) => r matches Ok((e, a, q)) && byte_views(e@) == elems && names(a@) == attrs && q@ == p,
            Err(e) => is_decode_error(r, e),
        },
{
    let body = decode_item_body(value, kind::CT, "CT")?;
    let elems_val = match map_get(body.as_slice(), 0) {
        Some(v) => v,
        None => {
            return Err(decode_error(String::from_str("Missing group elems")));
        },
    };
    let elems = decode_group_elems(elems_val)?;
    let policy_map = match map_get(body.as_slice(), 1) {
        Some(CborValue::Dict(m)) => m,
        Some(_) => {
            return Err(decode_error(String::from_str("Policy must be map")));
        },
        None => {
            return Err(decode_error(String::from_str("Missing policy")));
        },
    };
    let attrs_val = match map_get(body.as_slice(), 2) {
        Some(v) => v,
        None => {
            return Err(decode_error(String::from_str("Missing attr list")));
        },
    };
    let attr_list = decode_attr_set(attrs_val)?;
    let tokens = match map_get(policy_map.as_slice(), 1) {
        Some(CborValue::Array(t)) => t,
        Some(_) => {
            return Err(decode_error(String::from_str("Tokens must be array")));
        },
        None => {
            return Err(decode_error(String::from_str("Missing policy tokens")));
        },
    };
    proof {
        lemma_cbor_views(tokens@);
    }
    let policy = rpn_to_policy(tokens.as_slice(), attr_list.as_slice())?;
    if elems.len() < 2 {
        return Err(decode_error(String::from_str("CT: not enough elements")));
    }
    Ok((elems, attr_list, policy))
}

/// Reads a ciphertext back, as `ct_decode` describes it: layout errors are
/// decryption errors, policy errors invalid policies. An item listing more
/// attributes than it has component elements for is not read.
pub fn decode_ct(value: &CborValue) -> (r: Result<RawCiphertext, AbeError>)
    ensures
        match ct_decode(value@) {
            Ok(m) => r matches Ok(ct) && ct@ == m,
            Err(e) => is_decode_error(r, e),
        },
{
    let (elems, attr_list, policy) = decode_ct_parts(value)?;
    let policy_str = policy.to_canonical_string();
    let ghost ev = byte_views(elems@);
    let ghost av = names(attr_list@);
    let n_elems = elems.len();
    if n_elems < 2 || (n_elems - 2) / 2 < attr_list.len() {
        return Err(decode_error(String::from_str("CT: not enough group elements for components")));
    }
    assert(n_elems >= 2 + 2 * attr_list@.len());
    let mut components: Vec<(String, RawCiphertextComponent)> = Vec::new();
    let mut i: usize = 0;
    while i < attr_list.len()
        invariant
            ev == byte_views(elems@),
            av == names(attr_list@),
            n_elems == elems@.len(),
            n_elems >= 2 + 2 * attr_list@.len(),
            i <= attr_list@.len(),
            components@.len() == i,
            forall|j: int| 0 <= j < i ==> (#[trigger] components@[j]).0@ == av[j] && components@[j].1.c@ == ev[2 + 2 * j]
                && components@[j].1.d@ == ev[3 + 2 * j],
        decreases attr_list@.len() - i,
    {
        assert(3 + 2 * i < n_elems);
        let name = String::from_str(attr_list[i].as_str());
        let c_i = elems[2 + 2 * i].clone();
        let d_i = elems[3 + 2 * i].clone();
        assert(c_i@ == ev[2 + 2 * i] && d_i@ == ev[3 + 2 * i]);
        let ghost before = components@;
        components.push((name, RawCiphertextComponent { c: c_i, d: d_i }));
        proof {
            assert forall|j: int| 0 <= j < i + 1 implies (#[trigger] components@[j]).0@ == av[j] && components@[j].1.c@ == ev[2 + 2 * j]
                && components@[j].1.d@ == ev[3 + 2 * j] by {
                if j < i {
                    assert(components@[j] == before[j]);
                }
            }
        }
        i = i + 1;
    }
    let ct = RawCiphertext {
        policy: policy_str,
        c: elems[0].clone(),
        c_prime: elems[1].clone(),
        components,
    };
    assert(ct@.components =~= Seq::new(av.len(), |j: int| (av[j], ev[2 + 2 * j], ev[3 + 2 * j])));
    Ok(ct)
}

} // verus!
