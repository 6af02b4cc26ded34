//! The ABE-CBOR v1 layout: how suites, policies, attribute sets and
//! group elements are laid out as CBOR data items. Items are modelled by
//! `CborValue`; turning them into bytes is left to a CBOR codec.

use vstd::prelude::*;
use crate::error::AbeError;
use crate::text::names;
use crate::text::decimal;
use crate::text::push_decimal;
use crate::lsss::PolicyNode;
use crate::lsss::Policy;
use crate::lsss::policy_views;
use crate::lsss::lemma_views_map;
use crate::lsss::sort_strings;
use crate::text::sort_keyed;
use crate::text::keyed_view;

pub mod kind;
pub mod scheme;
pub mod curve;
pub mod ge_encoding;
pub mod endianness;
pub mod policy_encoding;
pub mod token_kind;
pub mod items;
pub mod wire;

verus! {

/// ABE-CBOR tag, in the private-use range.
pub const ABE_CBOR_TAG: u64 = 60001;

/// ABE-CBOR version.
pub const ABE_CBOR_VERSION: u64 = 1;

/// A CBOR data item.
#[derive(Debug)]
pub enum CborValue {
    /// An integer, negative or not.
    Integer(i128),
    /// A byte string.
    Bytes(Vec<u8>),
    /// A text string.
    Text(String),
    /// A Boolean.
    Bool(bool),
    /// Null.
    Null,
    /// An array of items.
    Array(Vec<CborValue>),
    /// A map, as key-value pairs in order.
    Dict(Vec<(CborValue, CborValue)>),
    /// A tagged item.
    Tag(u64, Box<CborValue>),
    /// An item the library reads nothing from, such as a floating-point
    /// number; it has no form to be written back in.
    Other,
}

/// A CBOR data item as mathematical values.
pub enum Cbor {
    Integer(int),
    Bytes(Seq<u8>),
    Text(Seq<char>),
    Bool(bool),
    Null,
    Array(Seq<Cbor>),
    Dict(Seq<(Cbor, Cbor)>),
    Tag(nat, Box<Cbor>),
    Other,
}

pub open spec fn cbor_view(v: CborValue) -> Cbor
    decreases v,
{
    match v {
        CborValue::Integer(i) => Cbor::Integer(i as int),
        CborValue::Bytes(b) => Cbor::Bytes(b@),
        CborValue::Text(t) => Cbor::Text(t@),
        CborValue::Bool(b) => Cbor::Bool(b),
        CborValue::Null => Cbor::Null,
        CborValue::Array(a) => Cbor::Array(cbor_views(a@)),
        CborValue::Dict(m) => Cbor::Dict(pair_views(m@)),
        CborValue::Tag(t, b) => Cbor::Tag(t as nat, Box::new(cbor_view(*b))),
        CborValue::Other => Cbor::Other,
    }
}

/// Whether an item can be written as CBOR: every integer in it lies
/// between `-2^64` and `2^64 - 1`, and it holds no item of the `Other`
/// kind.
pub open spec fn writable(c: Cbor) -> bool
    decreases c,
{
    match c {
        Cbor::Integer(i) => -0x1_0000_0000_0000_0000 <= i <= 0xffff_ffff_ffff_ffff,
        Cbor::Array(xs) => forall|i: int| 0 <= i < xs.len() ==> writable(#[trigger] xs[i]),
        Cbor::Dict(ps) => forall|i: int| 0 <= i < ps.len() ==> writable(#[trigger] ps[i].0) && writable(ps[i].1),
        Cbor::Tag(_, b) => writable(*b),
        Cbor::Other => false,
        _ => true,
    }
}

/// Whether an item nests arrays, maps and tags fewer than `depth` deep and
/// holds no tag 2 or 3 (which CBOR readers take for big integers).
pub open spec fn plain(c: Cbor, depth: nat) -> bool
    decreases c,
{
    match c {
        Cbor::Array(xs) => depth > 0 && forall|i: int| 0 <= i < xs.len() ==> plain(#[trigger] xs[i], (depth - 1) as nat),
        Cbor::Dict(ps) => depth > 0 && forall|i: int|
            0 <= i < ps.len() ==> plain(#[trigger] ps[i].0, (depth - 1) as nat) && plain(ps[i].1, (depth - 1) as nat),
        Cbor::Tag(t, b) => depth > 0 && t != 2 && t != 3 && plain(*b, (depth - 1) as nat),
        _ => true,
    }
}

pub open spec fn cbor_views(s: Seq<CborValue>) -> Seq<Cbor>
    decreases s,
{
    if s.len() == 0 {
        Seq::empty()
    } else {
        cbor_views(s.drop_last()).push(cbor_view(s.last()))
    }
}

pub open spec fn pair_views(s: Seq<(CborValue, CborValue)>) -> Seq<(Cbor, Cbor)>
    decreases s,
{
    if s.len() == 0 {
        Seq::empty()
    } else {
        pair_views(s.drop_last()).push((cbor_view(s.last().0), cbor_view(s.last().1)))
    }
}

impl View for CborValue {
    type V = Cbor;

    open spec fn view(&self) -> Cbor {
        cbor_view(*self)
    }
}

/// The views of a list of items are the views of its elements.
pub proof fn lemma_cbor_views(s: Seq<CborValue>)
    ensures
        cbor_views(s) == s.map_values(|v: CborValue| cbor_view(v)),
    decreases s.len(),
{
    if s.len() > 0 {
        lemma_cbor_views(s.drop_last());
        assert(s.map_values(|v: CborValue| cbor_view(v)) =~= s.drop_last().map_values(|v: CborValue| cbor_view(v)).push(
            cbor_view(s.last()),
        ));
    } else {
        assert(s.map_values(|v: CborValue| cbor_view(v)) =~= Seq::<Cbor>::empty());
    }
}

/// The views of a list of pairs are the views of its elements.
pub proof fn lemma_pair_views(s: Seq<(CborValue, CborValue)>)
    ensures
        pair_views(s) == s.map_values(|p: (CborValue, CborValue)| (cbor_view(p.0), cbor_view(p.1))),
    decreases s.len(),
{
    if s.len() > 0 {
        lemma_pair_views(s.drop_last());
        assert(s.map_values(|p: (CborValue, CborValue)| (cbor_view(p.0), cbor_view(p.1))) =~= s.drop_last().map_values(
            |p: (CborValue, CborValue)| (cbor_view(p.0), cbor_view(p.1)),
        ).push((cbor_view(s.last().0), cbor_view(s.last().1))));
    } else {
        assert(s.map_values(|p: (CborValue, CborValue)| (cbor_view(p.0), cbor_view(p.1))) =~= Seq::<(Cbor, Cbor)>::empty());
    }
}

/// The value of the first entry of a map whose key is the integer `key`.
pub open spec fn lookup(m: Seq<(Cbor, Cbor)>, key: int) -> Option<Cbor>
    decreases m.len(),
{
    if m.len() == 0 {
        None
    } else if m[0].0 == Cbor::Integer(key) {
        Some(m[0].1)
    } else {
        lookup(m.drop_first(), key)
    }
}

/// Appends the entry `key => value` to a map.
pub fn map_insert(map: &mut Vec<(CborValue, CborValue)>, key: u64, value: CborValue)
    ensures
        pair_views(final(map)@) == pair_views(old(map)@).push((Cbor::Integer(key as int), cbor_view(value))),
{
    let ghost v = value@;
    let k = CborValue::Integer(key as i128);
    assert(k@ == Cbor::Integer(key as int));
    map.push((k, value));
    assert(map@.drop_last() =~= old(map)@);
    assert(map@.len() > 0);
    assert(cbor_view(map@.last().1) == v);
    assert(pair_views(map@) == pair_views(map@.drop_last()).push((cbor_view(map@.last().0), cbor_view(map@.last().1))));
}

/// The value of the first entry whose key is the integer `key`.
pub fn map_get(map: &[(CborValue, CborValue)], key: u64) -> (r: Option<&CborValue>)
    ensures
        match r {
            Some(v) => lookup(pair_views(map@), key as int) == Some(v@),
            None => lookup(pair_views(map@), key as int) is None,
        },
{
    let ghost pv = pair_views(map@);
    proof {
        lemma_pair_views(map@);
        assert(pv.skip(0) =~= pv);
    }
    let mut i: usize = 0;
    while i < map.len()
        invariant
            pv == pair_views(map@),
            pv == map@.map_values(|p: (CborValue, CborValue)| (cbor_view(p.0), cbor_view(p.1))),
            i <= map@.len(),
            lookup(pv, key as int) == lookup(pv.skip(i as int), key as int),
        decreases map@.len() - i,
    {
        let entry = &map[i];
        let hit = match &entry.0 {
            CborValue::Integer(k) => *k == key as i128,
            _ => false,
        };
        proof {
            assert(pv.skip(i as int)[0] == pv[i as int]);
            assert(pv.skip(i as int).drop_first() =~= pv.skip(i + 1));
        }
        if hit {
            return Some(&entry.1);
        }
        i = i + 1;
    }
    None
}

/// A suite: the scheme, curve and encoding choices an item is made under.
#[derive(Clone, Debug)]
pub struct Suite {
    /// The scheme.
    pub scheme_id: String,
    /// The curve.
    pub curve_id: String,
    /// Security level in bits.
    pub security_level: u64,
    /// Encoding of group elements.
    pub ge_encoding: u64,
    /// Byte order.
    pub endianness: u64,
    /// Whether decoders check subgroup membership.
    pub subgroup_check: bool,
}

/// A suite as mathematical values.
pub struct SuiteModel {
    pub scheme_id: Seq<char>,
    pub curve_id: Seq<char>,
    pub security_level: u64,
    pub ge_encoding: u64,
    pub endianness: u64,
    pub subgroup_check: bool,
}

impl View for Suite {
    type V = SuiteModel;

    open spec fn view(&self) -> SuiteModel {
        SuiteModel {
            scheme_id: self.scheme_id@,
            curve_id: self.curve_id@,
            security_level: self.security_level,
            ge_encoding: self.ge_encoding,
            endianness: self.endianness,
            subgroup_check: self.subgroup_check,
        }
    }
}

/// The default suite: Waters CP-ABE over BLS12-381 at 128 bits, compressed
/// big-endian group elements, subgroup checks on.
pub open spec fn default_suite() -> SuiteModel {
    SuiteModel {
        scheme_id: "cpabe-waters"@,
        curve_id: "bls12-381"@,
        security_level: 128,
        ge_encoding: 0,
        endianness: 0,
        subgroup_check: true,
    }
}

/// A suite laid out as CBOR: `{0: scheme, 1: {0: curve, 1: level}, 2: {0:
/// encoding, 1: byte order, 2: subgroup check}}`.
pub open spec fn suite_cbor(s: SuiteModel) -> Cbor {
    Cbor::Dict(seq![
        (Cbor::Integer(0), Cbor::Text(s.scheme_id)),
        (Cbor::Integer(1), Cbor::Dict(seq![
            (Cbor::Integer(0), Cbor::Text(s.curve_id)),
            (Cbor::Integer(1), Cbor::Integer(s.security_level as int)),
        ])),
        (Cbor::Integer(2), Cbor::Dict(seq![
            (Cbor::Integer(0), Cbor::Integer(s.ge_encoding as int)),
            (Cbor::Integer(1), Cbor::Integer(s.endianness as int)),
            (Cbor::Integer(2), Cbor::Bool(s.subgroup_check)),
        ])),
    ])
}

/// An unsigned integer item's value, or `d` for anything else.
pub open spec fn u64_or(v: Option<Cbor>, d: u64) -> u64 {
    match v {
        Some(Cbor::Integer(i)) => if 0 <= i <= u64::MAX {
            i as u64
        } else {
            d
        },
        Some(_) => d,
        None => d,
    }
}

/// A Boolean item's value, or `d` for anything else.
pub open spec fn bool_or(v: Option<Cbor>, d: bool) -> bool {
    match v {
        Some(Cbor::Bool(b)) => b,
        _ => d,
    }
}

/// A suite read from CBOR: missing entries keep the default's values, a
/// non-map curve or encoding entry is ignored, and a non-text scheme or
/// curve is an error.
pub open spec fn suite_decode(c: Cbor) -> Result<SuiteModel, Seq<char>> {
    match c {
        Cbor::Dict(m) => {
            let d = default_suite();
            let scheme = match lookup(m, 0) {
                Some(Cbor::Text(t)) => Ok(t),
                Some(_) => Err("scheme_id must be text"@),
                None => Ok(d.scheme_id),
            };
            match scheme {
                Err(e) => Err(e),
                Ok(scheme_id) => {
                    let curve: Result<(Seq<char>, u64), Seq<char>> = match lookup(m, 1) {
                        Some(Cbor::Dict(cm)) => {
                            let level = match lookup(cm, 1) {
                                Some(v) => u64_or(Some(v), 128),
                                None => d.security_level,
                            };
                            match lookup(cm, 0) {
                                Some(Cbor::Text(t)) => Ok((t, level)),
                                Some(_) => Err("curve_id must be text"@),
                                None => Ok((d.curve_id, level)),
                            }
                        },
                        _ => Ok((d.curve_id, d.security_level)),
                    };
                    match curve {
                        Err(e) => Err(e),
                        Ok((curve_id, security_level)) => {
                            let (ge_encoding, endianness, subgroup_check) = match lookup(m, 2) {
                                Some(Cbor::Dict(gm)) => (
                                    u64_or(lookup(gm, 0), d.ge_encoding),
                                    u64_or(lookup(gm, 1), d.endianness),
                                    bool_or(lookup(gm, 2), d.subgroup_check),
                                ),
                                _ => (d.ge_encoding, d.endianness, d.subgroup_check),
                            };
                            Ok(SuiteModel { scheme_id, curve_id, security_level, ge_encoding, endianness, subgroup_check })
                        },
                    }
                },
            }
        },
        _ => Err("Suite must be a map"@),
    }
}

/// The value of an integer item that fits a `u64`, or `d`.
fn int_to_u64_or(v: &CborValue, d: u64) -> (r: u64)
    ensures
        r == u64_or(Some(v@), d),
{
    match v {
        CborValue::Integer(i) => {
            if 0 <= *i && *i <= u64::MAX as i128 {
                *i as u64
            } else {
                d
            }
        },
        _ => d,
    }
}

impl Default for Suite {
    fn default() -> (s: Self)
        ensures
            s@ == default_suite(),
    {
        Suite {
            scheme_id: String::from_str(scheme::CPABE_WATERS),
            curve_id: String::from_str(curve::BLS12_381),
            security_level: 128,
            ge_encoding: ge_encoding::IETF_COMPRESSED,
            endianness: endianness::BIG,
            subgroup_check: true,
        }
    }
}

impl Suite {
    /// The suite of CCA-secure Waters CP-ABE, otherwise the default.
    pub fn waters_cca() -> (s: Self)
        ensures
            s@ == (SuiteModel { scheme_id: "cpabe-waters-cca"@, ..default_suite() }),
    {
        let d = Suite::default();
        Suite { scheme_id: String::from_str(scheme::CPABE_WATERS_CCA), ..d }
    }

    /// The suite laid out as CBOR.
    pub fn to_cbor(&self) -> (c: CborValue)
        ensures
            c@ == suite_cbor(self@),
    {
        let mut map: Vec<(CborValue, CborValue)> = Vec::new();
        assert(pair_views(map@) =~= Seq::<(Cbor, Cbor)>::empty());
        map_insert(&mut map, 0, CborValue::Text(self.scheme_id.clone()));
        let mut curve_map: Vec<(CborValue, CborValue)> = Vec::new();
        assert(pair_views(curve_map@) =~= Seq::<(Cbor, Cbor)>::empty());
        map_insert(&mut curve_map, 0, CborValue::Text(self.curve_id.clone()));
        map_insert(&mut curve_map, 1, CborValue::Integer(self.security_level as i128));
        let ghost cm = pair_views(curve_map@);
        assert(cm =~= seq![
            (Cbor::Integer(0), Cbor::Text(self@.curve_id)),
            (Cbor::Integer(1), Cbor::Integer(self@.security_level as int)),
        ]);
        let curve = CborValue::Dict(curve_map);
        assert(curve@ == Cbor::Dict(cm));
        map_insert(&mut map, 1, curve);
        let mut ge_map: Vec<(CborValue, CborValue)> = Vec::new();
        assert(pair_views(ge_map@) =~= Seq::<(Cbor, Cbor)>::empty());
        map_insert(&mut ge_map, 0, CborValue::Integer(self.ge_encoding as i128));
        map_insert(&mut ge_map, 1, CborValue::Integer(self.endianness as i128));
        map_insert(&mut ge_map, 2, CborValue::Bool(self.subgroup_check));
        let ghost gm = pair_views(ge_map@);
        assert(gm =~= seq![
            (Cbor::Integer(0), Cbor::Integer(self@.ge_encoding as int)),
            (Cbor::Integer(1), Cbor::Integer(self@.endianness as int)),
            (Cbor::Integer(2), Cbor::Bool(self@.subgroup_check)),
        ]);
        let ge = CborValue::Dict(ge_map);
        assert(ge@ == Cbor::Dict(gm));
        map_insert(&mut map, 2, ge);
        let ghost mv = pair_views(map@);
        assert(mv =~= suite_cbor(self@)->Dict_0);
        let c = CborValue::Dict(map);
        assert(c@ == Cbor::Dict(mv));
        c
    }

    /// The suite read from CBOR, as `suite_decode` describes it; errors
    /// are decryption errors.
    pub fn from_cbor(value: &CborValue) -> (r: Result<Suite, AbeError>)
        ensures
            match (r, suite_decode(value@)) {
                (Ok(s), Ok(m)) => s@ == m,
                (Err(AbeError::DecryptError(msg)), Err(e)) => msg@ == e,
                _ => false,
            },
    {
        let map = match value {
            CborValue::Dict(m) => m,
            _ => return Err(AbeError::DecryptError(String::from_str("Suite must be a map"))),
        };
        let mut suite = Suite::default();
        match map_get(map.as_slice(), 0) {
            Some(CborValue::Text(t)) => {
                suite.scheme_id = t.clone();
            },
            Some(_) => return Err(AbeError::DecryptError(String::from_str("scheme_id must be text"))),
            None => {},
        }
        match map_get(map.as_slice(), 1) {
            Some(CborValue::Dict(curve_map)) => {
                match map_get(curve_map.as_slice(), 0) {
                    Some(CborValue::Text(t)) => {
                        suite.curve_id = t.clone();
                    },
                    Some(_) => return Err(AbeError::DecryptError(String::from_str("curve_id must be text"))),
                    None => {},
                }
                match map_get(curve_map.as_slice(), 1) {
                    Some(v) => {
                        suite.security_level = int_to_u64_or(v, 128);
                    },
                    None => {},
                }
            },
            _ => {},
        }
        match map_get(map.as_slice(), 2) {
            Some(CborValue::Dict(ge_map)) => {
                match map_get(ge_map.as_slice(), 0) {
                    Some(v) => {
                        suite.ge_encoding = int_to_u64_or(v, 0);
                    },
                    None => {},
                }
                match map_get(ge_map.as_slice(), 1) {
                    Some(v) => {
                        suite.endianness = int_to_u64_or(v, 0);
                    },
                    None => {},
                }
                match map_get(ge_map.as_slice(), 2) {
                    Some(CborValue::Bool(b)) => {
                        suite.subgroup_check = *b;
                    },
                    Some(_) => {
                        suite.subgroup_check = true;
                    },
                    None => {},
                }
            },
            _ => {},
        }
        Ok(suite)
    }
}

/// A suite survives being laid out as CBOR and read back.
pub proof fn lemma_suite_round_trip(s: SuiteModel)
    ensures
        suite_decode(suite_cbor(s)) == Ok::<SuiteModel, Seq<char>>(s),
{
    let c = suite_cbor(s);
    let m = c->Dict_0;
    let cm = seq![
        (Cbor::Integer(0), Cbor::Text(s.curve_id)),
        (Cbor::Integer(1), Cbor::Integer(s.security_level as int)),
    ];
    let gm = seq![
        (Cbor::Integer(0), Cbor::Integer(s.ge_encoding as int)),
        (Cbor::Integer(1), Cbor::Integer(s.endianness as int)),
        (Cbor::Integer(2), Cbor::Bool(s.subgroup_check)),
    ];
    assert(lookup(m, 0) == Some(Cbor::Text(s.scheme_id)));
    assert(m.drop_first()[0] == m[1]);
    assert(lookup(m.drop_first(), 1) == Some(Cbor::Dict(cm)));
    assert(lookup(m, 1) == Some(Cbor::Dict(cm)));
    assert(lookup(cm, 0) == Some(Cbor::Text(s.curve_id)));
    assert(cm.drop_first()[0] == cm[1]);
    assert(lookup(cm.drop_first(), 1) == Some(Cbor::Integer(s.security_level as int)));
    assert(lookup(cm, 1) == Some(Cbor::Integer(s.security_level as int)));
    assert(m.drop_first().drop_first()[0] == m[2]);
    assert(lookup(m.drop_first().drop_first(), 2) == Some(Cbor::Dict(gm)));
    assert(lookup(m.drop_first(), 2) == Some(Cbor::Dict(gm)));
    assert(lookup(m, 2) == Some(Cbor::Dict(gm)));
    assert(lookup(gm, 0) == Some(Cbor::Integer(s.ge_encoding as int)));
    assert(gm.drop_first()[0] == gm[1]);
    assert(lookup(gm.drop_first(), 1) == Some(Cbor::Integer(s.endianness as int)));
    assert(lookup(gm, 1) == Some(Cbor::Integer(s.endianness as int)));
    assert(gm.drop_first().drop_first()[0] == gm[2]);
    assert(lookup(gm.drop_first().drop_first(), 2) == Some(Cbor::Bool(s.subgroup_check)));
    assert(lookup(gm.drop_first(), 2) == Some(Cbor::Bool(s.subgroup_check)));
    assert(lookup(gm, 2) == Some(Cbor::Bool(s.subgroup_check)));
}

/// The token of an attribute reference: `{0: 0, 1: {0: idx}}`.
pub open spec fn attr_token(idx: int) -> Cbor {
    Cbor::Dict(seq![(Cbor::Integer(0), Cbor::Integer(0)), (Cbor::Integer(1), Cbor::Dict(seq![(Cbor::Integer(0), Cbor::Integer(idx))]))])
}

/// The token of a binary gate of the given kind: `{0: kind}`.
pub open spec fn gate_token(kind: int) -> Cbor {
    Cbor::Dict(seq![(Cbor::Integer(0), Cbor::Integer(kind))])
}

/// The token of a k-of-n gate: `{0: 3, 1: {0: k, 1: n}}`.
pub open spec fn thresh_token(k: int, n: int) -> Cbor {
    Cbor::Dict(seq![(Cbor::Integer(0), Cbor::Integer(3)), (Cbor::Integer(1), Cbor::Dict(seq![
        (Cbor::Integer(0), Cbor::Integer(k)),
        (Cbor::Integer(1), Cbor::Integer(n)),
    ]))])
}

/// A policy in reverse Polish notation, with the attribute list it
/// extends: each attribute is referred to by its first position in the
/// list, added at the end when new; a gate follows its children, an n-ary
/// AND or OR as n-1 binary gates.
pub open spec fn rpn_tokens(p: Policy, attrs: Seq<Seq<char>>) -> (Seq<Cbor>, Seq<Seq<char>>)
    decreases p,
{
    match p {
        Policy::Attr(a) => match attrs.index_of_first(a) {
            Some(i) => (seq![attr_token(i)], attrs),
            None => (seq![attr_token(attrs.len() as int)], attrs.push(a)),
        },
        Policy::And(cs) => {
            let (t, l) = rpn_all(cs, attrs);
            (t + Seq::new(if cs.len() > 0 { (cs.len() - 1) as nat } else { 0 }, |i: int| gate_token(1)), l)
        },
        Policy::Or(cs) => {
            let (t, l) = rpn_all(cs, attrs);
            (t + Seq::new(if cs.len() > 0 { (cs.len() - 1) as nat } else { 0 }, |i: int| gate_token(2)), l)
        },
        Policy::Threshold(k, cs) => {
            let (t, l) = rpn_all(cs, attrs);
            (t.push(thresh_token(k as int, cs.len() as int)), l)
        },
    }
}

/// The tokens of a list of policies, one after another.
pub open spec fn rpn_all(cs: Seq<Policy>, attrs: Seq<Seq<char>>) -> (Seq<Cbor>, Seq<Seq<char>>)
    decreases cs,
{
    if cs.len() == 0 {
        (Seq::empty(), attrs)
    } else {
        let (t, l) = rpn_all(cs.drop_last(), attrs);
        let (t2, l2) = rpn_tokens(cs.last(), l);
        (t + t2, l2)
    }
}

/// An integer item that fits a `usize`.
pub open spec fn as_usize(v: Option<Cbor>) -> Option<nat> {
    match v {
        Some(Cbor::Integer(i)) => if 0 <= i <= usize::MAX {
            Some(i as nat)
        } else {
            None
        },
        _ => None,
    }
}

/// An integer item that fits a `u64`.
pub open spec fn as_u64(v: Option<Cbor>) -> Option<nat> {
    match v {
        Some(Cbor::Integer(i)) => if 0 <= i <= u64::MAX {
            Some(i as nat)
        } else {
            None
        },
        _ => None,
    }
}

/// One token applied to the stack of decoded policies.
pub open spec fn decode_step(st: Result<Seq<Policy>, Seq<char>>, tok: Cbor, attrs: Seq<Seq<char>>) -> Result<Seq<Policy>, Seq<char>> {
    match st {
        Err(e) => Err(e),
        Ok(stack) => match tok {
            Cbor::Dict(m) => match as_u64(lookup(m, 0)) {
                None => Err("Token kind must be uint"@),
                Some(kind) => if kind == 0 {
                    match lookup(m, 1) {
                        None => Err("ATTR missing payload"@),
                        Some(Cbor::Dict(r)) => match as_usize(lookup(r, 0)) {
                            None => Err("Invalid attr index"@),
                            Some(idx) => if idx < attrs.len() {
                                Ok(stack.push(Policy::Attr(attrs[idx as int])))
                            } else {
                                Err("Attr index out of bounds"@)
                            },
                        },
                        Some(_) => Err("AttrRef must be map"@),
                    }
                } else if kind == 1 {
                    if stack.len() < 2 {
                        Err("AND: stack underflow"@)
                    } else {
                        Ok(stack.take(stack.len() - 2).push(Policy::And(stack.skip(stack.len() - 2))))
                    }
                } else if kind == 2 {
                    if stack.len() < 2 {
                        Err("OR: stack underflow"@)
                    } else {
                        Ok(stack.take(stack.len() - 2).push(Policy::Or(stack.skip(stack.len() - 2))))
                    }
                } else if kind == 3 {
                    match lookup(m, 1) {
                        None => Err("THRESH missing payload"@),
                        Some(Cbor::Dict(t)) => match as_usize(lookup(t, 0)) {
                            None => Err("Invalid threshold k"@),
                            Some(k) => match as_usize(lookup(t, 1)) {
                                None => Err("Invalid threshold n"@),
                                Some(n) => if stack.len() < n {
                                    Err("THRESH: stack underflow"@)
                                } else {
                                    Ok(stack.take(stack.len() - n).push(Policy::Threshold(k, stack.skip(stack.len() - n))))
                                },
                            },
                        },
                        Some(_) => Err("Thresh payload must be map"@),
                    }
                } else {
                    Err("Unknown token kind: "@ + decimal(kind))
                },
            },
            _ => Err("Token must be map"@),
        },
    }
}

/// The tokens applied in order to a starting stack.
pub open spec fn decode_run(st: Result<Seq<Policy>, Seq<char>>, tokens: Seq<Cbor>, attrs: Seq<Seq<char>>) -> Result<Seq<Policy>, Seq<char>>
    decreases tokens.len(),
{
    if tokens.len() == 0 {
        st
    } else {
        decode_step(decode_run(st, tokens.drop_last(), attrs), tokens.last(), attrs)
    }
}

/// The policy a token list decodes to: the top of the stack left by the
/// tokens, or the first error met.
pub open spec fn rpn_decode(tokens: Seq<Cbor>, attrs: Seq<Seq<char>>) -> Result<Policy, Seq<char>> {
    match decode_run(Ok(Seq::empty()), tokens, attrs) {
        Err(e) => Err(e),
        Ok(stack) => if stack.len() == 0 {
            Err("Empty policy stack"@)
        } else {
            Ok(stack.last())
        },
    }
}

/// A fresh map item from entries.
fn dict_of(entries: Vec<(CborValue, CborValue)>) -> (c: CborValue)
    ensures
        c@ == Cbor::Dict(pair_views(entries@)),
{
    CborValue::Dict(entries)
}

/// The token of a binary gate.
fn gate_token_value(kind: u64) -> (c: CborValue)
    ensures
        c@ == gate_token(kind as int),
{
    let mut token: Vec<(CborValue, CborValue)> = Vec::new();
    assert(pair_views(token@) =~= Seq::<(Cbor, Cbor)>::empty());
    map_insert(&mut token, 0, CborValue::Integer(kind as i128));
    assert(pair_views(token@) =~= seq![(Cbor::Integer(0), Cbor::Integer(kind as int))]);
    dict_of(token)
}

/// The token of an attribute reference.
fn attr_token_value(idx: usize) -> (c: CborValue)
    ensures
        c@ == attr_token(idx as int),
{
    let mut token: Vec<(CborValue, CborValue)> = Vec::new();
    assert(pair_views(token@) =~= Seq::<(Cbor, Cbor)>::empty());
    map_insert(&mut token, 0, CborValue::Integer(token_kind::ATTR as i128));
    let mut attr_ref: Vec<(CborValue, CborValue)> = Vec::new();
    assert(pair_views(attr_ref@) =~= Seq::<(Cbor, Cbor)>::empty());
    map_insert(&mut attr_ref, 0, CborValue::Integer(idx as i128));
    assert(pair_views(attr_ref@) =~= seq![(Cbor::Integer(0), Cbor::Integer(idx as int))]);
    let r = dict_of(attr_ref);
    map_insert(&mut token, 1, r);
    assert(pair_views(token@) =~= attr_token(idx as int)->Dict_0);
    dict_of(token)
}

/// The token of a k-of-n gate.
fn thresh_token_value(k: usize, n: usize) -> (c: CborValue)
    ensures
        c@ == thresh_token(k as int, n as int),
{
    let mut token: Vec<(CborValue, CborValue)> = Vec::new();
    assert(pair_views(token@) =~= Seq::<(Cbor, Cbor)>::empty());
    map_insert(&mut token, 0, CborValue::Integer(token_kind::THRESH as i128));
    let mut thresh: Vec<(CborValue, CborValue)> = Vec::new();
    assert(pair_views(thresh@) =~= Seq::<(Cbor, Cbor)>::empty());
    map_insert(&mut thresh, 0, CborValue::Integer(k as i128));
    map_insert(&mut thresh, 1, CborValue::Integer(n as i128));
    assert(pair_views(thresh@) =~= seq![(Cbor::Integer(0), Cbor::Integer(k as int)), (Cbor::Integer(1), Cbor::Integer(n as int))]);
    let t = dict_of(thresh);
    map_insert(&mut token, 1, t);
    assert(pair_views(token@) =~= thresh_token(k as int, n as int)->Dict_0);
    dict_of(token)
}

/// The first position of `name` in the list.
fn position_of(list: &Vec<String>, name: &str) -> (r: Option<usize>)
    ensures
        match r {
            Some(i) => names(list@).index_of_first(name@) == Some(i as int),
            None => names(list@).index_of_first(name@) is None,
        },
{
    let ghost nv = names(list@);
    proof {
        nv.index_of_first_ensures(name@);
    }
    let mut i: usize = 0;
    while i < list.len()
        invariant
            nv == names(list@),
            i <= list@.len(),
            forall|j: int| 0 <= j < i ==> nv[j] != name@,
            match nv.index_of_first(name@) {
                Some(index) => {
                    &&& nv.contains(name@)
                    &&& 0 <= index < nv.len()
                    &&& nv[index] == name@
                    &&& forall|j: int| 0 <= j < index < nv.len() ==> nv[j] != name@
                },
                None => !nv.contains(name@),
            },
        decreases list@.len() - i,
    {
        if crate::text::str_eq(list[i].as_str(), name) {
            proof {
                assert(nv[i as int] == name@);
                assert(nv.contains(name@));
                let k = nv.index_of_first(name@)->0;
                assert(!(k < i)) by {
                    if k < i {
                        assert(nv[k] != name@);
                    }
                }
                assert(!(i < k));
            }
            return Some(i);
        }
        i = i + 1;
    }
    proof {
        if nv.contains(name@) {
            let k = choose|k: int| 0 <= k < nv.len() && nv[k] == name@;
            assert(nv[k] != name@);
        }
    }
    None
}

/// The position of `name` in the list, added at the end when missing.
fn intern(list: &mut Vec<String>, name: &String) -> (idx: usize)
    requires
        old(list)@.len() < usize::MAX,
    ensures
        match names(old(list)@).index_of_first(name@) {
            Some(i) => idx == i && names(final(list)@) == names(old(list)@),
            None => idx == old(list)@.len() && names(final(list)@) == names(old(list)@).push(name@),
        },
{
    match position_of(list, name.as_str()) {
        Some(pos) => pos,
        None => {
            let ghost before = list@;
            list.push(name.clone());
            assert(names(list@) =~= names(before).push(name@));
            list.len() - 1
        },
    }
}

/// Appends the tokens of a policy, extending the attribute list.
pub fn policy_to_rpn(policy: &PolicyNode, attr_list: &mut Vec<String>) -> (tokens: Vec<CborValue>)
    requires
        old(attr_list)@.len() + policy@.leaf_count() <= usize::MAX,
    ensures
        (cbor_views(tokens@), names(final(attr_list)@)) == rpn_tokens(policy@, names(old(attr_list)@)),
    decreases policy,
{
    match policy {
        PolicyNode::Attr(name) => {
            let idx = intern(attr_list, name);
            let t = attr_token_value(idx);
            let tokens = vec![t];
            proof {
                lemma_cbor_views(tokens@);
                assert(cbor_views(tokens@) =~= seq![attr_token(idx as int)]);
            }
            tokens
        },
        PolicyNode::And(children) => {
            let ghost a0 = names(attr_list@);
            let mut tokens = children_to_rpn(children, attr_list);
            let ghost t0 = cbor_views(tokens@);
            gates_after(&mut tokens, children.len(), token_kind::AND);
            proof {
                lemma_views_map(children@);
                let n = children@.len();
                assert(Seq::new(if n > 0 { (n - 1) as nat } else { 0 }, |i: int| gate_token(token_kind::AND as int)) =~= Seq::new(
                    if n > 0 { (n - 1) as nat } else { 0 },
                    |i: int| gate_token(1),
                ));
                assert(cbor_views(tokens@) =~= rpn_tokens(policy@, a0).0);
            }
            tokens
        },
        PolicyNode::Or(children) => {
            let ghost a0 = names(attr_list@);
            let mut tokens = children_to_rpn(children, attr_list);
            let ghost t0 = cbor_views(tokens@);
            gates_after(&mut tokens, children.len(), token_kind::OR);
            proof {
                lemma_views_map(children@);
                let n = children@.len();
                assert(Seq::new(if n > 0 { (n - 1) as nat } else { 0 }, |i: int| gate_token(token_kind::OR as int)) =~= Seq::new(
                    if n > 0 { (n - 1) as nat } else { 0 },
                    |i: int| gate_token(2),
                ));
                assert(cbor_views(tokens@) =~= rpn_tokens(policy@, a0).0);
            }
            tokens
        },
        PolicyNode::Threshold(k, children) => {
            let mut tokens = children_to_rpn(children, attr_list);
            let ghost before = tokens@;
            tokens.push(thresh_token_value(*k, children.len()));
            proof {
                lemma_cbor_views(before);
                lemma_cbor_views(tokens@);
                lemma_views_map(children@);
                assert(cbor_views(tokens@) =~= cbor_views(before).push(thresh_token(*k as int, children@.len() as int)));
            }
            tokens
        },
    }
}

/// Appends `n - 1` gate tokens of the given kind, none for no children.
fn gates_after(tokens: &mut Vec<CborValue>, n: usize, kind: u64)
    ensures
        cbor_views(final(tokens)@) == cbor_views(old(tokens)@) + Seq::new(
            if n > 0 { (n - 1) as nat } else { 0 },
            |i: int| gate_token(kind as int),
        ),
{
    let mut i: usize = 1;
    proof {
        lemma_cbor_views(tokens@);
        assert(cbor_views(tokens@) =~= cbor_views(old(tokens)@) + Seq::new(0, |i: int| gate_token(kind as int)));
    }
    while i < n
        invariant
            1 <= i,
            i <= n || n == 0,
            n == 0 ==> i == 1,
            cbor_views(tokens@) == cbor_views(old(tokens)@) + Seq::new((i - 1) as nat, |j: int| gate_token(kind as int)),
        decreases n - i,
    {
        let ghost before = tokens@;
        tokens.push(gate_token_value(kind));
        proof {
            lemma_cbor_views(before);
            lemma_cbor_views(tokens@);
            assert(cbor_views(tokens@) =~= cbor_views(before).push(gate_token(kind as int)));
            assert(cbor_views(tokens@) =~= cbor_views(old(tokens)@) + Seq::new(i as nat, |j: int| gate_token(kind as int)));
        }
        i = i + 1;
    }
    proof {
        if n > 0 {
            assert(i == n);
            assert(Seq::new((i - 1) as nat, |j: int| gate_token(kind as int)) =~= Seq::new(
                (n - 1) as nat,
                |i: int| gate_token(kind as int),
            ));
        } else {
            assert(Seq::new((i - 1) as nat, |j: int| gate_token(kind as int)) =~= Seq::new(
                0,
                |i: int| gate_token(kind as int),
            ));
        }
    }
}

/// The tokens of the children, one after another.
fn children_to_rpn(cs: &Vec<PolicyNode>, attr_list: &mut Vec<String>) -> (tokens: Vec<CborValue>)
    requires
        old(attr_list)@.len() + crate::lsss::leaf_count_all(policy_views(cs@)) <= usize::MAX,
    ensures
        (cbor_views(tokens@), names(final(attr_list)@)) == rpn_all(policy_views(cs@), names(old(attr_list)@)),
    decreases cs,
{
    let ghost vs = policy_views(cs@);
    let ghost a0 = names(attr_list@);
    proof {
        lemma_views_map(cs@);
        assert(vs.take(0) =~= Seq::<Policy>::empty());
    }
    let mut tokens: Vec<CborValue> = Vec::new();
    proof {
        assert(cbor_views(tokens@) =~= Seq::<Cbor>::empty());
    }
    let mut i: usize = 0;
    while i < cs.len()
        invariant
            vs == policy_views(cs@),
            vs == cs@.map_values(|p: PolicyNode| crate::lsss::policy_view(p)),
            a0.len() + crate::lsss::leaf_count_all(vs) <= usize::MAX,
            i <= cs@.len(),
            attr_list@.len() <= a0.len() + crate::lsss::leaf_count_all(vs.take(i as int)),
            (cbor_views(tokens@), names(attr_list@)) == rpn_all(vs.take(i as int), a0),
        decreases cs@.len() - i,
    {
        proof {
            assert(vs.take(i + 1).drop_last() =~= vs.take(i as int));
            assert(vs.take(i + 1).last() == cs@[i as int]@);
            crate::lsss::lemma_leaf_count_prefix(vs, i + 1);
            lemma_rpn_growth(cs@[i as int]@, names(attr_list@));
        }
        let mut more = policy_to_rpn(&cs[i], attr_list);
        let ghost before = tokens@;
        let ghost m = more@;
        tokens.append(&mut more);
        proof {
            lemma_cbor_views(before);
            lemma_cbor_views(m);
            lemma_cbor_views(tokens@);
            assert(cbor_views(tokens@) =~= cbor_views(before) + cbor_views(m));
        }
        i = i + 1;
    }
    assert(vs.take(cs@.len() as int) =~= vs);
    tokens
}

/// Encoding a policy adds at most one attribute per leaf to the list, and
/// only appends.
pub proof fn lemma_rpn_growth(p: Policy, attrs: Seq<Seq<char>>)
    ensures
        attrs.len() <= rpn_tokens(p, attrs).1.len() <= attrs.len() + p.leaf_count(),
        rpn_tokens(p, attrs).1.take(attrs.len() as int) == attrs,
    decreases p,
{
    match p {
        Policy::Attr(a) => {
            assert(attrs.push(a).take(attrs.len() as int) =~= attrs);
            assert(attrs.take(attrs.len() as int) =~= attrs);
        },
        Policy::And(cs) => lemma_rpn_all_growth(cs, attrs),
        Policy::Or(cs) => lemma_rpn_all_growth(cs, attrs),
        Policy::Threshold(_, cs) => lemma_rpn_all_growth(cs, attrs),
    }
}

/// Encoding a list of policies grows the list as encoding each does.
pub proof fn lemma_rpn_all_growth(cs: Seq<Policy>, attrs: Seq<Seq<char>>)
    ensures
        attrs.len() <= rpn_all(cs, attrs).1.len() <= attrs.len() + crate::lsss::leaf_count_all(cs),
        rpn_all(cs, attrs).1.take(attrs.len() as int) == attrs,
    decreases cs,
{
    if cs.len() == 0 {
        assert(attrs.take(attrs.len() as int) =~= attrs);
    } else {
        lemma_rpn_all_growth(cs.drop_last(), attrs);
        let l = rpn_all(cs.drop_last(), attrs).1;
        lemma_rpn_growth(cs.last(), l);
        let l2 = rpn_tokens(cs.last(), l).1;
        assert(l2.take(l.len() as int) == l);
        assert(l2.take(attrs.len() as int) =~= l2.take(l.len() as int).take(attrs.len() as int));
    }
}

/// The value of an integer item that fits a `u64`.
fn int_as_u64(v: &CborValue) -> (r: Option<u64>)
    ensures
        match r {
            Some(x) => as_u64(Some(v@)) == Some(x as nat),
            None => as_u64(Some(v@)) is None,
        },
{
    match v {
        CborValue::Integer(i) => {
            if 0 <= *i && *i <= u64::MAX as i128 {
                Some(*i as u64)
            } else {
                None
            }
        },
        _ => None,
    }
}

/// The value of an integer item that fits a `usize`.
fn int_as_usize(v: &CborValue) -> (r: Option<usize>)
    ensures
        match r {
            Some(x) => as_usize(Some(v@)) == Some(x as nat),
            None => as_usize(Some(v@)) is None,
        },
{
    match v {
        CborValue::Integer(i) => {
            if 0 <= *i && *i <= usize::MAX as i128 {
                Some(*i as usize)
            } else {
                None
            }
        },
        _ => None,
    }
}

/// An invalid-policy error with the given message.
fn invalid_policy(msg: &str) -> (e: AbeError)
    ensures
        e matches AbeError::InvalidPolicy(m) && m@ == msg@,
{
    AbeError::InvalidPolicy(String::from_str(msg))
}

/// Applies one token to the stack of decoded policies.
fn apply_token(stack: &mut Vec<PolicyNode>, token_val: &CborValue, attr_list: &[String]) -> (r: Result<(), AbeError>)
    ensures
        match (r, decode_step(Ok(policy_views(old(stack)@)), token_val@, names(attr_list@))) {
            (Ok(()), Ok(st)) => policy_views(final(stack)@) == st,
            (Err(AbeError::InvalidPolicy(m)), Err(e)) => m@ == e,
            _ => false,
        },
{
    let ghost st = policy_views(stack@);
    let ghost l = names(attr_list@);
    proof {
        lemma_views_map(stack@);
    }
    let token = match token_val {
        CborValue::Dict(m) => m,
        _ => return Err(invalid_policy("Token must be map")),
    };
    let kind = match map_get(token.as_slice(), 0) {
        Some(v) => match int_as_u64(v) {
            Some(k) => k,
            None => return Err(invalid_policy("Token kind must be uint")),
        },
        None => return Err(invalid_policy("Token kind must be uint")),
    };
    if kind == token_kind::ATTR {
        let payload = match map_get(token.as_slice(), 1) {
            Some(p) => p,
            None => return Err(invalid_policy("ATTR missing payload")),
        };
        let attr_ref = match payload {
            CborValue::Dict(m) => m,
            _ => return Err(invalid_policy("AttrRef must be map")),
        };
        let idx = match map_get(attr_ref.as_slice(), 0) {
            Some(v) => match int_as_usize(v) {
                Some(i) => i,
                None => return Err(invalid_policy("Invalid attr index")),
            },
            None => return Err(invalid_policy("Invalid attr index")),
        };
        if idx >= attr_list.len() {
            return Err(invalid_policy("Attr index out of bounds"));
        }
        let ghost before = stack@;
        stack.push(PolicyNode::Attr(attr_list[idx].clone()));
        proof {
            lemma_views_map(stack@);
            assert(policy_views(stack@) =~= st.push(Policy::Attr(l[idx as int])));
        }
        Ok(())
    } else if kind == token_kind::AND || kind == token_kind::OR {
        let right = match stack.pop() {
            Some(x) => x,
            None => return Err(invalid_policy(if kind == token_kind::AND { "AND: stack underflow" } else { "OR: stack underflow" })),
        };
        let left = match stack.pop() {
            Some(x) => x,
            None => return Err(invalid_policy(if kind == token_kind::AND { "AND: stack underflow" } else { "OR: stack underflow" })),
        };
        let children = vec![left, right];
        proof {
            lemma_views_map(children@);
            assert(policy_views(children@) =~= st.skip(st.len() - 2));
        }
        if kind == token_kind::AND {
            stack.push(PolicyNode::And(children));
        } else {
            stack.push(PolicyNode::Or(children));
        }
        proof {
            lemma_views_map(stack@);
            assert(policy_views(stack@).drop_last() =~= st.take(st.len() - 2));
        }
        Ok(())
    } else if kind == token_kind::THRESH {
        let payload = match map_get(token.as_slice(), 1) {
            Some(p) => p,
            None => return Err(invalid_policy("THRESH missing payload")),
        };
        let thresh = match payload {
            CborValue::Dict(m) => m,
            _ => return Err(invalid_policy("Thresh payload must be map")),
        };
        let k = match map_get(thresh.as_slice(), 0) {
            Some(v) => match int_as_usize(v) {
                Some(x) => x,
                None => return Err(invalid_policy("Invalid threshold k")),
            },
            None => return Err(invalid_policy("Invalid threshold k")),
        };
        let n = match map_get(thresh.as_slice(), 1) {
            Some(v) => match int_as_usize(v) {
                Some(x) => x,
                None => return Err(invalid_policy("Invalid threshold n")),
            },
            None => return Err(invalid_policy("Invalid threshold n")),
        };
        if stack.len() < n {
            return Err(invalid_policy("THRESH: stack underflow"));
        }
        let at = stack.len() - n;
        let children = stack.split_off(at);
        proof {
            lemma_views_map(children@);
            assert(policy_views(children@) =~= st.skip(at as int));
        }
        stack.push(PolicyNode::Threshold(k, children));
        proof {
            lemma_views_map(stack@);
            assert(policy_views(stack@).drop_last() =~= st.take(at as int));
        }
        Ok(())
    } else {
        let mut msg = String::from_str("Unknown token kind: ");
        push_decimal(&mut msg, kind);
        Err(AbeError::InvalidPolicy(msg))
    }
}

/// The policy a token list decodes to, as `rpn_decode` describes it;
/// errors are invalid-policy errors.
pub fn rpn_to_policy(tokens: &[CborValue], attr_list: &[String]) -> (r: Result<PolicyNode, AbeError>)
    ensures
        match (r, rpn_decode(cbor_views(tokens@), names(attr_list@))) {
            (Ok(p), Ok(q)) => p@ == q,
            (Err(AbeError::InvalidPolicy(m)), Err(e)) => m@ == e,
            _ => false,
        },
{
    let ghost tv = cbor_views(tokens@);
    let ghost l = names(attr_list@);
    proof {
        lemma_cbor_views(tokens@);
        assert(tv.take(0) =~= Seq::<Cbor>::empty());
    }
    let mut stack: Vec<PolicyNode> = Vec::new();
    proof {
        lemma_views_map(stack@);
        assert(policy_views(stack@) =~= Seq::<Policy>::empty());
    }
    let mut i: usize = 0;
    while i < tokens.len()
        invariant
            tv == cbor_views(tokens@),
            tv == tokens@.map_values(|v: CborValue| cbor_view(v)),
            l == names(attr_list@),
            i <= tokens@.len(),
            decode_run(Ok(Seq::empty()), tv.take(i as int), l) == Ok::<Seq<Policy>, Seq<char>>(policy_views(stack@)),
        decreases tokens@.len() - i,
    {
        proof {
            assert(tv.take(i + 1).drop_last() =~= tv.take(i as int));
            assert(tv.take(i + 1).last() == tokens@[i as int]@);
        }
        match apply_token(&mut stack, &tokens[i], attr_list) {
            Ok(()) => {},
            Err(e) => {
                proof {
                    lemma_decode_run_error(Seq::empty(), tv, l, i + 1);
                }
                return Err(e);
            },
        }
        i = i + 1;
    }
    assert(tv.take(tokens@.len() as int) =~= tv);
    proof {
        lemma_views_map(stack@);
    }
    match stack.pop() {
        Some(p) => Ok(p),
        None => Err(invalid_policy("Empty policy stack")),
    }
}

/// Once the run has failed, further tokens keep the error.
pub proof fn lemma_decode_run_error(st: Seq<Policy>, tv: Seq<Cbor>, l: Seq<Seq<char>>, j: int)
    requires
        0 <= j <= tv.len(),
        decode_run(Ok(st), tv.take(j), l) is Err,
    ensures
        decode_run(Ok(st), tv, l) == decode_run(Ok(st), tv.take(j), l),
    decreases tv.len() - j,
{
    if j < tv.len() {
        assert(tv.take(j + 1).drop_last() =~= tv.take(j));
        lemma_decode_run_error(st, tv, l, j + 1);
    } else {
        assert(tv.take(j) =~= tv);
    }
}

/// Whether every AND and OR gate of a policy has exactly two children and
/// every k-of-n gate's `k` and `n` fit a `usize`: the policies whose
/// encoding decodes to themselves.
pub open spec fn binary_gates(p: Policy) -> bool
    decreases p,
{
    match p {
        Policy::Attr(_) => true,
        Policy::And(cs) => cs.len() == 2 && binary_all(cs),
        Policy::Or(cs) => cs.len() == 2 && binary_all(cs),
        Policy::Threshold(k, cs) => k <= usize::MAX && cs.len() <= usize::MAX && binary_all(cs),
    }
}

/// Whether every policy of the list has binary gates.
pub open spec fn binary_all(cs: Seq<Policy>) -> bool
    decreases cs,
{
    cs.len() == 0 || (binary_all(cs.drop_last()) && binary_gates(cs.last()))
}

/// Whether `whole` starts with `part`.
pub open spec fn extends(whole: Seq<Seq<char>>, part: Seq<Seq<char>>) -> bool {
    part.len() <= whole.len() && whole.take(part.len() as int) == part
}

/// Running two token lists is running one after the other.
proof fn lemma_decode_run_concat(st: Result<Seq<Policy>, Seq<char>>, t1: Seq<Cbor>, t2: Seq<Cbor>, l: Seq<Seq<char>>)
    ensures
        decode_run(st, t1 + t2, l) == decode_run(decode_run(st, t1, l), t2, l),
    decreases t2.len(),
{
    if t2.len() == 0 {
        assert(t1 + t2 =~= t1);
    } else {
        lemma_decode_run_concat(st, t1, t2.drop_last(), l);
        assert((t1 + t2).drop_last() =~= t1 + t2.drop_last());
        assert((t1 + t2).last() == t2.last());
    }
}

/// Running a single token is one step.
proof fn lemma_decode_run_one(st: Result<Seq<Policy>, Seq<char>>, tok: Cbor, l: Seq<Seq<char>>)
    ensures
        decode_run(st, seq![tok], l) == decode_step(st, tok, l),
{
    assert(seq![tok].drop_last() =~= Seq::<Cbor>::empty());
    assert(decode_run(st, Seq::<Cbor>::empty(), l) == st);
    assert(seq![tok].last() == tok);
    assert(seq![tok].len() == 1);
}

/// An attribute token decodes to the attribute at its index.
proof fn lemma_attr_token_step(st: Seq<Policy>, i: int, l: Seq<Seq<char>>)
    requires
        0 <= i < l.len(),
        l.len() <= usize::MAX,
    ensures
        decode_step(Ok(st), attr_token(i), l) == Ok::<Seq<Policy>, Seq<char>>(st.push(Policy::Attr(l[i]))),
{
    let m = attr_token(i)->Dict_0;
    let r = seq![(Cbor::Integer(0), Cbor::Integer(i))];
    assert(lookup(m, 0) == Some(Cbor::Integer(0)));
    assert(m.drop_first()[0] == m[1]);
    assert(lookup(m.drop_first(), 1) == Some(Cbor::Dict(r)));
    assert(lookup(m, 1) == Some(Cbor::Dict(r)));
    assert(lookup(r, 0) == Some(Cbor::Integer(i)));
}

/// A k-of-n token gathers the top `n` policies.
proof fn lemma_thresh_token_step(st: Seq<Policy>, k: nat, n: nat, l: Seq<Seq<char>>)
    requires
        k <= usize::MAX,
        n <= usize::MAX,
        n <= st.len(),
    ensures
        decode_step(Ok(st), thresh_token(k as int, n as int), l) == Ok::<Seq<Policy>, Seq<char>>(
            st.take(st.len() - n).push(Policy::Threshold(k, st.skip(st.len() - n))),
        ),
{
    let m = thresh_token(k as int, n as int)->Dict_0;
    let t = seq![(Cbor::Integer(0), Cbor::Integer(k as int)), (Cbor::Integer(1), Cbor::Integer(n as int))];
    assert(lookup(m, 0) == Some(Cbor::Integer(3)));
    assert(m.drop_first()[0] == m[1]);
    assert(lookup(m.drop_first(), 1) == Some(Cbor::Dict(t)));
    assert(lookup(m, 1) == Some(Cbor::Dict(t)));
    assert(lookup(t, 0) == Some(Cbor::Integer(k as int)));
    assert(t.drop_first()[0] == t[1]);
    assert(lookup(t.drop_first(), 1) == Some(Cbor::Integer(n as int)));
    assert(lookup(t, 1) == Some(Cbor::Integer(n as int)));
}

/// A binary gate token combines the top two policies.
proof fn lemma_gate_token_step(st: Seq<Policy>, kind: int, l: Seq<Seq<char>>)
    requires
        kind == 1 || kind == 2,
        2 <= st.len(),
    ensures
        decode_step(Ok(st), gate_token(kind), l) == Ok::<Seq<Policy>, Seq<char>>(st.take(st.len() - 2).push(
            if kind == 1 {
                Policy::And(st.skip(st.len() - 2))
            } else {
                Policy::Or(st.skip(st.len() - 2))
            },
        )),
{
    let m = gate_token(kind)->Dict_0;
    assert(lookup(m, 0) == Some(Cbor::Integer(kind)));
}

/// The tokens of a policy with binary gates push exactly that policy.
proof fn lemma_rpn_decodes(p: Policy, a: Seq<Seq<char>>, l: Seq<Seq<char>>, st: Seq<Policy>)
    requires
        binary_gates(p),
        l.len() <= usize::MAX,
        extends(l, rpn_tokens(p, a).1),
    ensures
        decode_run(Ok(st), rpn_tokens(p, a).0, l) == Ok::<Seq<Policy>, Seq<char>>(st.push(p)),
    decreases p,
{
    lemma_rpn_growth(p, a);
    match p {
        Policy::Attr(x) => {
            a.index_of_first_ensures(x);
            let i = match a.index_of_first(x) {
                Some(i) => i,
                None => a.len() as int,
            };
            let out = rpn_tokens(p, a).1;
            assert(out[i] == x);
            assert(l.take(out.len() as int)[i] == l[i]);
            lemma_decode_run_one(Ok(st), attr_token(i), l);
            lemma_attr_token_step(st, i, l);
        },
        Policy::And(cs) => {
            let (t, out) = rpn_all(cs, a);
            lemma_rpn_all_decodes(cs, a, l, st);
            let g = Seq::new(1, |i: int| gate_token(1));
            assert(rpn_tokens(p, a).0 =~= t + g);
            lemma_decode_run_concat(Ok(st), t, g, l);
            assert(g =~= seq![gate_token(1)]);
            lemma_decode_run_one(Ok(st + cs), gate_token(1), l);
            lemma_gate_token_step(st + cs, 1, l);
            assert((st + cs).take(st.len() as int) =~= st);
            assert((st + cs).skip(st.len() as int) =~= cs);
        },
        Policy::Or(cs) => {
            let (t, out) = rpn_all(cs, a);
            lemma_rpn_all_decodes(cs, a, l, st);
            let g = Seq::new(1, |i: int| gate_token(2));
            assert(rpn_tokens(p, a).0 =~= t + g);
            lemma_decode_run_concat(Ok(st), t, g, l);
            assert(g =~= seq![gate_token(2)]);
            lemma_decode_run_one(Ok(st + cs), gate_token(2), l);
            lemma_gate_token_step(st + cs, 2, l);
            assert((st + cs).take(st.len() as int) =~= st);
            assert((st + cs).skip(st.len() as int) =~= cs);
        },
        Policy::Threshold(k, cs) => {
            let (t, out) = rpn_all(cs, a);
            lemma_rpn_all_decodes(cs, a, l, st);
            let tok = thresh_token(k as int, cs.len() as int);
            assert(rpn_tokens(p, a).0 =~= t + seq![tok]);
            lemma_decode_run_concat(Ok(st), t, seq![tok], l);
            lemma_decode_run_one(Ok(st + cs), tok, l);
            lemma_thresh_token_step(st + cs, k, cs.len(), l);
            assert((st + cs).take(st.len() as int) =~= st);
            assert((st + cs).skip(st.len() as int) =~= cs);
        },
    }
}

/// The tokens of a list of policies with binary gates push the list.
proof fn lemma_rpn_all_decodes(cs: Seq<Policy>, a: Seq<Seq<char>>, l: Seq<Seq<char>>, st: Seq<Policy>)
    requires
        binary_all(cs),
        l.len() <= usize::MAX,
        extends(l, rpn_all(cs, a).1),
    ensures
        decode_run(Ok(st), rpn_all(cs, a).0, l) == Ok::<Seq<Policy>, Seq<char>>(st + cs),
    decreases cs,
{
    if cs.len() == 0 {
        assert(st + cs =~= st);
    } else {
        let (t, mid) = rpn_all(cs.drop_last(), a);
        let (t2, out) = rpn_tokens(cs.last(), mid);
        lemma_rpn_growth(cs.last(), mid);
        assert(l.take(mid.len() as int) =~= l.take(out.len() as int).take(mid.len() as int));
        lemma_rpn_all_decodes(cs.drop_last(), a, l, st);
        lemma_rpn_decodes(cs.last(), mid, l, st + cs.drop_last());
        lemma_decode_run_concat(Ok(st), t, t2, l);
        assert((st + cs.drop_last()).push(cs.last()) =~= st + cs);
    }
}

/// Encoding a policy whose AND and OR gates have two children and then
/// decoding the tokens against the attribute list built along gives the
/// policy back.
pub proof fn lemma_rpn_round_trip(p: Policy, attrs: Seq<Seq<char>>)
    requires
        binary_gates(p),
        rpn_tokens(p, attrs).1.len() <= usize::MAX,
    ensures
        rpn_decode(rpn_tokens(p, attrs).0, rpn_tokens(p, attrs).1) == Ok::<Policy, Seq<char>>(p),
{
    let l = rpn_tokens(p, attrs).1;
    assert(l.take(l.len() as int) =~= l);
    lemma_rpn_decodes(p, attrs, l, Seq::empty());
    assert(Seq::<Policy>::empty().push(p).last() == p);
}

/// Whether every AND and OR gate of a policy has a child and every k-of-n
/// gate's `k` and `n` fit a `usize`: the policies whose encoding decodes.
pub open spec fn encodable(p: Policy) -> bool
    decreases p,
{
    match p {
        Policy::Attr(_) => true,
        Policy::And(cs) => cs.len() >= 1 && encodable_all(cs),
        Policy::Or(cs) => cs.len() >= 1 && encodable_all(cs),
        Policy::Threshold(k, cs) => k <= usize::MAX && cs.len() <= usize::MAX && encodable_all(cs),
    }
}

/// Whether every policy of the list is encodable.
pub open spec fn encodable_all(cs: Seq<Policy>) -> bool
    decreases cs,
{
    cs.len() == 0 || (encodable_all(cs.drop_last()) && encodable(cs.last()))
}

/// `xs` joined by two-child gates of the given kind (1 AND, 2 OR), nested
/// to the right; a single policy stands alone.
pub open spec fn chain(kind: int, xs: Seq<Policy>) -> Policy
    decreases xs.len(),
{
    if xs.len() <= 1 {
        xs[0]
    } else if kind == 1 {
        Policy::And(seq![xs[0], chain(kind, xs.drop_first())])
    } else {
        Policy::Or(seq![xs[0], chain(kind, xs.drop_first())])
    }
}

/// The policy that the encoding of `p` decodes to: each AND or OR gate
/// becomes a chain of two-child gates over its children.
pub open spec fn binarized(p: Policy) -> Policy
    decreases p,
{
    match p {
        Policy::Attr(a) => Policy::Attr(a),
        Policy::And(cs) => chain(1, binarized_all(cs)),
        Policy::Or(cs) => chain(2, binarized_all(cs)),
        Policy::Threshold(k, cs) => Policy::Threshold(k, binarized_all(cs)),
    }
}

pub open spec fn binarized_all(cs: Seq<Policy>) -> Seq<Policy>
    decreases cs,
{
    if cs.len() == 0 {
        Seq::empty()
    } else {
        binarized_all(cs.drop_last()).push(binarized(cs.last()))
    }
}

/// Whether a set of attributes satisfies a policy: an attribute when it
/// is in the set, an AND gate when all children are satisfied, an OR gate
/// when one is, a k-of-n gate when `k` are.
pub open spec fn satisfies(p: Policy, attrs: Set<Seq<char>>) -> bool
    decreases p,
{
    match p {
        Policy::Attr(a) => attrs.contains(a),
        Policy::And(cs) => holding(cs, attrs) == cs.len(),
        Policy::Or(cs) => holding(cs, attrs) >= 1,
        Policy::Threshold(k, cs) => holding(cs, attrs) >= k,
    }
}

/// How many of the policies the attributes satisfy.
pub open spec fn holding(cs: Seq<Policy>, attrs: Set<Seq<char>>) -> nat
    decreases cs,
{
    if cs.len() == 0 {
        0
    } else {
        holding(cs.drop_last(), attrs) + if satisfies(cs.last(), attrs) { 1nat } else { 0nat }
    }
}

/// All of a list are satisfied when the count is the length, one is when
/// the count is positive.
proof fn lemma_holding(cs: Seq<Policy>, attrs: Set<Seq<char>>)
    ensures
        holding(cs, attrs) <= cs.len(),
        holding(cs, attrs) == cs.len() <==> forall|i: int| 0 <= i < cs.len() ==> satisfies(#[trigger] cs[i], attrs),
        holding(cs, attrs) >= 1 <==> exists|i: int| 0 <= i < cs.len() && satisfies(#[trigger] cs[i], attrs),
    decreases cs.len(),
{
    if cs.len() > 0 {
        let d = cs.drop_last();
        lemma_holding(d, attrs);
        assert forall|i: int| 0 <= i < d.len() implies d[i] == cs[i] by {}
        if holding(cs, attrs) == cs.len() {
            assert forall|i: int| 0 <= i < cs.len() implies satisfies(#[trigger] cs[i], attrs) by {
                if i < d.len() {
                    assert(satisfies(d[i], attrs));
                }
            }
        }
        if forall|i: int| 0 <= i < cs.len() ==> satisfies(#[trigger] cs[i], attrs) {
            assert forall|i: int| 0 <= i < d.len() implies satisfies(#[trigger] d[i], attrs) by {
                assert(satisfies(cs[i], attrs));
            }
            assert(satisfies(cs[cs.len() - 1], attrs));
        }
        if exists|i: int| 0 <= i < cs.len() && satisfies(#[trigger] cs[i], attrs) {
            let i = choose|i: int| 0 <= i < cs.len() && satisfies(#[trigger] cs[i], attrs);
            if i < d.len() {
                assert(satisfies(d[i], attrs));
            }
        }
        if holding(d, attrs) >= 1 {
            let i = choose|i: int| 0 <= i < d.len() && satisfies(#[trigger] d[i], attrs);
            assert(satisfies(cs[i], attrs));
        }
        if satisfies(cs.last(), attrs) {
            assert(satisfies(cs[cs.len() - 1], attrs));
        }
    }
}

/// A chain of AND gates is satisfied when all its policies are, one of OR
/// gates when one is.
proof fn lemma_chain_satisfies(kind: int, xs: Seq<Policy>, attrs: Set<Seq<char>>)
    requires
        xs.len() >= 1,
        kind == 1 || kind == 2,
    ensures
        kind == 1 ==> (satisfies(chain(kind, xs), attrs) <==> forall|i: int| 0 <= i < xs.len() ==> satisfies(#[trigger] xs[i], attrs)),
        kind == 2 ==> (satisfies(chain(kind, xs), attrs) <==> exists|i: int| 0 <= i < xs.len() && satisfies(#[trigger] xs[i], attrs)),
    decreases xs.len(),
{
    if xs.len() > 1 {
        let rest = xs.drop_first();
        lemma_chain_satisfies(kind, rest, attrs);
        let pair = seq![xs[0], chain(kind, rest)];
        lemma_holding(pair, attrs);
        assert(pair[0] == xs[0] && pair[1] == chain(kind, rest));
        assert forall|i: int| 0 <= i < rest.len() implies rest[i] == xs[i + 1] by {}
        if kind == 1 {
            if forall|i: int| 0 <= i < xs.len() ==> satisfies(#[trigger] xs[i], attrs) {
                assert forall|i: int| 0 <= i < rest.len() implies satisfies(#[trigger] rest[i], attrs) by {
                    assert(satisfies(xs[i + 1], attrs));
                }
                assert forall|i: int| 0 <= i < pair.len() implies satisfies(#[trigger] pair[i], attrs) by {
                    assert(satisfies(xs[0], attrs));
                }
            }
            if satisfies(chain(kind, xs), attrs) {
                assert(satisfies(pair[0], attrs) && satisfies(pair[1], attrs));
                assert forall|i: int| 0 <= i < xs.len() implies satisfies(#[trigger] xs[i], attrs) by {
                    if i > 0 {
                        assert(satisfies(rest[i - 1], attrs));
                    }
                }
            }
        } else {
            if exists|i: int| 0 <= i < xs.len() && satisfies(#[trigger] xs[i], attrs) {
                let i = choose|i: int| 0 <= i < xs.len() && satisfies(#[trigger] xs[i], attrs);
                if i == 0 {
                    assert(satisfies(pair[0], attrs));
                } else {
                    assert(satisfies(rest[i - 1], attrs));
                    assert(satisfies(pair[1], attrs));
                }
            }
            if satisfies(chain(kind, xs), attrs) {
                let i = choose|i: int| 0 <= i < pair.len() && satisfies(#[trigger] pair[i], attrs);
                if i == 1 {
                    let j = choose|j: int| 0 <= j < rest.len() && satisfies(#[trigger] rest[j], attrs);
                    assert(satisfies(xs[j + 1], attrs));
                } else {
                    assert(satisfies(xs[0], attrs));
                }
            }
        }
    }
}

/// Splitting wide gates keeps which attribute sets satisfy a policy.
pub proof fn lemma_binarized_satisfies(p: Policy, attrs: Set<Seq<char>>)
    requires
        encodable(p),
    ensures
        satisfies(binarized(p), attrs) == satisfies(p, attrs),
    decreases p,
{
    match p {
        Policy::Attr(a) => {
            assert(binarized(p) == Policy::Attr(a));
        },
        Policy::And(cs) => {
            lemma_binarized_all_satisfies(cs, attrs);
            lemma_holding(cs, attrs);
            lemma_chain_satisfies(1, binarized_all(cs), attrs);
            let bs = binarized_all(cs);
            if satisfies(p, attrs) {
                assert forall|i: int| 0 <= i < bs.len() implies satisfies(#[trigger] bs[i], attrs) by {
                    assert(satisfies(cs[i], attrs));
                }
            }
            if satisfies(binarized(p), attrs) {
                assert forall|i: int| 0 <= i < cs.len() implies satisfies(#[trigger] cs[i], attrs) by {
                    assert(satisfies(bs[i], attrs));
                }
            }
            assert(satisfies(binarized(p), attrs) == satisfies(p, attrs));
        },
        Policy::Or(cs) => {
            lemma_binarized_all_satisfies(cs, attrs);
            lemma_holding(cs, attrs);
            lemma_chain_satisfies(2, binarized_all(cs), attrs);
            if satisfies(p, attrs) {
                let i = choose|i: int| 0 <= i < cs.len() && satisfies(#[trigger] cs[i], attrs);
                assert(satisfies(binarized_all(cs)[i], attrs));
            }
            if satisfies(binarized(p), attrs) {
                let i = choose|i: int| 0 <= i < cs.len() && satisfies(#[trigger] binarized_all(cs)[i], attrs);
                assert(satisfies(cs[i], attrs));
            }
            assert(satisfies(binarized(p), attrs) == satisfies(p, attrs));
        },
        Policy::Threshold(_, cs) => {
            lemma_binarized_all_satisfies(cs, attrs);
            assert(satisfies(binarized(p), attrs) == satisfies(p, attrs));
        },
    }
}

proof fn lemma_binarized_all_satisfies(cs: Seq<Policy>, attrs: Set<Seq<char>>)
    requires
        encodable_all(cs),
    ensures
        binarized_all(cs).len() == cs.len(),
        holding(binarized_all(cs), attrs) == holding(cs, attrs),
        forall|i: int| 0 <= i < cs.len() ==> satisfies(#[trigger] binarized_all(cs)[i], attrs) == satisfies(cs[i], attrs),
    decreases cs,
{
    if cs.len() > 0 {
        let d = cs.drop_last();
        lemma_binarized_all_satisfies(d, attrs);
        lemma_binarized_satisfies(cs.last(), attrs);
        let b = binarized_all(cs);
        assert(b.drop_last() =~= binarized_all(d));
        assert forall|i: int| 0 <= i < cs.len() implies satisfies(#[trigger] binarized_all(cs)[i], attrs) == satisfies(cs[i], attrs) by {
            if i < d.len() {
                assert(b[i] == binarized_all(d)[i]);
                assert(cs[i] == d[i]);
            }
        }
    }
}

/// Binary gate tokens of one kind fold the top of the stack into a chain.
proof fn lemma_gates_fold(kind: int, st: Seq<Policy>, bs: Seq<Policy>, m: nat, l: Seq<Seq<char>>)
    requires
        kind == 1 || kind == 2,
        bs.len() >= 1,
        m < bs.len(),
    ensures
        decode_run(Ok(st + bs), Seq::new(m, |i: int| gate_token(kind)), l) == Ok::<Seq<Policy>, Seq<char>>(
            (st + bs.take(bs.len() - 1 - m)).push(chain(kind, bs.skip(bs.len() - 1 - m))),
        ),
    decreases m,
{
    let n = bs.len();
    if m == 0 {
        assert(Seq::new(0, |i: int| gate_token(kind)) =~= Seq::<Cbor>::empty());
        assert(bs.skip(n - 1) =~= seq![bs[n - 1]]);
        assert((st + bs.take(n - 1)).push(bs[n - 1]) =~= st + bs);
    } else {
        lemma_gates_fold(kind, st, bs, (m - 1) as nat, l);
        let g = Seq::new(m, |i: int| gate_token(kind));
        assert(g.drop_last() =~= Seq::new((m - 1) as nat, |i: int| gate_token(kind)));
        let j = n - m;
        let stack = (st + bs.take(j)).push(chain(kind, bs.skip(j)));
        lemma_gate_token_step(stack, kind, l);
        assert(stack.take(stack.len() - 2) =~= st + bs.take(j - 1));
        assert(bs.skip(j - 1).drop_first() =~= bs.skip(j));
        assert(bs.skip(j - 1)[0] == bs[j - 1]);
        assert(stack.skip(stack.len() - 2) =~= seq![bs[j - 1], chain(kind, bs.skip(j))]);
    }
}

/// The tokens of an encodable policy push the policy with its wide gates
/// split.
proof fn lemma_rpn_decodes_split(p: Policy, a: Seq<Seq<char>>, l: Seq<Seq<char>>, st: Seq<Policy>)
    requires
        encodable(p),
        l.len() <= usize::MAX,
        extends(l, rpn_tokens(p, a).1),
    ensures
        decode_run(Ok(st), rpn_tokens(p, a).0, l) == Ok::<Seq<Policy>, Seq<char>>(st.push(binarized(p))),
    decreases p,
{
    lemma_rpn_growth(p, a);
    match p {
        Policy::Attr(x) => {
            a.index_of_first_ensures(x);
            let i = match a.index_of_first(x) {
                Some(i) => i,
                None => a.len() as int,
            };
            let out = rpn_tokens(p, a).1;
            assert(out[i] == x);
            assert(l.take(out.len() as int)[i] == l[i]);
            lemma_decode_run_one(Ok(st), attr_token(i), l);
            lemma_attr_token_step(st, i, l);
        },
        Policy::And(cs) => {
            let (t, out) = rpn_all(cs, a);
            lemma_rpn_all_decodes_split(cs, a, l, st);
            let bs = binarized_all(cs);
            let g = Seq::new((cs.len() - 1) as nat, |i: int| gate_token(1));
            assert(rpn_tokens(p, a).0 =~= t + g);
            lemma_decode_run_concat(Ok(st), t, g, l);
            lemma_gates_fold(1, st, bs, (cs.len() - 1) as nat, l);
            assert(bs.take(0) =~= Seq::<Policy>::empty());
            assert(bs.skip(0) =~= bs);
            assert(st + bs.take(0) =~= st);
        },
        Policy::Or(cs) => {
            let (t, out) = rpn_all(cs, a);
            lemma_rpn_all_decodes_split(cs, a, l, st);
            let bs = binarized_all(cs);
            let g = Seq::new((cs.len() - 1) as nat, |i: int| gate_token(2));
            assert(rpn_tokens(p, a).0 =~= t + g);
            lemma_decode_run_concat(Ok(st), t, g, l);
            lemma_gates_fold(2, st, bs, (cs.len() - 1) as nat, l);
            assert(bs.take(0) =~= Seq::<Policy>::empty());
            assert(bs.skip(0) =~= bs);
            assert(st + bs.take(0) =~= st);
        },
        Policy::Threshold(k, cs) => {
            let (t, out) = rpn_all(cs, a);
            lemma_rpn_all_decodes_split(cs, a, l, st);
            let bs = binarized_all(cs);
            let tok = thresh_token(k as int, cs.len() as int);
            assert(rpn_tokens(p, a).0 =~= t + seq![tok]);
            lemma_decode_run_concat(Ok(st), t, seq![tok], l);
            lemma_decode_run_one(Ok(st + bs), tok, l);
            lemma_thresh_token_step(st + bs, k, cs.len(), l);
            assert((st + bs).take(st.len() as int) =~= st);
            assert((st + bs).skip(st.len() as int) =~= bs);
        },
    }
}

/// The tokens of a list of encodable policies push the list with wide
/// gates split.
proof fn lemma_rpn_all_decodes_split(cs: Seq<Policy>, a: Seq<Seq<char>>, l: Seq<Seq<char>>, st: Seq<Policy>)
    requires
        encodable_all(cs),
        l.len() <= usize::MAX,
        extends(l, rpn_all(cs, a).1),
    ensures
        decode_run(Ok(st), rpn_all(cs, a).0, l) == Ok::<Seq<Policy>, Seq<char>>(st + binarized_all(cs)),
        binarized_all(cs).len() == cs.len(),
    decreases cs,
{
    if cs.len() == 0 {
        assert(st + binarized_all(cs) =~= st);
    } else {
        let (t, mid) = rpn_all(cs.drop_last(), a);
        let (t2, out) = rpn_tokens(cs.last(), mid);
        lemma_rpn_growth(cs.last(), mid);
        assert(l.take(mid.len() as int) =~= l.take(out.len() as int).take(mid.len() as int));
        lemma_rpn_all_decodes_split(cs.drop_last(), a, l, st);
        lemma_rpn_decodes_split(cs.last(), mid, l, st + binarized_all(cs.drop_last()));
        lemma_decode_run_concat(Ok(st), t, t2, l);
        assert((st + binarized_all(cs.drop_last())).push(binarized(cs.last())) =~= st + binarized_all(cs));
    }
}

/// Encoding a policy whose AND and OR gates have children and decoding the
/// tokens against the attribute list built along gives the policy with its
/// wider AND and OR gates split into nested two-child gates: a policy that
/// the same attribute sets satisfy.
pub proof fn lemma_rpn_round_trip_split(p: Policy, attrs: Seq<Seq<char>>)
    requires
        encodable(p),
        rpn_tokens(p, attrs).1.len() <= usize::MAX,
    ensures
        rpn_decode(rpn_tokens(p, attrs).0, rpn_tokens(p, attrs).1) == Ok::<Policy, Seq<char>>(binarized(p)),
        forall|s: Set<Seq<char>>| satisfies(binarized(p), s) == #[trigger] satisfies(p, s),
{
    let l = rpn_tokens(p, attrs).1;
    assert(l.take(l.len() as int) =~= l);
    lemma_rpn_decodes_split(p, attrs, l, Seq::empty());
    assert(Seq::<Policy>::empty().push(binarized(p)).last() == binarized(p));
    assert forall|s: Set<Seq<char>>| satisfies(binarized(p), s) == #[trigger] satisfies(p, s) by {
        lemma_binarized_satisfies(p, s);
    }
}

/// Group elements laid out as an array of byte strings.
pub open spec fn group_elems_cbor(elems: Seq<Seq<u8>>) -> Cbor {
    Cbor::Array(elems.map_values(|e: Seq<u8>| Cbor::Bytes(e)))
}

/// Group elements read back from CBOR: an array of byte strings.
pub open spec fn group_elems_decode(c: Cbor) -> Result<Seq<Seq<u8>>, Seq<char>> {
    match c {
        Cbor::Array(items) => if forall|i: int| 0 <= i < items.len() ==> (#[trigger] items[i]) is Bytes {
            Ok(items.map_values(|v: Cbor| v->Bytes_0))
        } else {
            Err("GroupElem must be bytes"@)
        },
        _ => Err("GroupElems must be array"@),
    }
}

/// The byte strings of a list of byte vectors.
pub open spec fn byte_views(v: Seq<Vec<u8>>) -> Seq<Seq<u8>> {
    v.map_values(|e: Vec<u8>| e@)
}

/// Lays group elements out as an array of byte strings.
pub fn encode_group_elems(elems: &[Vec<u8>]) -> (c: CborValue)
    ensures
        c@ == group_elems_cbor(byte_views(elems@)),
{
    let mut arr: Vec<CborValue> = Vec::new();
    let mut i: usize = 0;
    while i < elems.len()
        invariant
            i <= elems@.len(),
            cbor_views(arr@) == group_elems_cbor(byte_views(elems@))->Array_0.take(i as int),
        decreases elems@.len() - i,
    {
        let ghost before = arr@;
        let e = elems[i].clone();
        assert(e@ =~= elems@[i as int]@);
        let item = CborValue::Bytes(e);
        assert(item@ == Cbor::Bytes(elems@[i as int]@));
        arr.push(item);
        proof {
            lemma_cbor_views(arr@);
            lemma_cbor_views(before);
            assert(cbor_views(arr@) =~= cbor_views(before).push(Cbor::Bytes(elems@[i as int]@)));
            assert(cbor_views(arr@) =~= group_elems_cbor(byte_views(elems@))->Array_0.take(i + 1));
        }
        i = i + 1;
    }
    assert(group_elems_cbor(byte_views(elems@))->Array_0.take(elems@.len() as int) =~= group_elems_cbor(byte_views(elems@))->Array_0);
    CborValue::Array(arr)
}

/// Reads group elements back, as `group_elems_decode` describes it; errors
/// are decryption errors.
pub fn decode_group_elems(value: &CborValue) -> (r: Result<Vec<Vec<u8>>, AbeError>)
    ensures
        match (r, group_elems_decode(value@)) {
            (Ok(v), Ok(w)) => byte_views(v@) == w,
            (Err(AbeError::DecryptError(m)), Err(e)) => m@ == e,
            _ => false,
        },
{
    let arr = match value {
        CborValue::Array(a) => a,
        _ => return Err(AbeError::DecryptError(String::from_str("GroupElems must be array"))),
    };
    let ghost items = cbor_views(arr@);
    proof {
        lemma_cbor_views(arr@);
    }
    let mut result: Vec<Vec<u8>> = Vec::new();
    let mut i: usize = 0;
    while i < arr.len()
        invariant
            items == cbor_views(arr@),
            items == arr@.map_values(|v: CborValue| cbor_view(v)),
            value@ == Cbor::Array(items),
            i <= arr@.len(),
            forall|j: int| 0 <= j < i ==> (#[trigger] items[j]) is Bytes,
            byte_views(result@) == items.take(i as int).map_values(|v: Cbor| v->Bytes_0),
        decreases arr@.len() - i,
    {
        assert(items[i as int] == cbor_view(arr@[i as int]));
        if let CborValue::Bytes(b) = &arr[i] {
            let ghost before = result@;
            let c = b.clone();
            assert(c@ =~= b@);
            result.push(c);
            proof {
                assert(items[i as int]->Bytes_0 == b@);
                assert(byte_views(result@) =~= byte_views(before).push(b@));
                assert(items.take(i + 1) =~= items.take(i as int).push(items[i as int]));
                assert(byte_views(result@) =~= items.take(i + 1).map_values(|v: Cbor| v->Bytes_0));
            }
        } else {
            proof {
                assert(!(items[i as int] is Bytes));
                assert(!(forall|j: int| 0 <= j < items.len() ==> (#[trigger] items[j]) is Bytes));
            }
            return Err(AbeError::DecryptError(String::from_str("GroupElem must be bytes")));
        }
        i = i + 1;
    }
    assert(items.take(arr@.len() as int) =~= items);
    assert(forall|j: int| 0 <= j < items.len() ==> (#[trigger] items[j]) is Bytes);
    Ok(result)
}

/// Group elements survive being laid out and read back.
pub proof fn lemma_group_elems_round_trip(elems: Seq<Seq<u8>>)
    ensures
        group_elems_decode(group_elems_cbor(elems)) == Ok::<Seq<Seq<u8>>, Seq<char>>(elems),
{
    let items = elems.map_values(|e: Seq<u8>| Cbor::Bytes(e));
    assert(items.map_values(|v: Cbor| v->Bytes_0) =~= elems);
}

/// An attribute entry of an attribute set: `{0: 0, 1: name}`.
pub open spec fn attr_entry(a: Seq<char>) -> Cbor {
    Cbor::Dict(seq![(Cbor::Integer(0), Cbor::Integer(0)), (Cbor::Integer(1), Cbor::Text(a))])
}

/// An attribute set laid out as CBOR: `{0: [entries]}`, the attributes in
/// string order.
pub open spec fn attr_set_cbor(attrs: Seq<Seq<char>>) -> Cbor {
    attr_list_cbor(sort_strings(attrs))
}

/// Attribute names laid out as an attribute set in the order given: `{0:
/// [entry, ...]}`.
pub open spec fn attr_list_cbor(attrs: Seq<Seq<char>>) -> Cbor {
    Cbor::Dict(seq![(Cbor::Integer(0), Cbor::Array(attrs.map_values(|a: Seq<char>| attr_entry(a))))])
}

/// The name of an attribute entry, or the error it gives.
pub open spec fn attr_entry_decode(c: Cbor) -> Result<Seq<char>, Seq<char>> {
    match c {
        Cbor::Dict(m) => match lookup(m, 1) {
            Some(Cbor::Text(t)) => Ok(t),
            _ => Err("Attr value must be text"@),
        },
        _ => Err("Attr must be map"@),
    }
}

/// The names of the first `n` entries, or the first error among them.
pub open spec fn attr_entries_decode(items: Seq<Cbor>, n: nat) -> Result<Seq<Seq<char>>, Seq<char>>
    decreases n,
{
    if n == 0 {
        Ok(Seq::empty())
    } else {
        match attr_entries_decode(items, (n - 1) as nat) {
            Err(e) => Err(e),
            Ok(names) => match attr_entry_decode(items[n - 1]) {
                Err(e) => Err(e),
                Ok(a) => Ok(names.push(a)),
            },
        }
    }
}

/// An attribute set read back from CBOR.
pub open spec fn attr_set_decode(c: Cbor) -> Result<Seq<Seq<char>>, Seq<char>> {
    match c {
        Cbor::Dict(m) => match lookup(m, 0) {
            None => Err("AttrSet missing attrs array"@),
            Some(Cbor::Array(items)) => attr_entries_decode(items, items.len()),
            Some(_) => Err("Attrs must be array"@),
        },
        _ => Err("AttrSet must be map"@),
    }
}

/// The strings of `attrs` in string order.
pub(crate) fn sorted_strings(attrs: &[String]) -> (r: Vec<String>)
    ensures
        names(r@) == sort_strings(names(attrs@)),
{
    let mut pairs: Vec<(String, ())> = Vec::new();
    let mut i: usize = 0;
    while i < attrs.len()
        invariant
            i <= attrs@.len(),
            keyed_view(pairs@) == names(attrs@).take(i as int).map_values(|t: Seq<char>| (t, ())),
        decreases attrs@.len() - i,
    {
        let ghost before = pairs@;
        let a = attrs[i].clone();
        pairs.push((a, ()));
        proof {
            assert(keyed_view(pairs@) =~= keyed_view(before).push((attrs@[i as int]@, ())));
            assert(names(attrs@).take(i + 1) =~= names(attrs@).take(i as int).push(attrs@[i as int]@));
            assert(keyed_view(pairs@) =~= names(attrs@).take(i + 1).map_values(|t: Seq<char>| (t, ())));
        }
        i = i + 1;
    }
    assert(names(attrs@).take(attrs@.len() as int) =~= names(attrs@));
    let sorted = sort_keyed(pairs);
    let ghost sv = sort_strings(names(attrs@));
    assert(keyed_view(sorted@).map_values(|p: (Seq<char>, ())| p.0) =~= sv);
    let mut r: Vec<String> = Vec::new();
    let mut j: usize = 0;
    while j < sorted.len()
        invariant
            sv == keyed_view(sorted@).map_values(|p: (Seq<char>, ())| p.0),
            j <= sorted@.len(),
            r@.len() == j,
            forall|k: int| 0 <= k < j ==> (#[trigger] r@[k])@ == sv[k],
        decreases sorted@.len() - j,
    {
        r.push(sorted[j].0.clone());
        j = j + 1;
    }
    assert(names(r@) =~= sv);
    r
}

/// Lays an attribute set out as CBOR, in string order.
pub fn encode_attr_set(attrs: &[String]) -> (c: CborValue)
    ensures
        c@ == attr_set_cbor(names(attrs@)),
{
    let sorted = sorted_strings(attrs);
    encode_attr_list(sorted.as_slice())
}

/// Lays attribute names out as an attribute set in the order given.
pub(crate) fn encode_attr_list(sorted: &[String]) -> (c: CborValue)
    ensures
        c@ == attr_list_cbor(names(sorted@)),
{
    let ghost sv = names(sorted@);
    let mut arr: Vec<CborValue> = Vec::new();
    let mut j: usize = 0;
    while j < sorted.len()
        invariant
            sv == names(sorted@),
            j <= sorted@.len(),
            cbor_views(arr@) == sv.map_values(|a: Seq<char>| attr_entry(a)).take(j as int),
        decreases sorted@.len() - j,
    {
        let mut entry: Vec<(CborValue, CborValue)> = Vec::new();
        assert(pair_views(entry@) =~= Seq::<(Cbor, Cbor)>::empty());
        map_insert(&mut entry, 0, CborValue::Integer(0));
        map_insert(&mut entry, 1, CborValue::Text(sorted[j].clone()));
        assert(pair_views(entry@) =~= attr_entry(sv[j as int])->Dict_0);
        let ghost before = arr@;
        arr.push(dict_of(entry));
        proof {
            assert(arr@.drop_last() =~= before);
            assert(cbor_views(arr@) =~= sv.map_values(|a: Seq<char>| attr_entry(a)).take(j + 1));
        }
        j = j + 1;
    }
    assert(sv.map_values(|a: Seq<char>| attr_entry(a)).take(sorted@.len() as int) =~= sv.map_values(|a: Seq<char>| attr_entry(a)));
    let mut map: Vec<(CborValue, CborValue)> = Vec::new();
    assert(pair_views(map@) =~= Seq::<(Cbor, Cbor)>::empty());
    map_insert(&mut map, 0, CborValue::Array(arr));
    assert(pair_views(map@) =~= attr_list_cbor(sv)->Dict_0);
    dict_of(map)
}

/// Reads an attribute set back, as `attr_set_decode` describes it; errors
/// are decryption errors.
pub fn decode_attr_set(value: &CborValue) -> (r: Result<Vec<String>, AbeError>)
    ensures
        match (r, attr_set_decode(value@)) {
            (Ok(v), Ok(w)) => names(v@) == w,
            (Err(AbeError::DecryptError(m)), Err(e)) => m@ == e,
            _ => false,
        },
{
    let map = match value {
        CborValue::Dict(m) => m,
        _ => return Err(AbeError::DecryptError(String::from_str("AttrSet must be map"))),
    };
    let attrs_val = match map_get(map.as_slice(), 0) {
        Some(v) => v,
        None => return Err(AbeError::DecryptError(String::from_str("AttrSet missing attrs array"))),
    };
    let arr = match attrs_val {
        CborValue::Array(a) => a,
        _ => return Err(AbeError::DecryptError(String::from_str("Attrs must be array"))),
    };
    let ghost items = cbor_views(arr@);
    proof {
        lemma_cbor_views(arr@);
    }
    let mut result: Vec<String> = Vec::new();
    assert(names(result@) =~= Seq::<Seq<char>>::empty());
    let mut i: usize = 0;
    while i < arr.len()
        invariant
            items == cbor_views(arr@),
            items == arr@.map_values(|v: CborValue| cbor_view(v)),
            value@ matches Cbor::Dict(m) && lookup(m, 0) == Some(Cbor::Array(items)),
            i <= arr@.len(),
            attr_entries_decode(items, i as nat) == Ok::<Seq<Seq<char>>, Seq<char>>(names(result@)),
        decreases arr@.len() - i,
    {
        assert(items[i as int] == cbor_view(arr@[i as int]));
        let name: String;
        if let CborValue::Dict(m) = &arr[i] {
            let got = map_get(m.as_slice(), 1);
            if let Some(CborValue::Text(t)) = got {
                name = t.clone();
                assert(attr_entry_decode(items[i as int]) == Ok::<Seq<char>, Seq<char>>(t@));
            } else {
                proof {
                    assert(attr_entry_decode(items[i as int]) == Err::<Seq<char>, Seq<char>>("Attr value must be text"@));
                    lemma_attr_entries_error(items, (i + 1) as nat, arr@.len());
                }
                return Err(AbeError::DecryptError(String::from_str("Attr value must be text")));
            }
        } else {
            proof {
                assert(attr_entry_decode(items[i as int]) == Err::<Seq<char>, Seq<char>>("Attr must be map"@));
                lemma_attr_entries_error(items, (i + 1) as nat, arr@.len());
            }
            return Err(AbeError::DecryptError(String::from_str("Attr must be map")));
        }
        let ghost before = result@;
        result.push(name);
        assert(names(result@) =~= names(before).push(name@));
        i = i + 1;
    }
    Ok(result)
}

/// Once an entry fails to decode, later entries keep that error.
proof fn lemma_attr_entries_error(items: Seq<Cbor>, j: nat, n: nat)
    requires
        j <= n,
        attr_entries_decode(items, j) is Err,
    ensures
        attr_entries_decode(items, n) == attr_entries_decode(items, j),
    decreases n - j,
{
    if j < n {
        lemma_attr_entries_error(items, j + 1, n);
    }
}

/// An attribute set survives being laid out and read back, in string
/// order.
pub proof fn lemma_attr_set_round_trip(attrs: Seq<Seq<char>>)
    ensures
        attr_set_decode(attr_set_cbor(attrs)) == Ok::<Seq<Seq<char>>, Seq<char>>(sort_strings(attrs)),
{
    lemma_attr_list_round_trip(sort_strings(attrs));
}

/// Attribute names laid out in a given order are read back in that order.
pub proof fn lemma_attr_list_round_trip(sv: Seq<Seq<char>>)
    ensures
        attr_set_decode(attr_list_cbor(sv)) == Ok::<Seq<Seq<char>>, Seq<char>>(sv),
{
    let items = sv.map_values(|a: Seq<char>| attr_entry(a));
    let m = attr_list_cbor(sv)->Dict_0;
    assert(lookup(m, 0) == Some(Cbor::Array(items)));
    lemma_attr_entries_all(sv, items, items.len());
    assert(sv.take(items.len() as int) =~= sv);
}

/// The entries of a list of names decode to the names.
proof fn lemma_attr_entries_all(sv: Seq<Seq<char>>, items: Seq<Cbor>, n: nat)
    requires
        items == sv.map_values(|a: Seq<char>| attr_entry(a)),
        n <= items.len(),
    ensures
        attr_entries_decode(items, n) == Ok::<Seq<Seq<char>>, Seq<char>>(sv.take(n as int)),
    decreases n,
{
    if n > 0 {
        lemma_attr_entries_all(sv, items, (n - 1) as nat);
        let e = attr_entry(sv[n - 1])->Dict_0;
        assert(e.drop_first()[0] == e[1]);
        assert(lookup(e.drop_first(), 1) == Some(Cbor::Text(sv[n - 1])));
        assert(lookup(e, 1) == Some(Cbor::Text(sv[n - 1])));
        assert(sv.take(n as int) =~= sv.take(n - 1).push(sv[n - 1]));
    } else {
        assert(sv.take(0) =~= Seq::<Seq<char>>::empty());
    }
}

} // verus!
