use rabe_abe::cbor::{
    decode_attr_set, decode_group_elems, encode_attr_set, encode_group_elems, map_get, map_insert,
    policy_to_rpn, rpn_to_policy, CborValue, Suite,
};
use rabe_abe::cbor::wire;
use rabe_abe::lsss::PolicyNode;
use rabe_abe::AbeError;

fn attr(name: &str) -> PolicyNode {
    PolicyNode::Attr(name.to_string())
}

fn invalid_message(r: Result<PolicyNode, AbeError>) -> String {
    match r {
        Err(AbeError::InvalidPolicy(m)) => m,
        other => panic!("expected an invalid policy error, got {:?}", other),
    }
}

#[test]
fn test_policy_rpn_roundtrip() {
    let policy = PolicyNode::And(vec![
        PolicyNode::Attr("a".to_string()),
        PolicyNode::Attr("b".to_string()),
    ]);

    let mut attr_list = Vec::new();
    let tokens = policy_to_rpn(&policy, &mut attr_list);
    let decoded = rpn_to_policy(&tokens, &attr_list).unwrap();

    assert_eq!(policy.to_canonical_string(), decoded.to_canonical_string());
}

#[test]
fn rpn_round_trip_with_shared_attributes_and_thresholds() {
    let policy = PolicyNode::Or(vec![
        PolicyNode::Threshold(2, vec![attr("x"), attr("y"), attr("x")]),
        PolicyNode::And(vec![attr("y"), attr("z")]),
    ]);
    let mut attr_list = Vec::new();
    let tokens = policy_to_rpn(&policy, &mut attr_list);
    assert_eq!(attr_list, vec!["x".to_string(), "y".to_string(), "z".to_string()]);
    assert_eq!(tokens.len(), 3 + 1 + 2 + 1 + 1);
    assert_eq!(rpn_to_policy(&tokens, &attr_list).unwrap(), policy);
}

#[test]
fn wide_gates_decode_as_nested_pairs() {
    let policy = PolicyNode::And(vec![attr("a"), attr("b"), attr("c")]);
    let mut attr_list = Vec::new();
    let tokens = policy_to_rpn(&policy, &mut attr_list);
    let decoded = rpn_to_policy(&tokens, &attr_list).unwrap();
    assert_eq!(decoded, PolicyNode::And(vec![attr("a"), PolicyNode::And(vec![attr("b"), attr("c")])]));
}

#[test]
fn malformed_tokens_are_refused() {
    let attrs = vec!["a".to_string()];
    assert_eq!(invalid_message(rpn_to_policy(&[], &attrs)), "Empty policy stack");
    assert_eq!(invalid_message(rpn_to_policy(&[CborValue::Integer(1)], &attrs)), "Token must be map");
    let mut and_token = Vec::new();
    map_insert(&mut and_token, 0, CborValue::Integer(1));
    assert_eq!(invalid_message(rpn_to_policy(&[CborValue::Dict(and_token)], &attrs)), "AND: stack underflow");
    let mut odd = Vec::new();
    map_insert(&mut odd, 0, CborValue::Integer(9));
    assert_eq!(invalid_message(rpn_to_policy(&[CborValue::Dict(odd)], &attrs)), "Unknown token kind: 9");
    let mut neg = Vec::new();
    map_insert(&mut neg, 0, CborValue::Integer(-1));
    assert_eq!(invalid_message(rpn_to_policy(&[CborValue::Dict(neg)], &attrs)), "Token kind must be uint");
    let mut list = vec!["q".to_string(), "r".to_string()];
    let tokens = policy_to_rpn(&attr("r"), &mut list);
    assert_eq!(invalid_message(rpn_to_policy(&tokens, &attrs)), "Attr index out of bounds");
}

#[test]
fn suite_round_trip_and_defaults() {
    let suite = Suite::waters_cca();
    assert_eq!(suite.scheme_id, "cpabe-waters-cca");
    assert_eq!(suite.curve_id, "bls12-381");
    let decoded = Suite::from_cbor(&suite.to_cbor()).unwrap();
    assert_eq!(decoded.scheme_id, "cpabe-waters-cca");
    assert_eq!(decoded.security_level, 128);
    assert!(decoded.subgroup_check);
    let mut custom = Suite::default();
    custom.security_level = 256;
    custom.subgroup_check = false;
    custom.endianness = 1;
    let back = Suite::from_cbor(&custom.to_cbor()).unwrap();
    assert_eq!(back.security_level, 256);
    assert!(!back.subgroup_check);
    assert_eq!(back.endianness, 1);
    let empty = Suite::from_cbor(&CborValue::Dict(Vec::new())).unwrap();
    assert_eq!(empty.scheme_id, "cpabe-waters");
    match Suite::from_cbor(&CborValue::Bool(true)) {
        Err(AbeError::DecryptError(m)) => assert_eq!(m, "Suite must be a map"),
        _ => panic!("expected an error"),
    }
    let mut bad = Vec::new();
    map_insert(&mut bad, 0, CborValue::Integer(3));
    match Suite::from_cbor(&CborValue::Dict(bad)) {
        Err(AbeError::DecryptError(m)) => assert_eq!(m, "scheme_id must be text"),
        _ => panic!("expected an error"),
    }
}

#[test]
fn map_lookup_finds_the_first_integer_key() {
    let mut map = Vec::new();
    map_insert(&mut map, 2, CborValue::Text("first".to_string()));
    map_insert(&mut map, 2, CborValue::Text("second".to_string()));
    match map_get(&map, 2) {
        Some(CborValue::Text(t)) => assert_eq!(t, "first"),
        _ => panic!("missing key"),
    }
    assert!(map_get(&map, 5).is_none());
}

#[test]
fn group_elements_round_trip() {
    let elems = vec![vec![1u8, 2, 3], vec![], vec![255u8]];
    let value = encode_group_elems(&elems);
    assert_eq!(decode_group_elems(&value).unwrap(), elems);
    match decode_group_elems(&CborValue::Array(vec![CborValue::Null])) {
        Err(AbeError::DecryptError(m)) => assert_eq!(m, "GroupElem must be bytes"),
        _ => panic!("expected an error"),
    }
}

#[test]
fn attribute_sets_round_trip_sorted() {
    let attrs = vec!["dept:eng".to_string(), "admin".to_string(), "b".to_string()];
    let value = encode_attr_set(&attrs);
    assert_eq!(
        decode_attr_set(&value).unwrap(),
        vec!["admin".to_string(), "b".to_string(), "dept:eng".to_string()]
    );
    match decode_attr_set(&CborValue::Dict(Vec::new())) {
        Err(AbeError::DecryptError(m)) => assert_eq!(m, "AttrSet missing attrs array"),
        _ => panic!("expected an error"),
    }
}

use rabe_abe::cbor::items::{
    decode_ct, decode_item_body, decode_mpk, decode_msk, decode_sk, encode_item, encode_mpk,
    encode_msk, encode_sk, RawMpk, RawMsk, RawSecretKey,
};

fn bytes(tag: u8, n: usize) -> Vec<u8> {
    (0..n).map(|i| tag.wrapping_add(i as u8)).collect()
}

fn decrypt_message<T: std::fmt::Debug>(r: Result<T, AbeError>) -> String {
    match r {
        Err(AbeError::DecryptError(m)) => m,
        other => panic!("expected a decryption error, got {:?}", other),
    }
}

fn sample_mpk() -> RawMpk {
    RawMpk {
        g1: bytes(1, 48),
        g2: bytes(2, 96),
        g1a: bytes(3, 48),
        g2alpha: bytes(4, 96),
        egg_alpha: bytes(5, 576),
        k: bytes(6, 32),
    }
}

#[test]
fn test_mpk_roundtrip() {
    let mpk = sample_mpk();

    let encoded = wire::encode_mpk(&mpk).unwrap();
    let decoded = wire::decode_mpk(&encoded).unwrap();

    assert_eq!(mpk.g1, decoded.g1);
    assert_eq!(mpk.g1a, decoded.g1a);
    assert_eq!(mpk.g2, decoded.g2);
    assert_eq!(mpk.g2alpha, decoded.g2alpha);
    assert_eq!(mpk.egg_alpha, decoded.egg_alpha);
    assert_eq!(mpk.k, decoded.k);
}

#[test]
fn test_msk_roundtrip() {
    let msk = RawMsk { alpha: bytes(9, 32), g2a: bytes(10, 96) };

    let encoded = wire::encode_msk(&msk).unwrap();
    let decoded = wire::decode_msk(&encoded).unwrap();

    assert_eq!(msk.alpha, decoded.alpha);
    assert_eq!(msk.g2a, decoded.g2a);
}

#[test]
fn test_sk_roundtrip() {
    let attrs = vec!["admin".to_string(), "dept:eng".to_string()];
    let sk = RawSecretKey {
        k: bytes(20, 96),
        l: bytes(21, 96),
        kx: vec![("dept:eng".to_string(), bytes(22, 48)), ("admin".to_string(), bytes(23, 48))],
        attributes: attrs,
    };

    let encoded = wire::encode_sk(&sk).unwrap();
    let decoded = wire::decode_sk(&encoded).unwrap();

    assert_eq!(sk.k, decoded.k);
    assert_eq!(sk.l, decoded.l);

    for attr in &sk.attributes {
        let orig = &sk.kx.iter().find(|e| &e.0 == attr).unwrap().1;
        let dec = &decoded.kx.iter().find(|e| &e.0 == attr).unwrap().1;
        assert_eq!(orig, dec);
    }
    // Read back in string order.
    assert_eq!(decoded.attributes, vec!["admin".to_string(), "dept:eng".to_string()]);
}

#[test]
fn sk_without_a_component_is_refused() {
    let sk = RawSecretKey {
        k: bytes(1, 4),
        l: bytes(2, 4),
        kx: vec![("a".to_string(), bytes(3, 4))],
        attributes: vec!["b".to_string(), "a".to_string()],
    };
    assert_eq!(decrypt_message(decode_sk(&encode_sk(&sk))), "SK: not enough group elements");
}

#[test]
fn item_envelope_checks_kind_and_shape() {
    let mpk_item = encode_mpk(&sample_mpk());
    assert_eq!(decrypt_message(decode_msk(&mpk_item)), "Expected MSK (kind=1), got kind=2");
    assert_eq!(decrypt_message(decode_sk(&mpk_item)), "Expected SK (kind=3), got kind=2");
    assert_eq!(decrypt_message(decode_mpk(&CborValue::Null)), "MPK must be map");
    // The tag may be left off.
    let untagged = match encode_mpk(&sample_mpk()) {
        CborValue::Tag(60001, inner) => *inner,
        other => panic!("expected a tagged item, got {:?}", other),
    };
    assert_eq!(decode_mpk(&untagged).unwrap().k, sample_mpk().k);
    // Too few elements.
    let short = encode_item(2, &Suite::default(), {
        let mut body = Vec::new();
        map_insert(&mut body, 0, encode_group_elems(&[bytes(1, 2)]));
        body
    });
    assert_eq!(decrypt_message(decode_mpk(&short)), "MPK requires 6 group elements");
    let no_body = encode_item(2, &Suite::default(), Vec::new());
    assert_eq!(decrypt_message(decode_mpk(&no_body)), "Missing group elems");
    match decode_item_body(&no_body, 2, "MPK") {
        Ok(body) => assert!(body.is_empty()),
        Err(e) => panic!("unexpected {:?}", e),
    }
    let kind_text = CborValue::Dict(vec![(CborValue::Integer(0), CborValue::Text("x".to_string()))]);
    assert_eq!(decrypt_message(decode_mpk(&kind_text)), "Kind must be uint");
    let no_body_at_all = CborValue::Dict(vec![(CborValue::Integer(0), CborValue::Integer(2))]);
    assert_eq!(decrypt_message(decode_mpk(&no_body_at_all)), "Missing body");
}

/// A ciphertext item laid out by hand: the policy as RPN tokens, the
/// attribute list in the order the tokens index, and the elements.
fn ct_item(policy: &PolicyNode, elems: &[Vec<u8>]) -> CborValue {
    let mut attr_list = Vec::new();
    let tokens = policy_to_rpn(policy, &mut attr_list);
    let mut policy_map = Vec::new();
    map_insert(&mut policy_map, 0, CborValue::Integer(0));
    map_insert(&mut policy_map, 1, CborValue::Array(tokens));
    let mut body = Vec::new();
    map_insert(&mut body, 0, encode_group_elems(elems));
    map_insert(&mut body, 1, CborValue::Dict(policy_map));
    map_insert(&mut body, 2, encode_attr_set(&attr_list));
    encode_item(4, &Suite::default(), body)
}

#[test]
fn ciphertext_item_is_read_back() {
    let policy = PolicyNode::And(vec![attr("admin"), attr("dept:eng")]);
    let elems = vec![bytes(1, 8), bytes(2, 8), bytes(3, 8), bytes(4, 8), bytes(5, 8), bytes(6, 8)];
    let ct = decode_ct(&ct_item(&policy, &elems)).unwrap();
    assert_eq!(ct.policy, policy.to_canonical_string());
    assert_eq!(ct.c, elems[0]);
    assert_eq!(ct.c_prime, elems[1]);
    assert_eq!(ct.components.len(), 2);
    assert_eq!(ct.components[0].0, "admin");
    assert_eq!(ct.components[0].1.c, elems[2]);
    assert_eq!(ct.components[0].1.d, elems[3]);
    assert_eq!(ct.components[1].0, "dept:eng");
    assert_eq!(ct.components[1].1.d, elems[5]);

    assert_eq!(decrypt_message(decode_ct(&ct_item(&policy, &[bytes(1, 8)]))), "CT: not enough elements");
    let mpk_item = encode_mpk(&sample_mpk());
    assert_eq!(decrypt_message(decode_ct(&mpk_item)), "Expected CT (kind=4), got kind=2");
}

#[test]
fn wire_bytes_match_ciborium_and_refuse_bad_input() {
    let mpk = sample_mpk();
    let item = encode_mpk(&mpk);
    let bytes_out = wire::encode_mpk(&mpk).unwrap();
    assert_eq!(wire::encode(&item).unwrap(), bytes_out);
    let back: ciborium::value::Value = ciborium::de::from_reader(bytes_out.as_slice()).unwrap();
    assert!(matches!(back, ciborium::value::Value::Tag(60001, _)));
    // not CBOR at all
    let m = decrypt_message(wire::decode_mpk(&[0xff, 0x00]));
    assert!(m.starts_with("CBOR decode error: "), "{}", m);
    // a floating-point item is read as an item the library reads nothing from
    let mut float_bytes = Vec::new();
    ciborium::ser::into_writer(&ciborium::value::Value::Float(1.5), &mut float_bytes).unwrap();
    assert!(matches!(wire::decode(&float_bytes), Ok(CborValue::Other)));
    // ... and it cannot be written back
    match wire::encode(&CborValue::Other) {
        Err(AbeError::EncryptError(m)) => assert_eq!(m, "CBOR encode error: item has no CBOR form"),
        other => panic!("unexpected {:?}", other),
    }
    // an integer beyond CBOR's range cannot be written
    match wire::encode(&CborValue::Integer(i128::MAX)) {
        Err(AbeError::EncryptError(m)) => assert_eq!(m, "CBOR encode error: item has no CBOR form"),
        other => panic!("unexpected {:?}", other),
    }
    match wire::encode(&CborValue::Integer(1i128 << 64)) {
        Err(AbeError::EncryptError(m)) => assert_eq!(m, "CBOR encode error: item has no CBOR form"),
        other => panic!("unexpected {:?}", other),
    }
    // the ends of CBOR's integer range are written
    assert!(wire::encode(&CborValue::Integer(-(1i128 << 64))).is_ok());
    assert!(wire::encode(&CborValue::Integer((1i128 << 64) - 1)).is_ok());
}

#[test]
fn wire_short_ciphertext_is_refused() {
    let policy = attr("a");
    let item = ct_item(&policy, &[bytes(1, 8), bytes(2, 8)]);
    let data = wire::encode(&item).unwrap();
    assert_eq!(
        decrypt_message(wire::decode_ct(&data)),
        "CT: not enough group elements for components"
    );
    let full = ct_item(&policy, &[bytes(1, 8), bytes(2, 8), bytes(3, 8), bytes(4, 8)]);
    let ct = wire::decode_ct(&wire::encode(&full).unwrap()).unwrap();
    assert_eq!(ct.components.len(), 1);
    assert_eq!(ct.components[0].0, "a");
}

#[test]
fn wide_or_gates_decode_as_nested_pairs() {
    let policy = PolicyNode::Or(vec![attr("a"), attr("b"), attr("c"), attr("d")]);
    let mut attr_list = Vec::new();
    let tokens = policy_to_rpn(&policy, &mut attr_list);
    assert_eq!(tokens.len(), 4 + 3);
    let decoded = rpn_to_policy(&tokens, &attr_list).unwrap();
    assert_eq!(
        decoded,
        PolicyNode::Or(vec![
            attr("a"),
            PolicyNode::Or(vec![attr("b"), PolicyNode::Or(vec![attr("c"), attr("d")])]),
        ])
    );
    let single = PolicyNode::And(vec![attr("z")]);
    let mut single_list = Vec::new();
    let single_tokens = policy_to_rpn(&single, &mut single_list);
    assert_eq!(rpn_to_policy(&single_tokens, &single_list).unwrap(), attr("z"));
}

#[test]
fn wire_container_ciphertexts_are_read() {
    let policy = attr("a");
    let inner = wire::encode(&ct_item(&policy, &[bytes(1, 8), bytes(2, 8), bytes(3, 8), bytes(4, 8)])).unwrap();
    let mut body = Vec::new();
    map_insert(&mut body, 0, CborValue::Bytes(inner.clone()));
    map_insert(&mut body, 1, CborValue::Bytes(vec![9, 9]));
    let full = wire::encode(&encode_item(4, &Suite::default(), body)).unwrap();
    let f = wire::decode_full_ct(&full).unwrap();
    assert_eq!(f.sym_ct, vec![9, 9]);
    assert_eq!(f.abe_ct.components.len(), 1);
    assert_eq!(f.abe_ct.c, bytes(1, 8));

    let cca_body = || {
        let mut b = Vec::new();
        map_insert(&mut b, 0, CborValue::Bytes(inner.clone()));
        map_insert(&mut b, 1, CborValue::Bytes(vec![7]));
        map_insert(&mut b, 2, CborValue::Bytes(vec![1, 2, 3]));
        b
    };
    let cca = wire::encode(&encode_item(4, &Suite::waters_cca(), cca_body())).unwrap();
    let c = wire::decode_cca_ct(&cca).unwrap();
    assert_eq!(c.encrypted_m, vec![7]);
    let mut uid = [0u8; 16];
    uid[0] = 1;
    uid[1] = 2;
    uid[2] = 3;
    assert_eq!(c.uid, uid);
    let not_cca = wire::encode(&encode_item(4, &Suite::default(), cca_body())).unwrap();
    assert_eq!(
        decrypt_message(wire::decode_cca_ct(&not_cca)),
        "Expected scheme cpabe-waters-cca, got cpabe-waters"
    );

    let mut outer = Vec::new();
    map_insert(&mut outer, 0, CborValue::Bytes(cca));
    map_insert(&mut outer, 1, CborValue::Bytes(vec![5]));
    let cf = wire::encode(&encode_item(4, &Suite::waters_cca(), outer)).unwrap();
    let d = wire::decode_cca_full_ct(&cf).unwrap();
    assert_eq!(d.sym_ct, vec![5]);
    assert_eq!(d.cca_ct.uid, uid);

    let mut no_sym = Vec::new();
    map_insert(&mut no_sym, 0, CborValue::Bytes(inner));
    let ns = wire::encode(&encode_item(4, &Suite::default(), no_sym)).unwrap();
    assert_eq!(decrypt_message(wire::decode_full_ct(&ns)), "Missing sym_ct");
    assert_eq!(decrypt_message(wire::decode_full_ct(&[0x01])), "Full CT must be map");
}

#[test]
fn wire_item_with_a_float_entry_is_read() {
    let mpk = sample_mpk();
    let mut value: ciborium::value::Value = ciborium::de::from_reader(wire::encode_mpk(&mpk).unwrap().as_slice()).unwrap();
    if let ciborium::value::Value::Tag(_, inner) = &mut value {
        if let ciborium::value::Value::Map(m) = inner.as_mut() {
            m.push((ciborium::value::Value::Integer(9.into()), ciborium::value::Value::Float(0.25)));
        }
    }
    let mut data = Vec::new();
    ciborium::ser::into_writer(&value, &mut data).unwrap();
    let back = wire::decode_mpk(&data).unwrap();
    assert_eq!(back.g1, mpk.g1);
}

#[test]
fn wire_key_bytes_read_back() {
    let mpk = sample_mpk();
    let data = wire::encode_mpk(&mpk).unwrap();
    let back = wire::decode_mpk(&data).unwrap();
    assert_eq!(back.g1, mpk.g1);
    assert_eq!(back.g2, mpk.g2);
    let item = wire::decode(&data).unwrap();
    assert_eq!(wire::encode(&item).unwrap(), data);
}
