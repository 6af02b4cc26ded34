use sha2::{Digest, Sha256};
use rabe_abe::schemes::bsw::{
    check_decryption_attributes, check_keygen_attributes, encryption_attributes, key_exponent, policy_attributes,
    white_space,
};
use rabe_abe::{AbeError, Fr};

fn strings(v: &[&str]) -> Vec<String> {
    v.iter().map(|s| s.to_string()).collect()
}

#[test]
fn test_policy_attributes_split_and_trim() {
    assert_eq!(policy_attributes("admin, dept:eng"), strings(&["admin", "dept:eng"]));
    assert_eq!(policy_attributes(" a ,, b\t,\n"), strings(&["a", "b"]));
    assert_eq!(policy_attributes("admin"), strings(&["admin"]));
    assert_eq!(policy_attributes("x y , z"), strings(&["x y", "z"]));
    assert!(policy_attributes("").is_empty());
    assert!(policy_attributes(" , \u{3000},").is_empty());
}

#[test]
fn test_white_space_matches_std() {
    for u in 0u32..0x3100 {
        if let Some(c) = char::from_u32(u) {
            assert_eq!(white_space(c), c.is_whitespace(), "U+{:04X}", u);
        }
    }
}

#[test]
fn test_policy_attributes_match_std_split() {
    for policy in ["admin, dept:eng", " a ,, b\t,\n", "", ",", "a\u{2003},\u{a0}b", "x y , z"] {
        let expected: Vec<String> =
            policy.split(',').map(|s| s.trim().to_string()).filter(|s| !s.is_empty()).collect();
        assert_eq!(policy_attributes(policy), expected);
    }
}

#[test]
fn test_keygen_attribute_check() {
    // test_keygen: a key for two attributes is issued
    assert!(check_keygen_attributes(&strings(&["admin", "dept:eng"])).is_ok());
    match check_keygen_attributes(&[]) {
        Err(AbeError::KeygenError(m)) => assert_eq!(m, "No attributes provided"),
        other => panic!("unexpected {:?}", other),
    }
}

#[test]
fn test_key_exponent() {
    // (alpha + r) / beta = (5 + 7) / 3 = 4
    let e = key_exponent(&Fr::from_u64(5), &Fr::from_u64(3), &Fr::from_u64(7)).unwrap();
    assert_eq!(e, Fr::from_u64(4));
    match key_exponent(&Fr::from_u64(5), &Fr::zero(), &Fr::from_u64(7)) {
        Err(AbeError::KeygenError(m)) => assert_eq!(m, "Beta has no inverse"),
        other => panic!("unexpected {:?}", other),
    }
}

#[test]
fn test_encryption_attributes() {
    assert_eq!(encryption_attributes("admin, dept:eng").unwrap(), strings(&["admin", "dept:eng"]));
    match encryption_attributes(" , ") {
        Err(AbeError::InvalidPolicy(m)) => assert_eq!(m, "Empty policy"),
        other => panic!("unexpected {:?}", other),
    }
}

#[test]
fn test_decryption_attribute_checks() {
    // test_encrypt_decrypt / test_and_policy: the key holds every attribute
    let key = strings(&["admin", "dept:eng"]);
    assert!(check_decryption_attributes("admin", &key).is_ok());
    assert!(check_decryption_attributes("admin, dept:eng", &key).is_ok());
    // test_policy_not_satisfied / test_and_policy_partial
    assert!(matches!(check_decryption_attributes("admin", &strings(&["user"])), Err(AbeError::PolicyNotSatisfied)));
    assert!(matches!(
        check_decryption_attributes("admin, dept:eng", &strings(&["admin"])),
        Err(AbeError::PolicyNotSatisfied)
    ));
}

#[test]
fn test_derive_key_domains() {
    let gt = [7u8, 8, 9];
    let expect = |tag: &[u8]| {
        let mut h = Sha256::new();
        h.update(tag);
        h.update(gt);
        h.finalize().to_vec()
    };
    assert_eq!(rabe_abe::schemes::ac17::derive_key(&gt), expect(b"AC17_KEY_DERIVE"));
    assert_eq!(rabe_abe::schemes::gpsw::derive_key(&gt), expect(b"GPSW_KEY_DERIVE"));
    assert_eq!(rabe_abe::schemes::dabe::derive_key(&gt), expect(b"DABE_KEY_DERIVE"));
    assert_ne!(rabe_abe::schemes::ac17::derive_key(&gt), rabe_abe::schemes::gpsw::derive_key(&gt));
}
