use rabe_abe::{Ac17, Bsw, Dabe, Gpsw, Scheme, Waters, WatersCca};
use rabe_abe::{TypedCiphertext, TypedMpk, TypedMsk, TypedReKey, TypedSecretKey};

#[derive(Clone)]
struct RawMpk {
    value: u32,
}

#[test]
fn test_scheme_ids() {
    assert_eq!(Waters::ID, "waters");
    assert_eq!(WatersCca::ID, "waters-cca");
    assert_eq!(Ac17::ID, "ac17");
    assert_eq!(Gpsw::ID, "gpsw");
    assert_eq!(Bsw::ID, "bsw");
    assert_eq!(Dabe::ID, "dabe");
}

#[test]
fn test_typed_mpk_basic() {
    let raw = 42u32;
    let typed: TypedMpk<Waters, u32> = TypedMpk::new(raw);

    assert_eq!(typed.scheme_id(), "waters");
    assert_eq!(*typed, 42);
    assert_eq!(typed.into_inner(), 42);
}

#[test]
fn test_typed_from_impl() {
    let raw = "test";
    let typed: TypedCiphertext<Ac17, &str> = raw.into();

    assert_eq!(typed.scheme_id(), "ac17");
    assert_eq!(*typed, "test");
}

#[test]
fn test_typed_rekey_dual_schemes() {
    let raw = vec![1u8, 2, 3];
    let rekey: TypedReKey<Waters, Waters, Vec<u8>> = TypedReKey::new(raw);

    assert_eq!(rekey.source_scheme_id(), "waters");
    assert_eq!(rekey.target_scheme_id(), "waters");
}

#[test]
fn test_deref_allows_field_access() {
    let typed: TypedMpk<Waters, RawMpk> = TypedMpk::new(RawMpk { value: 100 });
    assert_eq!(typed.value, 100);
}

#[test]
fn test_deref_mut_allows_mutation() {
    let mut typed: TypedMpk<Waters, RawMpk> = TypedMpk::new(RawMpk { value: 100 });
    typed.value = 200;
    assert_eq!(typed.value, 200);
}

#[test]
fn test_debug_redacts_secrets() {
    let msk: TypedMsk<Waters, u32> = TypedMsk::new(12345);
    let debug_str = msk.debug_string();

    assert!(debug_str.contains("waters"));
    assert!(debug_str.contains("<redacted>"));
    assert!(!debug_str.contains("12345"));
}

#[test]
fn debug_strings_name_the_schemes() {
    let sk: TypedSecretKey<Dabe, u8> = TypedSecretKey::new(7);
    assert_eq!(sk.debug_string(), "TypedSecretKey { scheme: \"dabe\", inner: \"<redacted>\" }");
    let rk: TypedReKey<Waters, Ac17, u8> = TypedReKey::new(1);
    assert_eq!(
        rk.debug_string(),
        "TypedReKey { source_scheme: \"waters\", target_scheme: \"ac17\", inner: \"<redacted>\" }"
    );
}

#[test]
fn inner_mut_writes_through() {
    let mut typed: TypedMpk<Gpsw, u32> = TypedMpk::new(1);
    *typed.inner_mut() = 9;
    assert_eq!(*typed.inner(), 9);
    let copy = typed.clone();
    assert_eq!(copy.into_inner(), 9);
}

#[test]
fn scheme_id_function_matches_constant() {
    assert_eq!(Waters::id(), Waters::ID);
    assert_eq!(WatersCca::id(), "waters-cca");
    assert_eq!(Ac17::id(), "ac17");
    assert_eq!(Gpsw::id(), "gpsw");
    assert_eq!(Bsw::id(), "bsw");
    assert_eq!(Dabe::id(), "dabe");
}
