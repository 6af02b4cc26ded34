use rabe_abe::Fr;

#[test]
fn field_arithmetic_wraps_at_the_group_order() {
    let zero = Fr::zero();
    let one = Fr::one();
    let minus_one = zero.sub(&one);
    assert_eq!(minus_one.add(&one), zero);
    assert_eq!(minus_one.mul(&minus_one), one);
    assert_eq!(one.neg(), minus_one);
    assert_eq!(Fr::from_u64(6).mul(&Fr::from_u64(7)), Fr::from_u64(42));
    assert!(zero.is_zero());
    assert!(!one.is_zero());
}

#[test]
fn inverse_of_nonzero_and_zero() {
    let two = Fr::from_u64(2);
    let inv = two.inverse().unwrap();
    assert_eq!(two.mul(&inv), Fr::one());
    assert!(Fr::zero().inverse().is_none());
    let x = Fr::from_u64(123456789);
    assert_eq!(x.mul(&x.inverse().unwrap()), Fr::one());
}

#[test]
fn random_elements_differ() {
    let mut rng = rand::thread_rng();
    let a = Fr::random(&mut rng);
    let b = Fr::random(&mut rng);
    assert_ne!(a, b);
}
