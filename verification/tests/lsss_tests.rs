use rabe_abe::lsss::{LsssMatrix, PolicyNode};
use rabe_abe::Fr;

fn attr(name: &str) -> PolicyNode {
    PolicyNode::Attr(name.to_string())
}

#[test]
fn test_single_attr() {
    let policy = PolicyNode::Attr("admin".to_string());
    let matrix = LsssMatrix::from_policy(&policy);

    assert_eq!(matrix.rows.len(), 1);
    assert_eq!(matrix.rows[0].attr, "admin");
    assert_eq!(matrix.rows[0].vector[0], Fr::one());
}

#[test]
fn test_or_policy() {
    let policy = PolicyNode::Or(vec![
        PolicyNode::Attr("a".to_string()),
        PolicyNode::Attr("b".to_string()),
    ]);
    let matrix = LsssMatrix::from_policy(&policy);

    assert_eq!(matrix.rows.len(), 2);

    let mut rng = rand::thread_rng();
    let secret = Fr::random(&mut rng);
    let _shares = matrix.share_secret(&mut rng, secret);

    let coeffs_a = matrix.recover_coefficients(&["a".to_string()]).unwrap();
    assert!(coeffs_a.contains_key("a"));

    let coeffs_b = matrix.recover_coefficients(&["b".to_string()]).unwrap();
    assert!(coeffs_b.contains_key("b"));
}

#[test]
fn lsss_test_and_policy() {
    let policy = PolicyNode::And(vec![
        PolicyNode::Attr("a".to_string()),
        PolicyNode::Attr("b".to_string()),
    ]);
    let matrix = LsssMatrix::from_policy(&policy);

    assert_eq!(matrix.rows.len(), 2);

    let mut rng = rand::thread_rng();
    let secret = Fr::random(&mut rng);
    let shares = matrix.share_secret(&mut rng, secret);

    let coeffs = matrix.recover_coefficients(&["a".to_string(), "b".to_string()]).unwrap();

    let mut reconstructed = Fr::zero();
    for share in &shares {
        if let Some(coeff) = coeffs.get(share.attr.as_str()) {
            reconstructed = reconstructed.add(&coeff.mul(&share.share));
        }
    }
    assert_eq!(reconstructed, secret);

    assert!(matrix.recover_coefficients(&["a".to_string()]).is_err());
}

#[test]
fn test_reconstruction() {
    let policy = PolicyNode::Or(vec![
        PolicyNode::Attr("a".to_string()),
        PolicyNode::Attr("b".to_string()),
    ]);
    let matrix = LsssMatrix::from_policy(&policy);

    let mut rng = rand::thread_rng();
    let secret = Fr::random(&mut rng);
    let shares = matrix.share_secret(&mut rng, secret);

    let coeffs = matrix.recover_coefficients(&["a".to_string()]).unwrap();
    let mut reconstructed = Fr::zero();
    for share in &shares {
        if let Some(coeff) = coeffs.get(share.attr.as_str()) {
            reconstructed = reconstructed.add(&coeff.mul(&share.share));
        }
    }
    assert_eq!(reconstructed, secret);
}

#[test]
fn test_canonical_string() {
    let policy = PolicyNode::And(vec![
        PolicyNode::Attr("b".to_string()),
        PolicyNode::Attr("a".to_string()),
    ]);
    let canonical = policy.to_canonical_string();
    assert_eq!(canonical, "(a and b)");
}

#[test]
fn canonical_string_of_threshold_and_or() {
    let policy = PolicyNode::Threshold(2, vec![
        attr("z"),
        PolicyNode::Or(vec![attr("y"), attr("x")]),
        attr("m"),
    ]);
    assert_eq!(policy.to_canonical_string(), "(2 of (x or y), m, z)");
}

#[test]
fn canonicalize_sorts_children_and_keeps_text() {
    let policy = PolicyNode::Or(vec![attr("b"), PolicyNode::And(vec![attr("d"), attr("c")])]);
    let canonical = policy.canonicalize();
    assert_eq!(
        canonical,
        PolicyNode::Or(vec![PolicyNode::And(vec![attr("c"), attr("d")]), attr("b")])
    );
    assert_eq!(canonical.to_canonical_string(), policy.to_canonical_string());
}

#[test]
fn count_and_get_attrs_in_leaf_order() {
    let policy = PolicyNode::And(vec![attr("a"), PolicyNode::Or(vec![attr("b"), attr("a")])]);
    assert_eq!(policy.count_attrs(), 3);
    assert_eq!(policy.get_attrs(), vec!["a".to_string(), "b".to_string(), "a".to_string()]);
}

#[test]
fn threshold_matrix_reconstructs_with_two_of_three() {
    let policy = PolicyNode::Threshold(2, vec![attr("a"), attr("b"), attr("c")]);
    let matrix = LsssMatrix::from_policy(&policy);
    assert_eq!(matrix.rows.len(), 3);

    let mut rng = rand::thread_rng();
    let secret = Fr::random(&mut rng);
    let shares = matrix.share_secret(&mut rng, secret);

    let coeffs = matrix.recover_coefficients(&["a".to_string(), "c".to_string()]).unwrap();
    let mut reconstructed = Fr::zero();
    for share in &shares {
        if let Some(coeff) = coeffs.get(share.attr.as_str()) {
            reconstructed = reconstructed.add(&coeff.mul(&share.share));
        }
    }
    assert_eq!(reconstructed, secret);
    assert!(matrix.recover_coefficients(&["b".to_string()]).is_err());
}

#[test]
fn no_satisfied_attribute_is_refused() {
    let matrix = LsssMatrix::from_policy(&attr("a"));
    assert_eq!(matrix.recover_coefficients(&["z".to_string()]).err(), Some("No satisfied attributes"));
}

#[test]
fn share_secret_with_fixed_vector() {
    let policy = PolicyNode::And(vec![attr("a"), attr("b")]);
    let matrix = LsssMatrix::from_policy(&policy);
    let v = vec![Fr::from_u64(7), Fr::from_u64(3)];
    let shares = matrix.share_secret_with(&v);
    let total = shares[0].share.add(&shares[1].share);
    let coeffs = matrix.recover_coefficients(&["a".to_string(), "b".to_string()]).unwrap();
    let mut reconstructed = Fr::zero();
    for share in &shares {
        if let Some(coeff) = coeffs.get(share.attr.as_str()) {
            reconstructed = reconstructed.add(&coeff.mul(&share.share));
        }
    }
    assert_eq!(reconstructed, Fr::from_u64(7));
    assert_eq!(shares.len(), 2);
    let _ = total;
}

#[test]
fn canonical_form_is_a_fixed_point() {
    let policy = PolicyNode::Or(vec![
        PolicyNode::Threshold(2, vec![attr("z"), PolicyNode::And(vec![attr("y"), attr("x")]), attr("m")]),
        attr("b"),
    ]);
    let once = policy.canonicalize();
    let twice = once.canonicalize();
    assert_eq!(once, twice);
    assert_eq!(once.to_canonical_string(), policy.to_canonical_string());
    assert_eq!(once.to_canonical_string(), "((2 of (x and y), m, z) or b)");
}

#[test]
fn canonical_form_ignores_child_order() {
    let p = PolicyNode::Threshold(2, vec![attr("c"), PolicyNode::Or(vec![attr("b"), attr("a")]), attr("d")]);
    let q = PolicyNode::Threshold(2, vec![attr("d"), attr("c"), PolicyNode::Or(vec![attr("a"), attr("b")])]);
    assert_eq!(p.to_canonical_string(), q.to_canonical_string());
    assert_eq!(p.canonicalize(), q.canonicalize());
    // Children with the same text are ordered by their structure.
    let r = PolicyNode::And(vec![attr("(x and y)"), PolicyNode::And(vec![attr("x"), attr("y")])]);
    let s = PolicyNode::And(vec![PolicyNode::And(vec![attr("x"), attr("y")]), attr("(x and y)")]);
    assert_eq!(r.to_canonical_string(), s.to_canonical_string());
    assert_eq!(r.canonicalize(), s.canonicalize());
    assert_eq!(r.canonicalize(), s);
}

#[test]
fn matrix_rows_follow_the_leaves() {
    let p = PolicyNode::Threshold(2, vec![attr("a"), attr("b"), PolicyNode::And(vec![attr("c"), attr("a")])]);
    let q = PolicyNode::Threshold(2, vec![PolicyNode::And(vec![attr("a"), attr("c")]), attr("b"), attr("a")]);
    let m = LsssMatrix::from_policy(&p);
    assert_eq!(m.rows.len(), p.count_attrs());
    assert_eq!(m.rows.len(), p.get_attrs().len());
    let mut names: Vec<String> = m.rows.iter().map(|r| r.attr.clone()).collect();
    names.sort();
    let mut leaves = p.get_attrs();
    leaves.sort();
    assert_eq!(names, leaves);
    for row in &m.rows {
        assert_eq!(row.vector.len(), m.num_cols);
        assert_eq!(row.vector[0], Fr::one());
    }
    let n = LsssMatrix::from_policy(&q);
    assert_eq!(n.num_cols, m.num_cols);
    assert_eq!(n.rows.len(), m.rows.len());
    for (x, y) in m.rows.iter().zip(n.rows.iter()) {
        assert_eq!(x.attr, y.attr);
        assert_eq!(x.vector, y.vector);
    }
}

#[test]
fn canonical_form_ignores_reordering_at_any_depth() {
    let p = PolicyNode::Or(vec![
        PolicyNode::And(vec![attr("b"), PolicyNode::Threshold(2, vec![attr("x"), attr("z"), attr("y")])]),
        attr("a"),
    ]);
    let q = PolicyNode::Or(vec![
        attr("a"),
        PolicyNode::And(vec![PolicyNode::Threshold(2, vec![attr("y"), attr("x"), attr("z")]), attr("b")]),
    ]);
    assert_eq!(p.canonicalize(), q.canonicalize());
    assert_eq!(p.to_canonical_string(), q.to_canonical_string());
    let m = LsssMatrix::from_policy(&p);
    let n = LsssMatrix::from_policy(&q);
    assert_eq!(m.num_cols, n.num_cols);
    for (x, y) in m.rows.iter().zip(n.rows.iter()) {
        assert_eq!(x.attr, y.attr);
        assert_eq!(x.vector, y.vector);
    }
}
