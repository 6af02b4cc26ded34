use rabe_abe::lsss::{reconstruction_plan, PolicyNode};
use rabe_abe::schemes::ac17_conditional_pre::{conditional_reencryption_plan_at as ac17_conditional_plan_at, TimeCondition};
use rabe_abe::schemes::ac17_multihop_pre::{check_first_hop_rekey, check_hop_limit, next_hop_index, MAX_HOPS};
use rabe_abe::schemes::dabe::{
    aggregate_user_keys, authority_keygen, decryption_plan, group_by_authority, has_blinding, missing_key, same_members,
    KeyGap, UserKeyComponent,
};
use rabe_abe::schemes::dabe_conditional_pre::conditional_reencryption_plan_at;
use rabe_abe::schemes::dabe_multihop_pre::check_first_hop_rekey as dabe_check_first_hop_rekey;
use rabe_abe::schemes::dabe_pre::reencryption_plan;
use rabe_abe::schemes::dabe_u2u_pre::u2u_reencryption_plan;
use rabe_abe::{AbeError, Fr};

fn attr(a: &str) -> PolicyNode {
    PolicyNode::Attr(a.to_string())
}

fn strings(v: &[&str]) -> Vec<String> {
    v.iter().map(|s| s.to_string()).collect()
}

fn labels(v: &[(&str, &str)]) -> Vec<(String, String)> {
    v.iter().map(|(a, b)| (a.to_string(), b.to_string())).collect()
}

fn holdings(v: &[(&str, &[&str])]) -> Vec<(String, Vec<String>)> {
    v.iter().map(|(a, attrs)| (a.to_string(), strings(attrs))).collect()
}

fn minus_one() -> Fr {
    Fr::zero().sub(&Fr::one())
}

#[test]
fn test_reconstruction_plan_and_gate() {
    let policy = PolicyNode::And(vec![attr("a"), attr("b")]);
    let plan = reconstruction_plan(&policy, &strings(&["a", "b"]), &strings(&["a", "b"])).unwrap();
    // rows [1, 1] and [1, 2]: 2 * [1, 1] - [1, 2] = [1, 0]
    assert_eq!(plan, vec![(0, Fr::from_u64(2)), (1, minus_one())]);
}

#[test]
fn test_reconstruction_plan_or_gate_uses_held_row() {
    let policy = PolicyNode::Or(vec![attr("a"), attr("b")]);
    let plan = reconstruction_plan(&policy, &strings(&["a", "b"]), &strings(&["b"])).unwrap();
    assert_eq!(plan, vec![(1, Fr::one())]);
}

#[test]
fn test_reconstruction_plan_key_policy_roles() {
    // key components labelled a, c, b; ciphertext carries a and b
    let policy = PolicyNode::And(vec![attr("a"), attr("b")]);
    let plan = reconstruction_plan(&policy, &strings(&["a", "c", "b"]), &strings(&["b", "a"])).unwrap();
    assert_eq!(plan, vec![(0, Fr::from_u64(2)), (2, minus_one())]);
}

#[test]
fn test_reconstruction_plan_refusals() {
    let policy = PolicyNode::And(vec![attr("a"), attr("b")]);
    assert!(matches!(
        reconstruction_plan(&policy, &strings(&["a", "b"]), &strings(&[])),
        Err(AbeError::PolicyNotSatisfied)
    ));
    assert!(matches!(
        reconstruction_plan(&policy, &strings(&["a", "b"]), &strings(&["a"])),
        Err(AbeError::PolicyNotSatisfied)
    ));
    assert!(matches!(
        reconstruction_plan(&policy, &strings(&["x"]), &strings(&["x"])),
        Err(AbeError::PolicyNotSatisfied)
    ));
}

fn cross_and() -> PolicyNode {
    PolicyNode::And(vec![attr("A:x"), attr("B:y")])
}

#[test]
fn test_group_by_authority() {
    let assignment = vec![
        ("A:x".to_string(), Fr::one()),
        ("B:y".to_string(), Fr::from_u64(3)),
        ("A:z".to_string(), Fr::from_u64(5)),
    ];
    let rows = labels(&[("A:z", "A"), ("B:y", "B"), ("A:x", "A"), ("A:x", "A")]);
    let groups = group_by_authority(&assignment, &rows).unwrap();
    assert_eq!(
        groups,
        vec![
            ("A".to_string(), vec![(2, Fr::one()), (0, Fr::from_u64(5))]),
            ("B".to_string(), vec![(1, Fr::from_u64(3))]),
        ]
    );
    let missing = group_by_authority(&assignment, &labels(&[("A:x", "A"), ("A:z", "A")]));
    assert_eq!(missing, Err("B:y".to_string()));
}

#[test]
fn test_missing_key() {
    let rows = labels(&[("A:x", "A"), ("B:y", "B")]);
    let groups = vec![
        ("A".to_string(), vec![(0, Fr::one())]),
        ("B".to_string(), vec![(1, Fr::one())]),
    ];
    assert!(missing_key(&groups, &rows, &holdings(&[("A", &["A:x"]), ("B", &["B:y"])])).is_none());
    match missing_key(&groups, &rows, &holdings(&[("A", &["A:x"])])) {
        Some(KeyGap::Authority(a)) => assert_eq!(a, "B"),
        other => panic!("unexpected {:?}", other),
    }
    match missing_key(&groups, &rows, &holdings(&[("A", &["A:w"]), ("B", &["B:y"])])) {
        Some(KeyGap::Attribute(a)) => assert_eq!(a, "A:x"),
        other => panic!("unexpected {:?}", other),
    }
}

#[test]
fn test_same_members_and_blindings() {
    assert!(same_members(&strings(&["A", "B"]), &strings(&["B", "A", "B"])));
    assert!(!same_members(&strings(&["A", "B"]), &strings(&["A"])));
    let blindings = vec![strings(&["A"]), strings(&["B", "A"])];
    assert!(has_blinding(&blindings, &strings(&["A", "B"])));
    assert!(!has_blinding(&blindings, &strings(&["B"])));
}

#[test]
fn test_decryption_plan_cross_authority() {
    let rows = labels(&[("A:x", "A"), ("B:y", "B")]);
    let key = holdings(&[("A", &["A:x"]), ("B", &["B:y"])]);
    let plan = decryption_plan(&cross_and(), &key, &rows, &[strings(&["A", "B"])]).unwrap();
    assert_eq!(
        plan,
        vec![
            ("A".to_string(), vec![(0, Fr::one())]),
            ("B".to_string(), vec![(1, Fr::one())]),
        ]
    );
}

#[test]
fn test_decryption_plan_or_picks_held_authority() {
    let policy = PolicyNode::Or(vec![attr("A:x"), attr("B:y")]);
    let rows = labels(&[("A:x", "A"), ("B:y", "B")]);
    let key = holdings(&[("B", &["B:y"])]);
    let plan = decryption_plan(&policy, &key, &rows, &[strings(&["A"]), strings(&["B"])]).unwrap();
    assert_eq!(plan, vec![("B".to_string(), vec![(1, Fr::one())])]);
}

#[test]
fn test_decryption_plan_refusals() {
    let rows = labels(&[("A:x", "A"), ("B:y", "B")]);
    let key = holdings(&[("A", &["A:x"]), ("B", &["B:y"])]);
    // attributes do not satisfy the policy
    assert!(matches!(
        decryption_plan(&cross_and(), &holdings(&[("A", &["A:x"])]), &rows, &[strings(&["A", "B"])]),
        Err(AbeError::PolicyNotSatisfied)
    ));
    // a needed row is missing
    match decryption_plan(&cross_and(), &key, &labels(&[("A:x", "A")]), &[strings(&["A", "B"])]) {
        Err(AbeError::DecryptError(m)) => assert_eq!(m, "Missing ciphertext component"),
        other => panic!("unexpected {:?}", other),
    }
    // no blinding for the authorities used
    assert!(matches!(
        decryption_plan(&cross_and(), &key, &rows, &[strings(&["A"])]),
        Err(AbeError::PolicyNotSatisfied)
    ));
    // the attribute is held, but not in a component from its authority
    assert!(matches!(
        decryption_plan(&cross_and(), &holdings(&[("A", &["A:x", "B:y"])]), &rows, &[strings(&["A", "B"])]),
        Err(AbeError::PolicyNotSatisfied)
    ));
    match decryption_plan(
        &cross_and(),
        &holdings(&[("A", &["A:x"]), ("B", &["B:z"]), ("C", &["B:y"])]),
        &rows,
        &[strings(&["A", "B"])],
    ) {
        Err(AbeError::DecryptError(m)) => assert_eq!(m, "Missing key for attribute B:y"),
        other => panic!("unexpected {:?}", other),
    }
}

#[test]
fn test_reencryption_plan_messages() {
    let rows = labels(&[("A:x", "A"), ("B:y", "B")]);
    let rk = holdings(&[("A", &["A:x"]), ("B", &["B:y"])]);
    assert_eq!(
        reencryption_plan(&cross_and(), &rk, &rows).unwrap(),
        vec![
            ("A".to_string(), vec![(0, Fr::one())]),
            ("B".to_string(), vec![(1, Fr::one())]),
        ]
    );
    match reencryption_plan(&cross_and(), &rk, &labels(&[("A:x", "A")])) {
        Err(AbeError::DecryptError(m)) => assert_eq!(m, "No ciphertext for attr B:y"),
        other => panic!("unexpected {:?}", other),
    }
    match reencryption_plan(&cross_and(), &holdings(&[("A", &["A:x", "B:y"])]), &rows) {
        Err(AbeError::DecryptError(m)) => assert_eq!(m, "No re-encryption key for authority B"),
        other => panic!("unexpected {:?}", other),
    }
    let split = holdings(&[("A", &["A:x"]), ("B", &["B:z"]), ("C", &["B:y"])]);
    match reencryption_plan(&cross_and(), &split, &rows) {
        Err(AbeError::DecryptError(m)) => assert_eq!(m, "Missing re-key for attribute B:y"),
        other => panic!("unexpected {:?}", other),
    }
    match u2u_reencryption_plan(&cross_and(), &split, &rows) {
        Err(AbeError::DecryptError(m)) => assert_eq!(m, "Missing re-key for attr B:y"),
        other => panic!("unexpected {:?}", other),
    }
    assert!(matches!(
        u2u_reencryption_plan(&cross_and(), &holdings(&[("A", &["A:x"])]), &rows),
        Err(AbeError::PolicyNotSatisfied)
    ));
}

#[test]
fn test_conditional_reencryption_plan_at() {
    let rows = labels(&[("A:x", "A"), ("B:y", "B")]);
    let rk = holdings(&[("A", &["A:x"]), ("B", &["B:y"])]);
    let window = TimeCondition::until(100);
    match conditional_reencryption_plan_at(None, None, None, &window, 200, &cross_and(), &rk, &rows) {
        Err(AbeError::DecryptError(m)) => assert_eq!(m, "Re-encryption time condition not satisfied"),
        other => panic!("unexpected {:?}", other),
    }
    match conditional_reencryption_plan_at(Some("clock"), None, None, &window, 50, &cross_and(), &rk, &rows) {
        Err(AbeError::DecryptError(m)) => assert_eq!(m, "Trusted timestamp required but not provided"),
        other => panic!("unexpected {:?}", other),
    }
    let plan = conditional_reencryption_plan_at(None, None, None, &window, 50, &cross_and(), &rk, &rows).unwrap();
    assert_eq!(plan.len(), 2);
    assert_eq!(plan[1], ("B".to_string(), vec![(1, Fr::one())]));
}

#[test]
fn test_ac17_conditional_plan_at() {
    let policy = PolicyNode::Or(vec![attr("a"), attr("b")]);
    let window = TimeCondition::between(10, 20);
    match ac17_conditional_plan_at(&window, 5, &policy, &strings(&["a", "b"]), &strings(&["a"])) {
        Err(AbeError::DecryptError(m)) => assert_eq!(m, "Re-encryption time condition not satisfied"),
        other => panic!("unexpected {:?}", other),
    }
    assert_eq!(
        ac17_conditional_plan_at(&window, 15, &policy, &strings(&["a", "b"]), &strings(&["a"])).unwrap(),
        vec![(0, Fr::one())]
    );
    assert!(matches!(
        ac17_conditional_plan_at(&window, 15, &policy, &strings(&["a", "b"]), &strings(&["c"])),
        Err(AbeError::PolicyNotSatisfied)
    ));
}

#[test]
fn test_hop_limits() {
    assert_eq!(MAX_HOPS, 10);
    assert!(check_hop_limit(10).is_ok());
    match check_hop_limit(11) {
        Err(AbeError::EncryptError(m)) => assert_eq!(m, "Max hops 11 exceeds limit 10"),
        other => panic!("unexpected {:?}", other),
    }
    match check_first_hop_rekey(3, &strings(&["admin"]), &strings(&["admin", "x"])) {
        Err(AbeError::InvalidAttribute(m)) => assert_eq!(m, "Missing attribute: x"),
        other => panic!("unexpected {:?}", other),
    }
    assert!(check_first_hop_rekey(3, &strings(&["admin"]), &strings(&["admin"])).is_ok());
    match dabe_check_first_hop_rekey(3, 0) {
        Err(AbeError::KeygenError(m)) => assert_eq!(m, "User key has no authority components"),
        other => panic!("unexpected {:?}", other),
    }
    match dabe_check_first_hop_rekey(12, 2) {
        Err(AbeError::EncryptError(m)) => assert_eq!(m, "Max hops 12 exceeds limit 10"),
        other => panic!("unexpected {:?}", other),
    }
    assert!(dabe_check_first_hop_rekey(1, 2).is_ok());
}

#[test]
fn test_next_hop_index() {
    match next_hop_index(1, 1, 1) {
        Err(AbeError::EncryptError(m)) => assert_eq!(m, "Maximum hops reached"),
        other => panic!("unexpected {:?}", other),
    }
    match next_hop_index(0, 2, 0) {
        Err(AbeError::DecryptError(m)) => assert_eq!(m, "No hops in ciphertext"),
        other => panic!("unexpected {:?}", other),
    }
    assert_eq!(next_hop_index(1, 3, 1).unwrap(), 1);
}

fn part(aid: &str, attrs: &[&str]) -> UserKeyComponent<u8, usize> {
    authority_keygen(aid, 1u8, 2u8, &strings(attrs), |name: &String| name.len()).unwrap()
}

#[test]
fn test_authority_keygen_full_names() {
    let c = part("hr", &["employee", "manager", "employee"]);
    assert_eq!(c.aid, "hr");
    assert_eq!((c.k, c.l), (1, 2));
    let names: Vec<&str> = c.kx.iter().map(|(n, _)| n.as_str()).collect();
    assert_eq!(names, vec!["hr:employee", "hr:manager"]);
    assert_eq!(c.kx[0].1, "hr:employee".len());
}

#[test]
fn test_aggregate_user_keys_one_part_per_authority() {
    let usk = aggregate_user_keys(vec![
        part("hr", &["employee"]),
        part("it", &["developer"]),
        part("hr", &["manager"]),
    ])
    .unwrap();
    let aids: Vec<&str> = usk.components.iter().map(|c| c.aid.as_str()).collect();
    assert_eq!(aids, vec!["hr", "it"]);
    assert_eq!(usk.components[0].kx[0].0, "hr:manager");
    assert_eq!(
        usk.holdings(),
        vec![
            ("hr".to_string(), strings(&["hr:manager"])),
            ("it".to_string(), strings(&["it:developer"])),
        ]
    );
    assert!(aggregate_user_keys(Vec::<UserKeyComponent<u8, usize>>::new()).unwrap().components.is_empty());
}

fn hr_it_policy() -> PolicyNode {
    PolicyNode::And(vec![attr("hr:employee"), attr("it:developer")])
}

fn hr_it_rows() -> Vec<(String, String)> {
    labels(&[("hr:employee", "hr"), ("it:developer", "it")])
}

#[test]
fn test_dabe_cross_authority_and_plan() {
    let usk = aggregate_user_keys(vec![part("hr", &["employee"]), part("it", &["developer"])]).unwrap();
    let plan = decryption_plan(&hr_it_policy(), &usk.holdings(), &hr_it_rows(), &[strings(&["hr", "it"])]).unwrap();
    assert_eq!(
        plan,
        vec![
            ("hr".to_string(), vec![(0, Fr::one())]),
            ("it".to_string(), vec![(1, Fr::one())]),
        ]
    );
}

#[test]
fn test_dabe_cross_authority_and_missing_key_plan() {
    // the user holds only the HR part; the policy needs both authorities
    let usk = aggregate_user_keys(vec![part("hr", &["employee"])]).unwrap();
    assert!(matches!(
        decryption_plan(&hr_it_policy(), &usk.holdings(), &hr_it_rows(), &[strings(&["hr", "it"])]),
        Err(AbeError::PolicyNotSatisfied)
    ));
    assert!(matches!(
        reencryption_plan(&hr_it_policy(), &usk.holdings(), &hr_it_rows()),
        Err(AbeError::PolicyNotSatisfied)
    ));
}

#[test]
fn test_dabe_single_authority_threshold_plan() {
    // 2 of (a, b, c) from one authority, holding a and c
    let policy = PolicyNode::Threshold(2, vec![attr("auth:a"), attr("auth:b"), attr("auth:c")]);
    let usk = aggregate_user_keys(vec![part("auth", &["a", "c"])]).unwrap();
    let rows = labels(&[("auth:a", "auth"), ("auth:b", "auth"), ("auth:c", "auth")]);
    let plan = decryption_plan(&policy, &usk.holdings(), &rows, &[strings(&["auth"])]).unwrap();
    // Lagrange coefficients at 0 for points 1 and 3: 3/2 and -1/2
    let half = Fr::from_u64(2).inverse().unwrap();
    let three_halves = Fr::from_u64(3).mul(&half);
    let minus_half = Fr::zero().sub(&half);
    assert_eq!(plan, vec![("auth".to_string(), vec![(0, three_halves), (2, minus_half)])]);
}

#[test]
fn test_dabe_multihop_exceeds_max_limit_check() {
    let usk = aggregate_user_keys(vec![part("auth1", &["admin"])]).unwrap();
    match dabe_check_first_hop_rekey(MAX_HOPS + 1, usk.components.len()) {
        Err(AbeError::EncryptError(m)) => assert_eq!(m, "Max hops 11 exceeds limit 10"),
        other => panic!("unexpected {:?}", other),
    }
    assert!(dabe_check_first_hop_rekey(MAX_HOPS, usk.components.len()).is_ok());
}

#[test]
fn test_delegated_components() {
    let kx: Vec<(String, u32)> = vec![("a".to_string(), 1), ("b".to_string(), 2), ("a".to_string(), 3)];
    let rk = rabe_abe::schemes::conditional_pre::delegated_components(&kx, &strings(&["b", "a", "b"])).unwrap();
    assert_eq!(rk, vec![("b".to_string(), 2), ("a".to_string(), 1)]);
    match rabe_abe::schemes::conditional_pre::delegated_components(&kx, &strings(&["a", "c"])) {
        Err(AbeError::InvalidAttribute(m)) => assert_eq!(m, "Missing attribute: c"),
        other => panic!("unexpected {:?}", other),
    }
    assert!(rabe_abe::schemes::conditional_pre::delegated_components(&kx, &[]).unwrap().is_empty());
}
