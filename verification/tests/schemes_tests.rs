use rabe_abe::schemes::attribute_expiration::{can_decrypt as expiring_can_decrypt, decryption_coefficients};
use rabe_abe::lsss::{LsssMatrix, PolicyNode};
use rabe_abe::policy_gen::build_policy_from_bytes;
use rabe_abe::schemes::ac17_conditional_pre;
use rabe_abe::schemes::attribute_expiration::{
    apply_renewal, keygen as expiring_keygen, keygen_simple as expiring_keygen_simple,
    AttributeKeyComponent, SecretKey as ExpiringKey, TimedAttribute,
};
use rabe_abe::schemes::binary_tree_encryption::{
    current_period, evolve, evolve_to, remaining_periods, setup_secret_key, NodeId, SecretKey,
};
use rabe_abe::schemes::conditional_pre::{
    check_rekey_attributes, current_timestamp, proxy_token_hash, verify_proxy_token,
    PolicyCondition, TimeCondition,
};
use rabe_abe::schemes::dabe::{
    collect_authorities, combinations, create_shares, find_minimal_authority_sets,
    find_satisfying_assignment, get_authority, is_cross_authority_and, lagrange_coefficient,
    minimize_sets, parse_authority_attr, AttributeShare, AuthoritySet,
};
use rabe_abe::schemes::dabe_conditional_pre::{
    reencryption_time_at, reencryption_time_now, TrustedTimestamp,
};
use rabe_abe::schemes::direct_revocation::{
    check_not_revoked, keygen as identity_keygen, keygen_revoked, policy_with_revocation, revoke_key,
    user_to_attribute,
    user_to_not_revoked_attribute, RevocationSet, SecretKey as IdentityKey,
};
use rabe_abe::schemes::hidden_policy::{
    anonymize_policy, can_potentially_decrypt, compute_attribute_id, derive_policy_key, partial_anonymize_policy,
    visible_policy, PolicyVisibility,
};
use rabe_abe::{AbeError, Fr};

fn attr(name: &str) -> PolicyNode {
    PolicyNode::Attr(name.to_string())
}

fn set_of(names: &[&str]) -> AuthoritySet {
    let mut s = AuthoritySet::new();
    for n in names {
        s.insert(n);
    }
    s
}

fn hex(bytes: &[u8]) -> String {
    let mut s = String::new();
    for b in bytes {
        s.push_str(&format!("{:02x}", b));
    }
    s
}

#[test]
fn test_time_condition_helpers() {
    let now = current_timestamp();

    let always = TimeCondition::always();
    assert!(always.is_satisfied_at(now));
    assert!(always.is_satisfied_at(0));
    assert!(always.is_satisfied_at(u64::MAX));

    let from = TimeCondition::from(now);
    assert!(from.is_satisfied_at(now));
    assert!(from.is_satisfied_at(now + 1));
    assert!(!from.is_satisfied_at(now - 1));

    let until = TimeCondition::until(now);
    assert!(until.is_satisfied_at(now));
    assert!(until.is_satisfied_at(now - 1));
    assert!(!until.is_satisfied_at(now + 1));

    let between = TimeCondition::between(now - 10, now + 10);
    assert!(between.is_satisfied_at(now));
    assert!(between.is_satisfied_at(now - 10));
    assert!(between.is_satisfied_at(now + 10));
    assert!(!between.is_satisfied_at(now - 11));
    assert!(!between.is_satisfied_at(now + 11));
}

#[test]
fn test_ac17_time_condition_helpers() {
    let now = current_timestamp();

    let always = ac17_conditional_pre::TimeCondition::always();
    assert!(always.is_satisfied_at(now));
    assert!(always.is_satisfied_at(0));
    assert!(always.is_satisfied_at(u64::MAX));

    let from = ac17_conditional_pre::TimeCondition::from(now);
    assert!(from.is_satisfied_at(now));
    assert!(from.is_satisfied_at(now + 1));
    assert!(!from.is_satisfied_at(now - 1));

    let until = ac17_conditional_pre::TimeCondition::until(now);
    assert!(until.is_satisfied_at(now));
    assert!(until.is_satisfied_at(now - 1));
    assert!(!until.is_satisfied_at(now + 1));

    let between = ac17_conditional_pre::TimeCondition::between(now - 10, now + 10);
    assert!(between.is_satisfied_at(now));
    assert!(between.is_satisfied_at(now - 10));
    assert!(between.is_satisfied_at(now + 10));
    assert!(!between.is_satisfied_at(now - 11));
    assert!(!between.is_satisfied_at(now + 11));
}

#[test]
fn clock_reads_a_recent_time_and_conditions_follow_it() {
    let now = current_timestamp();
    assert!(now > 1_600_000_000);
    assert!(TimeCondition::always().is_satisfied());
    assert!(!TimeCondition::until(1_000).is_satisfied());
    assert!(TimeCondition::from(1_000).is_satisfied());
}

#[test]
fn policy_conditions_keep_canonical_text() {
    assert_eq!(PolicyCondition::requires_attribute("delegator").proxy_policy, "delegator");
    let policy = PolicyNode::Or(vec![attr("b"), attr("a")]);
    assert_eq!(PolicyCondition::from_policy(&policy).proxy_policy, "(a or b)");
}

#[test]
fn test_timed_attribute() {
    let now = current_timestamp();

    let attr = TimedAttribute::new("admin", now, now + 3600);
    assert!(attr.is_valid_at(now));
    assert!(attr.is_valid_at(now + 1800));
    assert!(!attr.is_valid_at(now + 3600));
    assert!(!attr.is_valid_at(now - 1));

    let forever = TimedAttribute::forever("superuser");
    assert!(forever.is_valid_at(0));
    assert!(forever.is_valid_at(u64::MAX - 1));
}

#[test]
fn timed_attribute_extension_only_lengthens() {
    let mut a = TimedAttribute::new("role", 100, 200);
    a.extend(150);
    assert_eq!(a.valid_until, 200);
    a.extend(300);
    assert_eq!(a.valid_until, 300);
    assert!(a.is_valid_at(250));
    let b = TimedAttribute::valid_for("temp", 60);
    assert_eq!(b.valid_until, b.valid_from + 60);
    assert!(b.is_valid_now());
}

#[test]
fn test_node_id() {
    let root = NodeId::root();
    assert_eq!(root.depth(), 0);

    let left = root.left();
    assert_eq!(left.path, vec![0]);

    let right = root.right();
    assert_eq!(right.path, vec![1]);

    let leaf = NodeId::from_period(5, 4);
    assert_eq!(leaf.to_period(), 5);
}

#[test]
fn test_path_to_root() {
    let leaf = NodeId::from_period(5, 4);
    let path = leaf.path_to_root();

    assert_eq!(path.len(), 5);
    assert_eq!(path[0], leaf);
    assert_eq!(path[4], NodeId::root());
}

#[test]
fn test_is_ancestor() {
    let root = NodeId::root();
    let left = root.left();
    let left_left = left.left();

    assert!(root.is_ancestor_of(&left));
    assert!(root.is_ancestor_of(&left_left));
    assert!(left.is_ancestor_of(&left_left));
    assert!(!left_left.is_ancestor_of(&left));
    assert!(!left.is_ancestor_of(&root));
}

#[test]
fn periods_round_trip_through_leaves() {
    for depth in [1usize, 4, 10, 64] {
        for period in [0u64, 1, 5, 1023] {
            if depth < 64 && period >= (1u64 << depth) {
                continue;
            }
            let leaf = NodeId::from_period(period, depth);
            assert_eq!(leaf.depth(), depth);
            assert!(leaf.is_leaf(depth));
            assert_eq!(leaf.to_period(), period);
        }
    }
    assert_eq!(NodeId::from_period(5, 4).path, vec![0, 1, 0, 1]);
    assert_eq!(NodeId::from_path(vec![1, 1, 0]).to_period(), 6);
    assert_eq!(NodeId::from_period(u64::MAX, 64).to_period(), u64::MAX);
}

#[test]
fn parents_and_children() {
    let n = NodeId::from_path(vec![1, 0, 1]);
    assert!(n.is_right_child());
    assert_eq!(n.parent().unwrap().path, vec![1, 0]);
    assert!(!n.parent().unwrap().is_right_child());
    assert!(NodeId::root().parent().is_none());
    assert!(!NodeId::root().is_right_child());
}

#[test]
fn test_minimal_authority_sets() {
    let policy = PolicyNode::Or(vec![
        PolicyNode::Attr("auth1:a".to_string()),
        PolicyNode::Attr("auth2:b".to_string()),
    ]);
    let sets = find_minimal_authority_sets(&policy);
    assert_eq!(sets.len(), 2);

    let policy2 = PolicyNode::And(vec![
        PolicyNode::Attr("auth1:a".to_string()),
        PolicyNode::Attr("auth2:b".to_string()),
    ]);
    let sets2 = find_minimal_authority_sets(&policy2);
    assert_eq!(sets2.len(), 1);
    assert!(sets2[0].contains("auth1"));
    assert!(sets2[0].contains("auth2"));
}

#[test]
fn test_is_cross_authority_and() {
    let children1 = vec![
        PolicyNode::Attr("auth1:a".to_string()),
        PolicyNode::Attr("auth1:b".to_string()),
    ];
    assert!(!is_cross_authority_and(&children1));

    let children2 = vec![
        PolicyNode::Attr("auth1:a".to_string()),
        PolicyNode::Attr("auth2:b".to_string()),
    ];
    assert!(is_cross_authority_and(&children2));

    let children3 = vec![
        PolicyNode::And(vec![
            PolicyNode::Attr("auth1:a".to_string()),
            PolicyNode::Attr("auth1:b".to_string()),
        ]),
        PolicyNode::Attr("auth2:c".to_string()),
    ];
    assert!(is_cross_authority_and(&children3));
}

#[test]
fn authority_parsing_splits_at_first_colon() {
    assert_eq!(parse_authority_attr("hr:role:admin"), Some(("hr", "role:admin")));
    assert_eq!(parse_authority_attr("plain"), None);
    assert_eq!(get_authority("it:dev"), Some("it".to_string()));
    let policy = PolicyNode::And(vec![attr("hr:x"), attr("plain"), PolicyNode::Or(vec![attr("it:y"), attr("hr:z")])]);
    let auths = collect_authorities(&policy);
    assert_eq!(auths.len(), 2);
    assert!(auths.contains("hr") && auths.contains("it"));
}

#[test]
fn threshold_authority_sets_are_minimal() {
    let policy = PolicyNode::Threshold(2, vec![attr("a:1"), attr("b:1"), attr("a:2")]);
    let sets = find_minimal_authority_sets(&policy);
    assert_eq!(sets.len(), 1);
    assert!(sets[0].same_as(&set_of(&["a"])));
    let policy3 = PolicyNode::Threshold(2, vec![attr("a:1"), attr("b:1"), attr("c:1")]);
    let sets3 = find_minimal_authority_sets(&policy3);
    assert_eq!(sets3.len(), 3);
    assert!(sets3[0].same_as(&set_of(&["a", "b"])));
    assert!(sets3[1].same_as(&set_of(&["a", "c"])));
    assert!(sets3[2].same_as(&set_of(&["b", "c"])));
    let or_policy = PolicyNode::Or(vec![PolicyNode::And(vec![attr("a:1"), attr("b:1")]), attr("a:2")]);
    let or_sets = find_minimal_authority_sets(&or_policy);
    assert_eq!(or_sets.len(), 1);
    assert!(or_sets[0].same_as(&set_of(&["a"])));
}

#[test]
fn minimize_keeps_first_minimal_sets() {
    let sets = vec![set_of(&["a", "b"]), set_of(&["a"]), set_of(&["c"]), set_of(&["a"]), set_of(&["c", "d"])];
    let min = minimize_sets(sets);
    assert_eq!(min.len(), 2);
    assert!(min[0].same_as(&set_of(&["a"])));
    assert!(min[1].same_as(&set_of(&["c"])));
}

#[test]
fn combinations_in_order() {
    let combos = combinations(4, 2);
    assert_eq!(
        combos,
        vec![vec![0, 1], vec![0, 2], vec![0, 3], vec![1, 2], vec![1, 3], vec![2, 3]]
    );
    assert_eq!(combinations(3, 0), vec![Vec::<usize>::new()]);
    assert!(combinations(2, 3).is_empty());
}

#[test]
fn lagrange_coefficients_at_zero() {
    let points = vec![Fr::from_u64(1), Fr::from_u64(2)];
    assert_eq!(lagrange_coefficient(&points, 0), Fr::from_u64(2));
    assert_eq!(lagrange_coefficient(&points, 1), Fr::zero().sub(&Fr::one()));
}

#[test]
fn satisfying_assignments() {
    let user = vec!["a:x".to_string(), "a:z".to_string()];
    let or_policy = PolicyNode::Or(vec![attr("a:y"), attr("a:z"), attr("a:x")]);
    let got = find_satisfying_assignment(&or_policy, &user).unwrap();
    assert_eq!(got, vec![("a:z".to_string(), Fr::one())]);

    let and_policy = PolicyNode::And(vec![attr("a:x"), attr("a:y")]);
    assert!(find_satisfying_assignment(&and_policy, &user).is_none());

    let threshold = PolicyNode::Threshold(2, vec![attr("a:x"), attr("a:y"), attr("a:z")]);
    let got = find_satisfying_assignment(&threshold, &user).unwrap();
    assert_eq!(got.len(), 2);
    // points 1 and 3: coefficients 3/2 and -1/2
    let half = Fr::from_u64(2).inverse().unwrap();
    assert_eq!(got[0], ("a:x".to_string(), Fr::from_u64(3).mul(&half)));
    assert_eq!(got[1], ("a:z".to_string(), Fr::zero().sub(&half)));
}

fn share_of(shares: &[AttributeShare], attr: &str) -> Fr {
    shares.iter().find(|s| s.attr == attr).unwrap().share
}

#[test]
fn shares_reconstruct_the_secret() {
    let mut rng = rand::thread_rng();
    let secret = Fr::from_u64(1234);

    let mut or_shares = Vec::new();
    create_shares(&mut rng, &PolicyNode::Or(vec![attr("a:x"), attr("b:y"), attr("plain")]), secret, &mut or_shares);
    assert_eq!(or_shares.len(), 2);
    assert!(or_shares.iter().all(|s| s.share == secret));
    assert_eq!(or_shares[1].aid, "b");

    let mut and_shares = Vec::new();
    create_shares(&mut rng, &PolicyNode::And(vec![attr("a:x"), attr("a:y"), attr("a:z")]), secret, &mut and_shares);
    let total = and_shares.iter().fold(Fr::zero(), |acc, s| acc.add(&s.share));
    assert_eq!(total, secret);

    let mut cross_shares = Vec::new();
    create_shares(&mut rng, &PolicyNode::And(vec![attr("a:x"), attr("b:y")]), secret, &mut cross_shares);
    assert!(cross_shares.iter().all(|s| s.share == secret));

    let policy = PolicyNode::Threshold(2, vec![attr("a:x"), attr("a:y"), attr("a:z")]);
    let mut t_shares = Vec::new();
    create_shares(&mut rng, &policy, secret, &mut t_shares);
    let user = vec!["a:y".to_string(), "a:z".to_string()];
    let assignment = find_satisfying_assignment(&policy, &user).unwrap();
    let mut reconstructed = Fr::zero();
    for (a, c) in &assignment {
        reconstructed = reconstructed.add(&c.mul(&share_of(&t_shares, a)));
    }
    assert_eq!(reconstructed, secret);
}

#[test]
fn test_policy_with_revocation() {
    let revoked = RevocationSet::from_users(&["bob", "alice"]);

    let policy = policy_with_revocation("admin", &revoked).unwrap();

    assert_eq!(policy, "admin");
}

#[test]
fn test_revocation_set() {
    let mut rs = RevocationSet::new();

    assert!(!rs.is_revoked("alice"));

    rs.revoke("alice");
    assert!(rs.is_revoked("alice"));
    assert!(!rs.is_revoked("bob"));

    rs.unrevoke("alice");
    assert!(!rs.is_revoked("alice"));

    assert_eq!(rs.len(), 0);
}

#[test]
fn revocation_set_counts_each_user_once() {
    let mut rs = RevocationSet::from_users(&["bob", "alice", "bob"]);
    assert_eq!(rs.len(), 2);
    assert!(!rs.is_empty());
    rs.revoke("alice");
    assert_eq!(rs.len(), 2);
    let mut users = rs.revoked_users();
    users.sort();
    assert_eq!(users, vec!["alice".to_string(), "bob".to_string()]);
    let copy = rs.clone();
    rs.unrevoke("bob");
    assert!(copy.is_revoked("bob"));
    assert!(!rs.is_revoked("bob"));
    assert!(RevocationSet::default().is_empty());
    assert_eq!(user_to_attribute("alice"), "USER_alice");
    assert_eq!(user_to_not_revoked_attribute("alice"), "NOT_REVOKED_alice");
}

#[test]
fn test_anonymize_policy() {
    let policy = PolicyNode::And(vec![
        PolicyNode::Attr("admin".to_string()),
        PolicyNode::Or(vec![
            PolicyNode::Attr("developer".to_string()),
            PolicyNode::Attr("manager".to_string()),
        ]),
    ]);

    let anon = anonymize_policy(&policy);

    assert!(anon.contains("AND"));
    assert!(anon.contains("OR"));
    assert!(anon.contains("ATTR_"));
    assert!(!anon.contains("admin"));
    assert!(!anon.contains("developer"));
}

#[test]
fn test_partial_anonymize_policy() {
    let policy = PolicyNode::And(vec![
        PolicyNode::Attr("admin".to_string()),
        PolicyNode::Attr("secret_clearance".to_string()),
    ]);

    let hidden = vec!["secret_clearance".to_string()];
    let partial = partial_anonymize_policy(&policy, &hidden);

    assert!(partial.contains("admin"));
    assert!(!partial.contains("secret_clearance"));
    assert!(partial.contains("[HIDDEN]"));
}

#[test]
fn anonymized_texts_exactly() {
    let policy = PolicyNode::Threshold(2, vec![attr("x"), PolicyNode::Or(vec![attr("y"), attr("z")]), attr("w")]);
    assert_eq!(anonymize_policy(&policy), "2-of-3(ATTR_1, OR(ATTR_2, ATTR_3), ATTR_4)");
    let hidden = vec!["z".to_string()];
    assert_eq!(partial_anonymize_policy(&policy, &hidden), "2-of-3(x, OR(y, [HIDDEN]), w)");
    assert_eq!(visible_policy(&policy, &PolicyVisibility::FullyHidden), None);
    assert_eq!(
        visible_policy(&policy, &PolicyVisibility::StructureVisible),
        Some("2-of-3(ATTR_1, OR(ATTR_2, ATTR_3), ATTR_4)".to_string())
    );
    assert_eq!(
        visible_policy(&policy, &PolicyVisibility::PartiallyHidden(vec!["x".to_string()])),
        Some("2-of-3([HIDDEN], OR(y, z), w)".to_string())
    );
}

#[test]
fn test_attribute_id_consistency() {
    let attr = "test_attribute";
    let id1 = compute_attribute_id(attr);
    let id2 = compute_attribute_id(attr);

    assert_eq!(id1, id2);

    let id3 = compute_attribute_id("other_attribute");
    assert_ne!(id1, id3);
}

#[test]
fn attribute_id_is_tagged_sha256() {
    assert_eq!(
        hex(&compute_attribute_id("abc")),
        "0d7a0906c1109fa3ff9263d6655aaae2435199c527c35cede7fc98bd33a3dd32"
    );
}

#[test]
fn trusted_timestamps_verify_only_for_their_authority_and_key() {
    let ts = TrustedTimestamp::new(1_700_000_000, "auth1", b"key");
    assert_eq!(ts.timestamp, 1_700_000_000);
    assert_eq!(ts.authority_id, "auth1");
    assert_eq!(&ts.nonce[0..8], &1_700_000_000u64.to_le_bytes());
    assert!(ts.nonce[8..].iter().all(|b| *b == 0));
    assert_eq!(
        hex(&ts.signature),
        "5435bc1b510ba1b351ff128dd27bb57a9267237cc15ad755fccda19f54f5f66c"
    );
    assert!(ts.verify("auth1", b"key"));
    assert!(!ts.verify("auth2", b"key"));
    assert!(!ts.verify("auth1", b"other key"));
}

#[test]
fn built_policies_are_well_formed_and_exact() {
    assert_eq!(build_policy_from_bytes(&[]), attr("a"));
    assert_eq!(build_policy_from_bytes(&[0]), attr("attr"));
    assert_eq!(build_policy_from_bytes(&[4, 17]), attr("attr_17"));
    assert_eq!(build_policy_from_bytes(&[1]), PolicyNode::And(vec![attr("a"), attr("a")]));
    let pair = PolicyNode::And(vec![attr("a"), attr("a")]);
    assert_eq!(
        build_policy_from_bytes(&[2, 0, 9]),
        PolicyNode::Or(vec![attr("attr"), pair.clone()])
    );
    assert_eq!(
        build_policy_from_bytes(&[3, 1, 5, 0]),
        PolicyNode::Threshold(3, vec![pair.clone(), pair.clone(), attr("attr")])
    );
    assert_eq!(build_policy_from_bytes(&[0, 9, 9]), attr("attr_9"));
    for seed in 0u8..=255 {
        let data = [seed, seed.wrapping_mul(7), seed.wrapping_add(3), seed ^ 0x5a, 1, 2, 3];
        let policy = build_policy_from_bytes(&data);
        let matrix = LsssMatrix::from_policy(&policy);
        assert_eq!(matrix.rows.len(), policy.count_attrs());
    }
}

#[test]
fn error_messages() {
    assert_eq!(AbeError::SetupError.message(), "Setup failed");
    assert_eq!(AbeError::InvalidPolicy("bad".to_string()).message(), "Invalid policy: bad");
    assert_eq!(AbeError::PolicyNotSatisfied.message(), "Policy not satisfied");
}

/// A fresh key of depth `depth` whose node keys number the nodes in the
/// order they were made.
fn numbered_key(depth: usize) -> SecretKey<u64> {
    setup_secret_key(depth, |n: &NodeId| n.path.len() as u64)
}

#[test]
fn test_evolve() {
    let mut sk = numbered_key(4);

    assert_eq!(sk.current_period, 0);
    assert!(sk.can_decrypt(0));

    evolve(&mut sk).unwrap();
    assert_eq!(sk.current_period, 1);
    assert!(!sk.can_decrypt(0));
    assert!(sk.can_decrypt(1));
}

#[test]
fn test_evolve_to() {
    let mut sk = numbered_key(4);

    evolve_to(&mut sk, 5).unwrap();
    assert_eq!(sk.current_period, 5);
    assert!(!sk.can_decrypt(4));
    assert!(sk.can_decrypt(5));
}

#[test]
fn test_cannot_evolve_backwards() {
    let mut sk = numbered_key(4);

    evolve_to(&mut sk, 5).unwrap();

    let result = evolve_to(&mut sk, 3);
    assert!(result.is_err());
}

#[test]
fn test_remaining_periods() {
    let mut sk = numbered_key(4);

    assert_eq!(remaining_periods(&sk), 16);

    evolve_to(&mut sk, 5).unwrap();
    assert_eq!(remaining_periods(&sk), 11);

    evolve_to(&mut sk, 15).unwrap();
    assert_eq!(remaining_periods(&sk), 1);
}

#[test]
fn test_setup_secret_key_layout() {
    let sk = numbered_key(3);
    assert_eq!(sk.current_period, 0);
    assert_eq!(sk.max_period, 7);
    assert_eq!(sk.depth, 3);
    let paths: Vec<Vec<u8>> = sk.node_keys.iter().map(|e| e.0.clone()).collect();
    assert_eq!(
        paths,
        vec![vec![], vec![0], vec![1], vec![0, 0], vec![0, 1]]
    );
    let keys: Vec<u64> = sk.node_keys.iter().map(|e| e.1).collect();
    assert_eq!(keys, vec![0, 1, 1, 2, 2]);
}

#[test]
fn test_evolve_drops_left_subtree() {
    let mut sk = numbered_key(3);
    evolve(&mut sk).unwrap();
    // Periods 0 (000) and 1 (001) part below 00: the key of 00 goes.
    let paths: Vec<Vec<u8>> = sk.node_keys.iter().map(|e| e.0.clone()).collect();
    assert_eq!(paths, vec![vec![], vec![0], vec![1], vec![0, 1]]);
    evolve(&mut sk).unwrap();
    // Periods 1 (001) and 2 (010) part below the root: 0 and 01 go.
    let paths: Vec<Vec<u8>> = sk.node_keys.iter().map(|e| e.0.clone()).collect();
    assert_eq!(paths, vec![vec![], vec![1]]);
    assert_eq!(current_period(&sk), 2);
}

#[test]
fn test_evolve_at_max_period() {
    let mut sk = numbered_key(2);
    evolve_to(&mut sk, 3).unwrap();
    match evolve(&mut sk) {
        Err(AbeError::KeygenError(m)) => assert_eq!(m, "Already at max period"),
        other => panic!("unexpected {:?}", other),
    }
    assert_eq!(sk.current_period, 3);
    match evolve_to(&mut sk, 9) {
        Err(AbeError::KeygenError(m)) => assert_eq!(m, "Already at max period"),
        other => panic!("unexpected {:?}", other),
    }
    match evolve_to(&mut sk, 1) {
        Err(AbeError::KeygenError(m)) => assert_eq!(m, "Cannot evolve backwards"),
        other => panic!("unexpected {:?}", other),
    }
}

#[test]
fn test_get_period_key_lowest_held_node() {
    let mut sk = numbered_key(3);
    // Leaf 000 is not held; its parent 00 is.
    assert_eq!(sk.get_period_key(0), Some(&2));
    // Leaf 101: neither it nor 10 is held; 1 is.
    assert_eq!(sk.get_period_key(5), Some(&1));
    assert_eq!(sk.get_period_key(8), None);
    evolve(&mut sk).unwrap();
    assert_eq!(sk.get_period_key(0), None);
    // The root's key stays after moving to the last period.
    evolve_to(&mut sk, 7).unwrap();
    assert!(sk.get_period_key(7).is_some());
}

/// A key whose attributes carry the given windows; the key material is the
/// attribute's position.
fn expiring_key(windows: &[(&str, u64, u64)]) -> ExpiringKey<u8, usize> {
    ExpiringKey {
        user_id: "alice".to_string(),
        k: 1,
        l: 2,
        attributes: windows
            .iter()
            .enumerate()
            .map(|(i, (name, from, until))| {
                (
                    name.to_string(),
                    AttributeKeyComponent { key: i, valid_from: *from, valid_until: *until },
                )
            })
            .collect(),
        issued_at: 100,
    }
}

#[test]
fn test_attribute_component_window() {
    let c = AttributeKeyComponent { key: (), valid_from: 1000, valid_until: 2000 };
    assert!(!c.is_valid_at(999));
    assert!(c.is_valid_at(1000));
    assert!(c.is_valid_at(1999));
    assert!(!c.is_valid_at(2000));
}

#[test]
fn test_valid_attributes_at_filters_by_time() {
    let sk = expiring_key(&[("A", 0, 1000), ("B", 500, 3000), ("C", 2000, 4000)]);
    assert_eq!(sk.valid_attributes_at(100), vec!["A".to_string()]);
    assert_eq!(sk.valid_attributes_at(600), vec!["A".to_string(), "B".to_string()]);
    assert_eq!(sk.valid_attributes_at(2500), vec!["B".to_string(), "C".to_string()]);
    assert!(sk.valid_attributes_at(5000).is_empty());
}

#[test]
fn test_is_attribute_valid() {
    let sk = expiring_key(&[("A", 0, 1000), ("B", 500, 3000)]);
    assert!(sk.is_attribute_valid("A", 999));
    assert!(!sk.is_attribute_valid("A", 1000));
    assert!(!sk.is_attribute_valid("B", 499));
    assert!(!sk.is_attribute_valid("Z", 600));
}

#[test]
fn test_key_earliest_expiration() {
    let sk = expiring_key(&[("A", 0, 3000), ("B", 0, 1000), ("C", 0, 2000)]);
    assert_eq!(sk.earliest_expiration(), Some(1000));
    let empty = expiring_key(&[]);
    assert_eq!(empty.earliest_expiration(), None);
}

#[test]
fn test_apply_renewal_extends_only() {
    let mut sk = expiring_key(&[("A", 0, 1000), ("B", 0, 2000)]);
    apply_renewal(&mut sk, "A", 5000).unwrap();
    assert!(sk.is_attribute_valid("A", 4000));
    assert_eq!(sk.attributes[0].1.valid_until, 5000);
    assert_eq!(sk.attributes[0].1.key, 0);
    // An earlier end leaves the window as it was.
    apply_renewal(&mut sk, "B", 1500).unwrap();
    assert_eq!(sk.attributes[1].1.valid_until, 2000);
    match apply_renewal(&mut sk, "Z", 9000) {
        Err(AbeError::InvalidAttribute(m)) => assert_eq!(m, "Attribute Z not found"),
        other => panic!("unexpected {:?}", other),
    }
    assert_eq!(sk.attributes.len(), 2);
}

#[test]
fn test_valid_attributes_now_for_forever_attributes() {
    let sk = expiring_key(&[("A", 0, u64::MAX), ("B", u64::MAX - 1, u64::MAX)]);
    assert_eq!(sk.valid_attributes_now(), vec!["A".to_string()]);
}

fn decrypt_error_message(r: Result<u64, AbeError>) -> String {
    match r {
        Err(AbeError::DecryptError(m)) => m,
        other => panic!("unexpected {:?}", other),
    }
}

#[test]
fn test_reencryption_time_with_trusted_timestamp() {
    let ts = TrustedTimestamp::new(1_700_000_000, "auth1", b"key");
    let window = TimeCondition::between(1_600_000_000, 1_800_000_000);
    assert_eq!(
        reencryption_time_at(Some("auth1"), Some(&b"key"[..]), Some(&ts), &window, 0).unwrap(),
        1_700_000_000
    );
    assert_eq!(
        decrypt_error_message(reencryption_time_at(Some("auth1"), Some(&b"key"[..]), None, &window, 0)),
        "Trusted timestamp required but not provided"
    );
    assert_eq!(
        decrypt_error_message(reencryption_time_at(Some("auth1"), None, Some(&ts), &window, 0)),
        "Time authority key not set in re-encryption key"
    );
    assert_eq!(
        decrypt_error_message(reencryption_time_at(Some("auth1"), Some(&b"other"[..]), Some(&ts), &window, 0)),
        "Trusted timestamp verification failed"
    );
    assert_eq!(
        decrypt_error_message(reencryption_time_at(Some("auth2"), Some(&b"key"[..]), Some(&ts), &window, 0)),
        "Trusted timestamp verification failed"
    );
    let late = TimeCondition::from(1_750_000_000);
    assert_eq!(
        decrypt_error_message(reencryption_time_at(Some("auth1"), Some(&b"key"[..]), Some(&ts), &late, 0)),
        "Re-encryption time condition not satisfied"
    );
}

#[test]
fn test_reencryption_time_from_clock() {
    let window = TimeCondition::between(0, 10);
    assert_eq!(reencryption_time_at(None, None, None, &window, 5).unwrap(), 5);
    assert_eq!(
        decrypt_error_message(reencryption_time_at(None, None, None, &window, 20)),
        "Re-encryption time condition not satisfied"
    );
    let now = reencryption_time_now(None, None, None, &TimeCondition::always()).unwrap();
    assert!(now > 1_600_000_000);
    assert!(reencryption_time_now(None, None, None, &TimeCondition::until(1000)).is_err());
}

/// A key for `user` whose components are numbered in order.
fn identity_key(user: &str, attrs: &[&str]) -> IdentityKey<u8, u32> {
    let mut all: Vec<String> = vec![user_to_attribute(user), user_to_not_revoked_attribute(user)];
    all.extend(attrs.iter().map(|a| a.to_string()));
    IdentityKey {
        user_id: user.to_string(),
        k: 7,
        l: 9,
        kx: all.iter().enumerate().map(|(i, a)| (a.clone(), i as u32)).collect(),
        user_attributes: attrs.iter().map(|a| a.to_string()).collect(),
        all_attributes: all,
    }
}

#[test]
fn test_revoke_key() {
    let sk = identity_key("alice", &["admin"]);
    assert!(sk.kx.iter().any(|e| e.0 == "NOT_REVOKED_alice"));

    let revoked_sk = revoke_key(&sk);

    assert!(!revoked_sk.kx.iter().any(|e| e.0 == "NOT_REVOKED_alice"));
    assert!(revoked_sk.kx.iter().any(|e| e.0 == "USER_alice"));
    assert_eq!(
        revoked_sk.kx,
        vec![("USER_alice".to_string(), 0), ("admin".to_string(), 2)]
    );
    assert_eq!(revoked_sk.all_attributes, vec!["USER_alice".to_string(), "admin".to_string()]);
    assert_eq!(revoked_sk.user_attributes, vec!["admin".to_string()]);
    assert_eq!(revoked_sk.user_id, "alice");
    assert_eq!((revoked_sk.k, revoked_sk.l), (7, 9));
    // Revoking again changes nothing.
    let twice = revoke_key(&revoked_sk);
    assert_eq!(twice.kx, revoked_sk.kx);
    assert_eq!(twice.all_attributes, revoked_sk.all_attributes);
}

#[test]
fn test_check_not_revoked() {
    let revoked = vec!["bob".to_string(), "charlie".to_string()];
    assert!(check_not_revoked(&revoked, "alice").is_ok());
    match check_not_revoked(&revoked, "charlie") {
        Err(AbeError::DecryptError(m)) => assert_eq!(m, "User charlie is revoked for this ciphertext"),
        other => panic!("unexpected {:?}", other),
    }
    assert!(check_not_revoked(&Vec::new(), "bob").is_ok());
}

#[test]
fn test_can_potentially_decrypt() {
    let key_attrs = vec!["admin".to_string()];
    let matching = vec![compute_attribute_id("admin")];
    assert!(can_potentially_decrypt(&key_attrs, &matching));

    let other = vec![compute_attribute_id("manager")];
    assert!(!can_potentially_decrypt(&key_attrs, &other));

    let several = vec![compute_attribute_id("x"), compute_attribute_id("y")];
    let attrs2 = vec!["z".to_string(), "y".to_string()];
    assert!(can_potentially_decrypt(&attrs2, &several));
    assert!(!can_potentially_decrypt(&Vec::new(), &several));
}

#[test]
fn test_check_rekey_attributes() {
    let held = vec!["admin".to_string(), "staff".to_string()];
    assert!(check_rekey_attributes(&held, &["staff".to_string(), "admin".to_string()]).is_ok());
    assert!(check_rekey_attributes(&held, &[]).is_ok());
    match check_rekey_attributes(&held, &["admin".to_string(), "root".to_string(), "x".to_string()]) {
        Err(AbeError::InvalidAttribute(m)) => assert_eq!(m, "Missing attribute: root"),
        other => panic!("unexpected {:?}", other),
    }
}

#[test]
fn test_proxy_token_round_trip() {
    let token = [7u8; 32];
    let hash = proxy_token_hash(&token);
    assert_eq!(hash.len(), 32);
    assert!(verify_proxy_token(&hash, &token));
    let mut other = token;
    other[0] = 8;
    assert!(!verify_proxy_token(&hash, &other));
    let hex: String = hash.iter().map(|b| format!("{:02x}", b)).collect();
    assert_eq!(hex, "1b153742597facb58373352c83e9f8e8caf4962c430fb19439ce2a734e756f04");
}

#[test]
fn test_same_shape_publishes_same_structure() {
    let p = PolicyNode::And(vec![
        PolicyNode::Attr("admin".to_string()),
        PolicyNode::Threshold(1, vec![PolicyNode::Attr("a".to_string()), PolicyNode::Attr("b".to_string())]),
    ]);
    let q = PolicyNode::And(vec![
        PolicyNode::Attr("guest".to_string()),
        PolicyNode::Threshold(1, vec![PolicyNode::Attr("x".to_string()), PolicyNode::Attr("y".to_string())]),
    ]);
    assert_eq!(anonymize_policy(&p), anonymize_policy(&q));
    assert_eq!(anonymize_policy(&p), "AND(ATTR_1, 1-of-2(ATTR_2, ATTR_3))");
}

#[test]
fn test_revoke_then_unrevoke_restores() {
    let mut rs = RevocationSet::from_users(&["bob"]);
    rs.revoke("alice");
    rs.revoke("alice");
    assert_eq!(rs.len(), 2);
    rs.unrevoke("alice");
    assert_eq!(rs.len(), 1);
    assert!(rs.is_revoked("bob"));
    assert!(!rs.is_revoked("alice"));
}

#[test]
fn test_derive_policy_key_known_digest() {
    let key = derive_policy_key(&[1, 2, 3]);
    let hex: String = key.iter().map(|b| format!("{:02x}", b)).collect();
    assert_eq!(hex, "6e5b1dfff31324e344d4b5cfb9837eabe0dcccbb441eb9a55ca80e3a531835e3");
}

const TIME_AUTHORITY: &str = "time.trusted.org";
const TIME_KEY: &[u8] = b"secret_time_signing_key_12345678";

#[test]
fn test_dabe_trusted_timestamp_valid() {
    let now = current_timestamp();
    let condition = TimeCondition::between(now - 3600, now + 3600);
    let trusted_ts = TrustedTimestamp::new(now, TIME_AUTHORITY, TIME_KEY);
    let t = reencryption_time_now(Some(TIME_AUTHORITY), Some(TIME_KEY), Some(&trusted_ts), &condition).unwrap();
    assert_eq!(t, now);
}

#[test]
fn test_dabe_trusted_timestamp_required_but_missing() {
    let condition = TimeCondition::always();
    let result = reencryption_time_now(Some(TIME_AUTHORITY), Some(TIME_KEY), None, &condition);
    assert!(result.is_err());
}

#[test]
fn test_dabe_trusted_timestamp_invalid_signature() {
    let wrong_key: &[u8] = b"wrong_time_signing_key_123456789";
    let now = current_timestamp();
    let condition = TimeCondition::always();
    let bad_ts = TrustedTimestamp::new(now, TIME_AUTHORITY, wrong_key);
    let result = reencryption_time_now(Some(TIME_AUTHORITY), Some(TIME_KEY), Some(&bad_ts), &condition);
    assert!(result.is_err());
}

#[test]
fn test_dabe_trusted_timestamp_wrong_authority() {
    let now = current_timestamp();
    let condition = TimeCondition::always();
    let bad_ts = TrustedTimestamp::new(now, "evil.time.org", TIME_KEY);
    let result = reencryption_time_now(Some(TIME_AUTHORITY), Some(TIME_KEY), Some(&bad_ts), &condition);
    assert!(result.is_err());
}

#[test]
fn test_dabe_trusted_timestamp_expired() {
    let now = current_timestamp();
    let condition = TimeCondition::from(now + 3600);
    let trusted_ts = TrustedTimestamp::new(now, TIME_AUTHORITY, TIME_KEY);
    let result = reencryption_time_now(Some(TIME_AUTHORITY), Some(TIME_KEY), Some(&trusted_ts), &condition);
    assert!(result.is_err());
}

/// Key material standing for a real component: the attribute's name.
fn name_material(a: &TimedAttribute) -> String {
    a.name.clone()
}

#[test]
fn test_keygen_with_timed_attrs() {
    let now = current_timestamp();
    let attrs = vec![TimedAttribute::new("admin", now, now + 3600), TimedAttribute::forever("developer")];

    let sk = expiring_keygen(1u8, 2u8, "alice", &attrs, name_material).unwrap();

    assert_eq!(sk.user_id, "alice");
    assert_eq!(sk.attributes.len(), 2);
    assert!(sk.is_attribute_valid("admin", now));
    assert_eq!(sk.attributes[1].1.key, "developer");
    assert!(sk.issued_at >= now);
}

#[test]
fn test_mixed_validity() {
    let now = current_timestamp();
    let attrs = vec![
        TimedAttribute::new("admin", now, now + 3600),
        TimedAttribute::new("finance", now - 7200, now - 3600),
    ];
    let sk = expiring_keygen(1u8, 2u8, "alice", &attrs, name_material).unwrap();

    let valid = sk.valid_attributes_at(now);
    assert_eq!(valid.len(), 1);
    assert!(valid.contains(&"admin".to_string()));
}

#[test]
fn test_apply_renewal() {
    let now = current_timestamp();
    let attrs = vec![TimedAttribute::new("admin", now, now + 3600)];
    let mut sk = expiring_keygen(1u8, 2u8, "alice", &attrs, name_material).unwrap();

    apply_renewal(&mut sk, "admin", now + 7200).unwrap();

    assert!(sk.is_attribute_valid("admin", now + 5000));
}

#[test]
fn test_earliest_expiration() {
    let now = current_timestamp();
    let attrs = vec![TimedAttribute::new("admin", now, now + 3600), TimedAttribute::new("developer", now, now + 7200)];
    let sk = expiring_keygen(1u8, 2u8, "alice", &attrs, name_material).unwrap();

    assert_eq!(sk.earliest_expiration(), Some(now + 3600));
}

#[test]
fn test_keygen_simple() {
    let sk = expiring_keygen_simple(1u8, 2u8, "alice", &["admin", "hr"], name_material).unwrap();

    let far_future = current_timestamp() + 1_000_000_000;
    assert!(sk.is_attribute_valid("admin", far_future));
    assert!(sk.is_attribute_valid("hr", far_future));
}

#[test]
fn keygen_later_window_replaces_earlier() {
    let attrs = vec![
        TimedAttribute::new("a", 0, 10),
        TimedAttribute::new("b", 0, 20),
        TimedAttribute::new("a", 5, 50),
    ];
    let sk = expiring_keygen((), (), "u", &attrs, |t: &TimedAttribute| t.valid_until).unwrap();
    assert_eq!(sk.attributes.len(), 2);
    assert_eq!(sk.attributes[0].0, "a");
    assert_eq!((sk.attributes[0].1.valid_from, sk.attributes[0].1.valid_until), (5, 50));
    assert_eq!(sk.attributes[0].1.key, 50);
    assert_eq!(sk.attributes[1].0, "b");
}

/// Key material standing for a real component: the attribute's length.
fn length_material(a: &String) -> usize {
    a.len()
}

#[test]
fn test_keygen_has_identity_attrs() {
    let sk = identity_keygen(0u8, 0u8, "alice", &["admin"], length_material).unwrap();

    assert!(sk.all_attributes.contains(&"USER_alice".to_string()));
    assert!(sk.all_attributes.contains(&"NOT_REVOKED_alice".to_string()));
    assert!(sk.all_attributes.contains(&"admin".to_string()));
    assert!(sk.kx.iter().any(|e| e.0 == "NOT_REVOKED_alice"));
    assert_eq!(sk.user_attributes, vec!["admin".to_string()]);
    assert_eq!(sk.kx.len(), 3);
    assert_eq!(sk.kx[1], ("NOT_REVOKED_alice".to_string(), 17));
}

#[test]
fn test_keygen_revoked() {
    let sk = keygen_revoked(0u8, 0u8, "alice", &["admin"], length_material).unwrap();

    assert!(sk.kx.iter().any(|e| e.0 == "USER_alice"));
    assert!(!sk.kx.iter().any(|e| e.0 == "NOT_REVOKED_alice"));

    // A ciphertext that lists alice as revoked refuses her key.
    let mut revoked = RevocationSet::new();
    revoked.revoke("alice");
    assert!(check_not_revoked(&revoked.revoked_users(), &sk.user_id).is_err());
}

#[test]
fn keygen_repeated_attribute_is_kept_once() {
    let sk = identity_keygen((), (), "bob", &["x", "y", "x"], length_material).unwrap();
    let names: Vec<&str> = sk.kx.iter().map(|e| e.0.as_str()).collect();
    assert_eq!(names, vec!["USER_bob", "NOT_REVOKED_bob", "x", "y"]);
    assert_eq!(sk.all_attributes.len(), 5);
}

#[test]
fn expiring_key_decryption_checks() {
    let attrs = vec![TimedAttribute::new("a", 0, 10), TimedAttribute::new("b", 0, 100)];
    let sk = expiring_keygen((), (), "u", &attrs, |t: &TimedAttribute| t.valid_until).unwrap();
    let both = PolicyNode::And(vec![PolicyNode::Attr("a".to_string()), PolicyNode::Attr("b".to_string())]);
    assert!(expiring_can_decrypt(&sk, &both, 5));
    assert!(!expiring_can_decrypt(&sk, &both, 50));
    let either = PolicyNode::Or(vec![PolicyNode::Attr("a".to_string()), PolicyNode::Attr("b".to_string())]);
    assert!(expiring_can_decrypt(&sk, &either, 50));
    assert!(!expiring_can_decrypt(&sk, &either, 500));
    let ct = vec!["a".to_string(), "b".to_string()];
    let c = decryption_coefficients(&sk, &both, 5, &ct).unwrap();
    assert_eq!(c.get("a"), Some(Fr::from_u64(2)));
    assert_eq!(c.get("b"), Some(Fr::zero().sub(&Fr::one())));
    match decryption_coefficients(&sk, &both, 500, &ct) {
        Err(AbeError::DecryptError(m)) => assert_eq!(m, "No attributes valid at time 500"),
        other => panic!("unexpected {:?}", other.is_ok()),
    }
    assert!(matches!(decryption_coefficients(&sk, &both, 50, &ct), Err(AbeError::PolicyNotSatisfied)));
    match decryption_coefficients(&sk, &both, 5, &["a".to_string()]) {
        Err(AbeError::DecryptError(m)) => assert_eq!(m, "Missing ciphertext component"),
        other => panic!("unexpected {:?}", other.is_ok()),
    }
}

#[test]
fn minimal_authority_sets_minimize_and_gates() {
    let policy = PolicyNode::And(vec![
        PolicyNode::Or(vec![PolicyNode::Attr("a1:x".to_string()), PolicyNode::Attr("a2:y".to_string())]),
        PolicyNode::Or(vec![PolicyNode::Attr("a1:z".to_string()), PolicyNode::Attr("a2:w".to_string())]),
    ]);
    let sets = find_minimal_authority_sets(&policy);
    let mut members: Vec<Vec<String>> = sets.iter().map(|s| s.members()).collect();
    for m in members.iter_mut() {
        m.sort();
    }
    members.sort();
    assert_eq!(members, vec![vec!["a1".to_string()], vec!["a2".to_string()]]);
}

#[test]
fn minimize_sets_keeps_order_of_first_appearance() {
    let sets = vec![set_of(&["b"]), set_of(&["a", "b"]), set_of(&["a"]), set_of(&["b"]), set_of(&["a", "c"])];
    let min = minimize_sets(sets);
    assert_eq!(min.len(), 2);
    assert!(min[0].same_as(&set_of(&["b"])));
    assert!(min[1].same_as(&set_of(&["a"])));
}

#[test]
fn timestamp_signature_is_a_digest() {
    let ts = TrustedTimestamp::new(42, "auth", b"k");
    assert_eq!(ts.signature.len(), 32);
    assert_eq!(ts.nonce[0], 42);
    assert!(ts.nonce[8..].iter().all(|b| *b == 0));
}

#[test]
fn revoking_counts_new_users_only() {
    let mut rs = RevocationSet::new();
    rs.revoke("carol");
    assert_eq!(rs.len(), 1);
    rs.revoke("carol");
    assert_eq!(rs.len(), 1);
    rs.revoke("dave");
    assert_eq!(rs.len(), 2);
    rs.unrevoke("erin");
    assert_eq!(rs.len(), 2);
}
