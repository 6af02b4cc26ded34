//! Hidden policies: attributes are known to decryptors only through
//! pseudonymous identifiers, and a ciphertext may publish its policy fully
//! hidden, with only its structure, or with some attributes blanked out.

use vstd::prelude::*;
use vstd::utf8::encode_utf8;
use crate::lsss::PolicyNode;
use crate::lsss::Policy;
use crate::lsss::attrs_view;
use crate::lsss::contains_attr;
use crate::lsss::leaf_count_all;
use crate::lsss::lemma_leaf_count_prefix;
use crate::lsss::policy_views;
use crate::lsss::lemma_views_map;
use crate::text::decimal;
use crate::text::join;
use crate::text::names;
use crate::text::push_decimal;
use crate::text::push_joined;
use crate::hash::sha256;
use crate::hash::sha256_digest;
use crate::text::bytes_eq;
use crate::text::push_bytes;

verus! {

/// How much of a policy a ciphertext publishes.
#[derive(Clone, Debug, PartialEq)]
pub enum PolicyVisibility {
    /// Nothing: the policy is fully hidden.
    FullyHidden,
    /// The gates, with every attribute replaced by a placeholder.
    StructureVisible,
    /// Everything but the listed attributes.
    PartiallyHidden(Vec<String>),
}

/// The text of a gate over the texts of its children: `AND(..)`, `OR(..)`,
/// or `k-of-n(..)`, children separated by commas.
pub open spec fn gate_text(p: Policy, parts: Seq<Seq<char>>) -> Seq<char> {
    match p {
        Policy::And(_) => "AND("@ + join(parts, ", "@) + ")"@,
        Policy::Or(_) => "OR("@ + join(parts, ", "@) + ")"@,
        Policy::Threshold(k, cs) => decimal(k) + "-of-"@ + decimal(cs.len()) + "("@ + join(parts, ", "@) + ")"@,
        Policy::Attr(a) => a,
    }
}

/// The policy with its attributes replaced by `ATTR_1`, `ATTR_2`, ... in
/// leaf order, numbering from `start + 1`.
pub open spec fn anonymized(p: Policy, start: nat) -> Seq<char>
    decreases p,
{
    match p {
        Policy::Attr(_) => "ATTR_"@ + decimal(start + 1),
        Policy::And(cs) => gate_text(p, anonymized_all(cs, start)),
        Policy::Or(cs) => gate_text(p, anonymized_all(cs, start)),
        Policy::Threshold(_, cs) => gate_text(p, anonymized_all(cs, start)),
    }
}

/// The anonymized texts of a list of policies, numbering on across them.
pub open spec fn anonymized_all(cs: Seq<Policy>, start: nat) -> Seq<Seq<char>>
    decreases cs,
{
    if cs.len() == 0 {
        Seq::empty()
    } else {
        anonymized_all(cs.drop_last(), start).push(anonymized(cs.last(), start + leaf_count_all(cs.drop_last())))
    }
}

/// Whether two policies have the same gates, thresholds and arities
/// everywhere, whatever their attributes.
pub open spec fn same_shape(p: Policy, q: Policy) -> bool
    decreases p,
{
    match p {
        Policy::Attr(_) => q is Attr,
        Policy::And(a) => match q {
            Policy::And(b) => same_shape_all(a, b),
            _ => false,
        },
        Policy::Or(a) => match q {
            Policy::Or(b) => same_shape_all(a, b),
            _ => false,
        },
        Policy::Threshold(k, a) => match q {
            Policy::Threshold(l, b) => k == l && same_shape_all(a, b),
            _ => false,
        },
    }
}

/// Whether two lists of policies pair off into policies of the same shape.
pub open spec fn same_shape_all(a: Seq<Policy>, b: Seq<Policy>) -> bool
    decreases a,
{
    if a.len() == 0 {
        b.len() == 0
    } else {
        b.len() == a.len() && same_shape_all(a.drop_last(), b.drop_last()) && same_shape(a.last(), b.last())
    }
}

/// Policies of the same shape anonymize alike and have as many leaves.
proof fn lemma_same_shape_anonymized(p: Policy, q: Policy, start: nat)
    requires
        same_shape(p, q),
    ensures
        anonymized(p, start) == anonymized(q, start),
        p.leaf_count() == q.leaf_count(),
    decreases p,
{
    match p {
        Policy::Attr(_) => {},
        Policy::And(a) => {
            if let Policy::And(b) = q {
                lemma_same_shape_anonymized_all(a, b, start);
            }
        },
        Policy::Or(a) => {
            if let Policy::Or(b) = q {
                lemma_same_shape_anonymized_all(a, b, start);
            }
        },
        Policy::Threshold(_, a) => {
            if let Policy::Threshold(_, b) = q {
                lemma_same_shape_anonymized_all(a, b, start);
            }
        },
    }
}

/// Lists of policies of the same shape anonymize alike and have as many
/// leaves.
proof fn lemma_same_shape_anonymized_all(a: Seq<Policy>, b: Seq<Policy>, start: nat)
    requires
        same_shape_all(a, b),
    ensures
        a.len() == b.len(),
        anonymized_all(a, start) == anonymized_all(b, start),
        leaf_count_all(a) == leaf_count_all(b),
    decreases a,
{
    if a.len() > 0 {
        lemma_same_shape_anonymized_all(a.drop_last(), b.drop_last(), start);
        lemma_same_shape_anonymized(a.last(), b.last(), start + leaf_count_all(a.drop_last()));
    }
}

/// Publishing only a policy's structure reveals nothing of its attributes:
/// two policies with the same gates, thresholds and arities publish the
/// same text.
pub proof fn lemma_structure_hides_attributes(p: Policy, q: Policy)
    requires
        same_shape(p, q),
    ensures
        anonymized(p, 0) == anonymized(q, 0),
{
    lemma_same_shape_anonymized(p, q, 0);
}

/// The policy with the attributes in `hidden` replaced by `[HIDDEN]`.
pub open spec fn partially_hidden(p: Policy, hidden: Seq<Seq<char>>) -> Seq<char>
    decreases p,
{
    match p {
        Policy::Attr(a) => if hidden.contains(a) {
            "[HIDDEN]"@
        } else {
            a
        },
        Policy::And(cs) => gate_text(p, partially_hidden_all(cs, hidden)),
        Policy::Or(cs) => gate_text(p, partially_hidden_all(cs, hidden)),
        Policy::Threshold(_, cs) => gate_text(p, partially_hidden_all(cs, hidden)),
    }
}

/// The partially hidden texts of a list of policies.
pub open spec fn partially_hidden_all(cs: Seq<Policy>, hidden: Seq<Seq<char>>) -> Seq<Seq<char>>
    decreases cs,
{
    if cs.len() == 0 {
        Seq::empty()
    } else {
        partially_hidden_all(cs.drop_last(), hidden).push(partially_hidden(cs.last(), hidden))
    }
}

/// Writes the text of a gate over the given child texts.
fn write_gate(policy: &PolicyNode, parts: &Vec<String>) -> (r: String)
    requires
        !(policy is Attr),
    ensures
        r@ == gate_text(policy@, names(parts@)),
{
    assert(parts@.map_values(|p: String| p@) =~= names(parts@));
    match policy {
        PolicyNode::And(_) => {
            let mut s = String::from_str("AND(");
            push_joined(&mut s, parts, ", ");
            s.append(")");
            s
        },
        PolicyNode::Or(_) => {
            let mut s = String::from_str("OR(");
            push_joined(&mut s, parts, ", ");
            s.append(")");
            s
        },
        PolicyNode::Threshold(k, children) => {
            let mut s = String::new();
            push_decimal(&mut s, *k as u64);
            s.append("-of-");
            push_decimal(&mut s, children.len() as u64);
            s.append("(");
            push_joined(&mut s, parts, ", ");
            s.append(")");
            proof {
                lemma_views_map(children@);
            }
            s
        },
        PolicyNode::Attr(_) => String::new(),
    }
}

/// The policy with its attributes replaced by numbered placeholders.
pub fn anonymize_policy(policy: &PolicyNode) -> (r: String)
    requires
        policy@.leaf_count() <= usize::MAX,
    ensures
        r@ == anonymized(policy@, 0),
{
    let mut counter: usize = 0;
    anonymize_policy_recursive(policy, &mut counter)
}

/// The policy with its attributes replaced by placeholders numbered on from
/// `counter`, which is advanced past them.
pub fn anonymize_policy_recursive(policy: &PolicyNode, counter: &mut usize) -> (r: String)
    requires
        *old(counter) + policy@.leaf_count() <= usize::MAX,
    ensures
        r@ == anonymized(policy@, *old(counter) as nat),
        *final(counter) == *old(counter) + policy@.leaf_count(),
    decreases policy,
{
    match policy {
        PolicyNode::Attr(_) => {
            *counter = *counter + 1;
            let mut s = String::from_str("ATTR_");
            push_decimal(&mut s, *counter as u64);
            s
        },
        PolicyNode::And(children) => {
            let parts = anonymize_children(children, counter);
            write_gate(policy, &parts)
        },
        PolicyNode::Or(children) => {
            let parts = anonymize_children(children, counter);
            write_gate(policy, &parts)
        },
        PolicyNode::Threshold(_, children) => {
            let parts = anonymize_children(children, counter);
            write_gate(policy, &parts)
        },
    }
}

/// The anonymized texts of the children, numbering on from `counter`.
fn anonymize_children(cs: &Vec<PolicyNode>, counter: &mut usize) -> (r: Vec<String>)
    requires
        *old(counter) + leaf_count_all(policy_views(cs@)) <= usize::MAX,
    ensures
        names(r@) == anonymized_all(policy_views(cs@), *old(counter) as nat),
        *final(counter) == *old(counter) + leaf_count_all(policy_views(cs@)),
    decreases cs,
{
    let ghost vs = policy_views(cs@);
    let ghost start = *counter as nat;
    proof {
        lemma_views_map(cs@);
        assert(vs.take(0) =~= Seq::<Policy>::empty());
    }
    let mut parts: Vec<String> = Vec::new();
    let mut i: usize = 0;
    while i < cs.len()
        invariant
            vs == policy_views(cs@),
            vs == cs@.map_values(|p: PolicyNode| crate::lsss::policy_view(p)),
            start + leaf_count_all(vs) <= usize::MAX,
            i <= cs@.len(),
            *counter == start + leaf_count_all(vs.take(i as int)),
            names(parts@) == anonymized_all(vs.take(i as int), start),
        decreases cs@.len() - i,
    {
        proof {
            assert(vs.take(i + 1).drop_last() =~= vs.take(i as int));
            assert(vs.take(i + 1).last() == cs@[i as int]@);
            lemma_leaf_count_prefix(vs, i + 1);
        }
        let part = anonymize_policy_recursive(&cs[i], counter);
        let ghost before = parts@;
        parts.push(part);
        assert(names(parts@) =~= names(before).push(part@));
        i = i + 1;
    }
    assert(vs.take(cs@.len() as int) =~= vs);
    parts
}

/// The policy with the attributes in `hidden` replaced by `[HIDDEN]`.
pub fn partial_anonymize_policy(policy: &PolicyNode, hidden: &[String]) -> (r: String)
    ensures
        r@ == partially_hidden(policy@, attrs_view(hidden@)),
{
    partial_anonymize_recursive(policy, hidden)
}

/// The policy with the attributes in `hidden` replaced by `[HIDDEN]`.
pub fn partial_anonymize_recursive(policy: &PolicyNode, hidden: &[String]) -> (r: String)
    ensures
        r@ == partially_hidden(policy@, attrs_view(hidden@)),
    decreases policy,
{
    match policy {
        PolicyNode::Attr(name) => {
            if contains_attr(hidden, name.as_str()) {
                String::from_str("[HIDDEN]")
            } else {
                name.clone()
            }
        },
        PolicyNode::And(children) => {
            let parts = partial_children(children, hidden);
            write_gate(policy, &parts)
        },
        PolicyNode::Or(children) => {
            let parts = partial_children(children, hidden);
            write_gate(policy, &parts)
        },
        PolicyNode::Threshold(_, children) => {
            let parts = partial_children(children, hidden);
            write_gate(policy, &parts)
        },
    }
}

/// The partially hidden texts of the children.
fn partial_children(cs: &Vec<PolicyNode>, hidden: &[String]) -> (r: Vec<String>)
    ensures
        names(r@) == partially_hidden_all(policy_views(cs@), attrs_view(hidden@)),
    decreases cs,
{
    let ghost vs = policy_views(cs@);
    let ghost h = attrs_view(hidden@);
    proof {
        lemma_views_map(cs@);
        assert(vs.take(0) =~= Seq::<Policy>::empty());
    }
    let mut parts: Vec<String> = Vec::new();
    let mut i: usize = 0;
    while i < cs.len()
        invariant
            vs == policy_views(cs@),
            vs == cs@.map_values(|p: PolicyNode| crate::lsss::policy_view(p)),
            h == attrs_view(hidden@),
            i <= cs@.len(),
            names(parts@) == partially_hidden_all(vs.take(i as int), h),
        decreases cs@.len() - i,
    {
        proof {
            assert(vs.take(i + 1).drop_last() =~= vs.take(i as int));
            assert(vs.take(i + 1).last() == cs@[i as int]@);
        }
        let part = partial_anonymize_recursive(&cs[i], hidden);
        let ghost before = parts@;
        parts.push(part);
        assert(names(parts@) =~= names(before).push(part@));
        i = i + 1;
    }
    assert(vs.take(cs@.len() as int) =~= vs);
    parts
}

/// The policy text a ciphertext publishes under each visibility: nothing,
/// the anonymized structure, or the policy with the listed attributes
/// blanked out.
pub fn visible_policy(policy: &PolicyNode, visibility: &PolicyVisibility) -> (r: Option<String>)
    requires
        policy@.leaf_count() <= usize::MAX,
    ensures
        match visibility {
            PolicyVisibility::FullyHidden => r is None,
            PolicyVisibility::StructureVisible => r matches Some(t) && t@ == anonymized(policy@, 0),
            PolicyVisibility::PartiallyHidden(hidden) => r matches Some(t) && t@ == partially_hidden(
                policy@,
                attrs_view(hidden@),
            ),
        },
{
    match visibility {
        PolicyVisibility::FullyHidden => None,
        PolicyVisibility::StructureVisible => Some(anonymize_policy(policy)),
        PolicyVisibility::PartiallyHidden(hidden) => Some(partial_anonymize_policy(policy, hidden.as_slice())),
    }
}

/// The bytes an attribute's pseudonymous identifier is the hash of: a
/// domain tag, then the attribute.
pub open spec fn attribute_id_input(attr: Seq<char>) -> Seq<u8> {
    encode_utf8("HIDDEN_ATTR_ID"@) + encode_utf8(attr)
}

/// The pseudonymous identifier of an attribute: the SHA-256 digest of the
/// tagged attribute.
pub fn compute_attribute_id(attr: &str) -> (r: Vec<u8>)
    ensures
        r@ == sha256_digest(attribute_id_input(attr@)),
        r@.len() == 32,
{
    let mut msg: Vec<u8> = Vec::new();
    let tag = "HIDDEN_ATTR_ID".as_bytes();
    let body = attr.as_bytes();
    let mut i: usize = 0;
    while i < tag.len()
        invariant
            i <= tag@.len(),
            msg@ == tag@.take(i as int),
        decreases tag@.len() - i,
    {
        msg.push(tag[i]);
        i = i + 1;
        assert(msg@ =~= tag@.take(i as int));
    }
    let mut j: usize = 0;
    while j < body.len()
        invariant
            j <= body@.len(),
            msg@ == tag@ + body@.take(j as int),
        decreases body@.len() - j,
    {
        msg.push(body[j]);
        j = j + 1;
        assert(msg@ =~= tag@ + body@.take(j as int));
    }
    assert(msg@ =~= attribute_id_input(attr@));
    sha256(msg.as_slice())
}

/// The bytes a policy key is the hash of: a domain tag, then the encoding
/// of the target-group element it is derived from.
pub open spec fn policy_key_input(gt_bytes: Seq<u8>) -> Seq<u8> {
    encode_utf8("HIDDEN_POLICY_KEY"@) + gt_bytes
}

/// The key that protects a hidden policy, derived from a target-group
/// element given by its encoding: the SHA-256 digest of the tagged
/// encoding.
pub fn derive_policy_key(gt_bytes: &[u8]) -> (r: Vec<u8>)
    ensures
        r@ == sha256_digest(policy_key_input(gt_bytes@)),
        r@.len() == 32,
{
    let mut msg: Vec<u8> = Vec::new();
    push_bytes(&mut msg, "HIDDEN_POLICY_KEY".as_bytes());
    push_bytes(&mut msg, gt_bytes);
    assert(msg@ =~= policy_key_input(gt_bytes@));
    sha256(msg.as_slice())
}

/// Whether some attribute of the key has the identifier of some component
/// of the ciphertext.
pub open spec fn shares_an_attribute(key_attributes: Seq<String>, component_ids: Seq<Vec<u8>>) -> bool {
    exists|i: int, j: int|
        #![trigger component_ids[i], key_attributes[j]]
        0 <= i < component_ids.len() && 0 <= j < key_attributes.len() && sha256_digest(attribute_id_input(key_attributes[j]@))
            == component_ids[i]@
}

/// Whether a key might decrypt a ciphertext: whether the identifier of one
/// of the key's attributes is that of one of the ciphertext's components.
/// The key is given by its attributes, the ciphertext by its components'
/// identifiers.
pub fn can_potentially_decrypt(key_attributes: &Vec<String>, component_ids: &Vec<Vec<u8>>) -> (b: bool)
    ensures
        b == shares_an_attribute(key_attributes@, component_ids@),
{
    let mut key_ids: Vec<Vec<u8>> = Vec::new();
    let mut j: usize = 0;
    while j < key_attributes.len()
        invariant
            j <= key_attributes@.len(),
            key_ids@.len() == j,
            forall|k: int| 0 <= k < j ==> (#[trigger] key_ids@[k])@ == sha256_digest(attribute_id_input(key_attributes@[k]@)),
        decreases key_attributes@.len() - j,
    {
        key_ids.push(compute_attribute_id(key_attributes[j].as_str()));
        j = j + 1;
    }
    let mut i: usize = 0;
    while i < component_ids.len()
        invariant
            i <= component_ids@.len(),
            key_ids@.len() == key_attributes@.len(),
            forall|k: int| 0 <= k < key_ids@.len() ==> (#[trigger] key_ids@[k])@ == sha256_digest(attribute_id_input(key_attributes@[k]@)),
            forall|a: int, k: int|
                #![trigger component_ids@[a], key_attributes@[k]]
                0 <= a < i && 0 <= k < key_attributes@.len() ==> sha256_digest(attribute_id_input(key_attributes@[k]@)) != component_ids@[a]@,
        decreases component_ids@.len() - i,
    {
        let mut k: usize = 0;
        while k < key_ids.len()
            invariant
                i < component_ids@.len(),
                k <= key_ids@.len(),
                key_ids@.len() == key_attributes@.len(),
                forall|m: int| 0 <= m < key_ids@.len() ==> (#[trigger] key_ids@[m])@ == sha256_digest(attribute_id_input(key_attributes@[m]@)),
                forall|m: int| 0 <= m < k ==> sha256_digest(attribute_id_input(key_attributes@[m]@)) != component_ids@[i as int]@,
            decreases key_ids@.len() - k,
        {
            if bytes_eq(key_ids[k].as_slice(), component_ids[i].as_slice()) {
                assert(sha256_digest(attribute_id_input(key_attributes@[k as int]@)) == component_ids@[i as int]@);
                return true;
            }
            k = k + 1;
        }
        i = i + 1;
    }
    false
}

/// A key one of whose attributes, any one, has the identifier of one of
/// the ciphertext's components, any one, may decrypt it.
pub proof fn lemma_matching_attribute_suffices(key_attributes: Seq<String>, component_ids: Seq<Vec<u8>>, i: int, j: int)
    requires
        0 <= i < component_ids.len(),
        0 <= j < key_attributes.len(),
        sha256_digest(attribute_id_input(key_attributes[j]@)) == component_ids[i]@,
    ensures
        shares_an_attribute(key_attributes, component_ids),
{
    assert(component_ids[i] == component_ids[i] && key_attributes[j] == key_attributes[j]);
}

/// A key none of whose attributes has the identifier of any component may
/// not decrypt.
pub proof fn lemma_no_matching_attribute(key_attributes: Seq<String>, component_ids: Seq<Vec<u8>>)
    requires
        forall|i: int, j: int| 0 <= i < component_ids.len() && 0 <= j < key_attributes.len() ==>
            sha256_digest(attribute_id_input(#[trigger] key_attributes[j]@)) != (#[trigger] component_ids[i])@,
    ensures
        !shares_an_attribute(key_attributes, component_ids),
{
}

/// Whether a key may decrypt depends only on which attributes it holds and
/// which components the ciphertext carries, not on their order.
pub proof fn lemma_potential_decryption_ignores_order(
    k1: Seq<String>,
    k2: Seq<String>,
    c1: Seq<Vec<u8>>,
    c2: Seq<Vec<u8>>,
)
    requires
        k1.to_multiset() == k2.to_multiset(),
        c1.to_multiset() == c2.to_multiset(),
    ensures
        shares_an_attribute(k1, c1) == shares_an_attribute(k2, c2),
{
    lemma_shared_moves(k1, k2, c1, c2);
    lemma_shared_moves(k2, k1, c2, c1);
}

proof fn lemma_shared_moves(k1: Seq<String>, k2: Seq<String>, c1: Seq<Vec<u8>>, c2: Seq<Vec<u8>>)
    requires
        k1.to_multiset() == k2.to_multiset(),
        c1.to_multiset() == c2.to_multiset(),
    ensures
        shares_an_attribute(k1, c1) ==> shares_an_attribute(k2, c2),
{
    broadcast use vstd::seq_lib::group_to_multiset_ensures;

    if shares_an_attribute(k1, c1) {
        let (i, j) = choose|i: int, j: int|
            #![trigger c1[i], k1[j]]
            0 <= i < c1.len() && 0 <= j < k1.len() && sha256_digest(attribute_id_input(k1[j]@)) == c1[i]@;
        assert(c1.contains(c1[i]) && k1.contains(k1[j]));
        assert(c2.to_multiset().count(c1[i]) > 0 && k2.to_multiset().count(k1[j]) > 0);
        assert(c2.contains(c1[i]) && k2.contains(k1[j]));
        let a = choose|a: int| 0 <= a < c2.len() && c2[a] == c1[i];
        let b = choose|b: int| 0 <= b < k2.len() && k2[b] == k1[j];
        lemma_matching_attribute_suffices(k2, c2, a, b);
    }
}

/// Whether two policies have the same gates, thresholds and arities and,
/// leaf by leaf, the same attribute or two attributes both in `hidden`.
pub open spec fn differ_in_hidden(p: Policy, q: Policy, hidden: Seq<Seq<char>>) -> bool
    decreases p,
{
    match p {
        Policy::Attr(a) => match q {
            Policy::Attr(b) => a == b || (hidden.contains(a) && hidden.contains(b)),
            _ => false,
        },
        Policy::And(a) => match q {
            Policy::And(b) => differ_in_hidden_all(a, b, hidden),
            _ => false,
        },
        Policy::Or(a) => match q {
            Policy::Or(b) => differ_in_hidden_all(a, b, hidden),
            _ => false,
        },
        Policy::Threshold(k, a) => match q {
            Policy::Threshold(l, b) => k == l && differ_in_hidden_all(a, b, hidden),
            _ => false,
        },
    }
}

/// Whether two lists of policies pair off as `differ_in_hidden` says.
pub open spec fn differ_in_hidden_all(a: Seq<Policy>, b: Seq<Policy>, hidden: Seq<Seq<char>>) -> bool
    decreases a,
{
    if a.len() == 0 {
        b.len() == 0
    } else {
        b.len() == a.len() && differ_in_hidden_all(a.drop_last(), b.drop_last(), hidden) && differ_in_hidden(
            a.last(),
            b.last(),
            hidden,
        )
    }
}

/// Publishing a policy with some attributes hidden reveals nothing of
/// them: two policies that differ only in which hidden attributes stand
/// at their leaves, wherever those attributes occur in the hidden list,
/// publish the same text.
pub proof fn lemma_hidden_attributes_unrevealed(p: Policy, q: Policy, hidden: Seq<Seq<char>>)
    requires
        differ_in_hidden(p, q, hidden),
    ensures
        partially_hidden(p, hidden) == partially_hidden(q, hidden),
    decreases p,
{
    match p {
        Policy::Attr(_) => {},
        Policy::And(a) => {
            if let Policy::And(b) = q {
                lemma_hidden_attributes_unrevealed_all(a, b, hidden);
            }
        },
        Policy::Or(a) => {
            if let Policy::Or(b) = q {
                lemma_hidden_attributes_unrevealed_all(a, b, hidden);
            }
        },
        Policy::Threshold(_, a) => {
            if let Policy::Threshold(_, b) = q {
                lemma_hidden_attributes_unrevealed_all(a, b, hidden);
            }
        },
    }
}

proof fn lemma_hidden_attributes_unrevealed_all(a: Seq<Policy>, b: Seq<Policy>, hidden: Seq<Seq<char>>)
    requires
        differ_in_hidden_all(a, b, hidden),
    ensures
        a.len() == b.len(),
        partially_hidden_all(a, hidden) == partially_hidden_all(b, hidden),
    decreases a,
{
    if a.len() > 0 {
        lemma_hidden_attributes_unrevealed_all(a.drop_last(), b.drop_last(), hidden);
        lemma_hidden_attributes_unrevealed(a.last(), b.last(), hidden);
    }
}

/// What is hidden depends only on which attributes the hidden list holds,
/// not on their order or repetition.
pub proof fn lemma_hidden_list_order_irrelevant(p: Policy, h1: Seq<Seq<char>>, h2: Seq<Seq<char>>)
    requires
        forall|x: Seq<char>| h1.contains(x) <==> h2.contains(x),
    ensures
        partially_hidden(p, h1) == partially_hidden(p, h2),
    decreases p,
{
    match p {
        Policy::Attr(a) => {
            assert(h1.contains(a) == h2.contains(a));
        },
        Policy::And(cs) => lemma_hidden_list_order_irrelevant_all(cs, h1, h2),
        Policy::Or(cs) => lemma_hidden_list_order_irrelevant_all(cs, h1, h2),
        Policy::Threshold(_, cs) => lemma_hidden_list_order_irrelevant_all(cs, h1, h2),
    }
}

proof fn lemma_hidden_list_order_irrelevant_all(cs: Seq<Policy>, h1: Seq<Seq<char>>, h2: Seq<Seq<char>>)
    requires
        forall|x: Seq<char>| h1.contains(x) <==> h2.contains(x),
    ensures
        partially_hidden_all(cs, h1) == partially_hidden_all(cs, h2),
    decreases cs,
{
    if cs.len() > 0 {
        lemma_hidden_list_order_irrelevant_all(cs.drop_last(), h1, h2);
        lemma_hidden_list_order_irrelevant(cs.last(), h1, h2);
    }
}

/// A leaf whose attribute is in the hidden list is published as
/// `[HIDDEN]`, and one whose attribute is not, as its attribute.
pub proof fn lemma_leaf_hidden_exactly_when_listed(a: Seq<char>, hidden: Seq<Seq<char>>, k: int)
    requires
        0 <= k < hidden.len(),
    ensures
        partially_hidden(Policy::Attr(hidden[k]), hidden) == "[HIDDEN]"@,
        !hidden.contains(a) ==> partially_hidden(Policy::Attr(a), hidden) == a,
{
    assert(hidden.contains(hidden[k]));
}

} // verus!
