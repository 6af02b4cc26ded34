//! Access policies and their linear secret sharing matrices.
//!
//! A policy is a tree of attribute leaves and AND / OR / k-of-n gates. Its
//! LSSS matrix has one row per leaf; a set of rows can reconstruct the shared
//! secret exactly when a combination of them equals the first unit vector.

use vstd::prelude::*;
use crate::field::{Fr, modulus, inverse_candidate};
use crate::field::lemma_view_injective;
use crate::error::AbeError;
use vstd::arithmetic::power::pow;
#[allow(unused_imports)]
use vstd::arithmetic::div_mod::*;
use rand::RngCore;
use crate::policy_key::{policy_key, policy_key_of, lemma_policy_key_order, lemma_policy_key_injective};
use crate::text::{str_eq, lex_lt, join, decimal, sort_by_key, keyed_view, sort_keyed, push_joined, push_decimal, push_char, lemma_sort_by_key_map, lemma_sort_by_key_elements, lemma_sort_by_key_idempotent, lemma_sort_by_key_sorted, lemma_sort_by_key_multiset, lemma_map_multiset, lemma_str_order_total, str_order, keys_sorted, lemma_lex_lt_irreflexive};

verus! {

/// Policy node type.
#[derive(Debug, PartialEq)]
pub enum PolicyNode {
    /// Leaf node containing an attribute
    Attr(String),
    /// AND gate (all children must be satisfied) - threshold = n
    And(Vec<PolicyNode>),
    /// OR gate (any child must be satisfied) - threshold = 1
    Or(Vec<PolicyNode>),
    /// Threshold gate: k of n children must be satisfied
    Threshold(usize, Vec<PolicyNode>),
}

/// The mathematical form of a policy: attribute names as character
/// sequences, children as sequences.
pub enum Policy {
    Attr(Seq<char>),
    And(Seq<Policy>),
    Or(Seq<Policy>),
    Threshold(nat, Seq<Policy>),
}

pub open spec fn policy_view(p: PolicyNode) -> Policy
    decreases p,
{
    match p {
        PolicyNode::Attr(a) => Policy::Attr(a@),
        PolicyNode::And(cs) => Policy::And(policy_views(cs@)),
        PolicyNode::Or(cs) => Policy::Or(policy_views(cs@)),
        PolicyNode::Threshold(k, cs) => Policy::Threshold(k as nat, policy_views(cs@)),
    }
}

pub open spec fn policy_views(s: Seq<PolicyNode>) -> Seq<Policy>
    decreases s,
{
    if s.len() == 0 {
        Seq::empty()
    } else {
        policy_views(s.drop_last()).push(policy_view(s.last()))
    }
}

impl View for PolicyNode {
    type V = Policy;

    open spec fn view(&self) -> Policy {
        policy_view(*self)
    }
}

impl Policy {
    /// Number of attribute leaves.
    pub open spec fn leaf_count(self) -> nat
        decreases self,
    {
        match self {
            Policy::Attr(_) => 1,
            Policy::And(cs) => leaf_count_all(cs),
            Policy::Or(cs) => leaf_count_all(cs),
            Policy::Threshold(_, cs) => leaf_count_all(cs),
        }
    }

    /// Attribute names of the leaves, left to right.
    pub open spec fn leaves(self) -> Seq<Seq<char>>
        decreases self,
    {
        match self {
            Policy::Attr(a) => seq![a],
            Policy::And(cs) => leaves_all(cs),
            Policy::Or(cs) => leaves_all(cs),
            Policy::Threshold(_, cs) => leaves_all(cs),
        }
    }

    /// Canonical text: children rendered, sorted, and joined per gate.
    pub open spec fn canonical_string(self) -> Seq<char>
        decreases self,
    {
        match self {
            Policy::Attr(a) => a,
            Policy::And(cs) => seq!['('] + join(sort_strings(canonical_strings(cs)), " and "@)
                + seq![')'],
            Policy::Or(cs) => seq!['('] + join(sort_strings(canonical_strings(cs)), " or "@)
                + seq![')'],
            Policy::Threshold(k, cs) => seq!['('] + decimal(k) + " of "@
                + join(sort_strings(canonical_strings(cs)), ", "@) + seq![')'],
        }
    }

    /// The same policy with every gate's children canonicalized and then
    /// sorted by their canonical text, ties broken by their structure.
    pub open spec fn canonical(self) -> Policy
        decreases self,
    {
        match self {
            Policy::Attr(a) => Policy::Attr(a),
            Policy::And(cs) => Policy::And(sort_policies(canonical_all(cs))),
            Policy::Or(cs) => Policy::Or(sort_policies(canonical_all(cs))),
            Policy::Threshold(k, cs) => Policy::Threshold(k, sort_policies(canonical_all(cs))),
        }
    }

    /// Every gate has a threshold between 1 and its number of children
    /// (an AND gate needs all children, an OR gate one).
    pub open spec fn well_formed(self) -> bool
        decreases self,
    {
        match self {
            Policy::Attr(_) => true,
            Policy::And(cs) => cs.len() >= 1 && well_formed_all(cs),
            Policy::Or(cs) => cs.len() >= 1 && well_formed_all(cs),
            Policy::Threshold(k, cs) => 1 <= k <= cs.len() && well_formed_all(cs),
        }
    }
}

pub open spec fn leaf_count_all(cs: Seq<Policy>) -> nat
    decreases cs,
{
    if cs.len() == 0 {
        0
    } else {
        leaf_count_all(cs.drop_last()) + cs.last().leaf_count()
    }
}

pub open spec fn leaves_all(cs: Seq<Policy>) -> Seq<Seq<char>>
    decreases cs,
{
    if cs.len() == 0 {
        Seq::empty()
    } else {
        leaves_all(cs.drop_last()) + cs.last().leaves()
    }
}

pub open spec fn canonical_strings(cs: Seq<Policy>) -> Seq<Seq<char>>
    decreases cs,
{
    if cs.len() == 0 {
        Seq::empty()
    } else {
        canonical_strings(cs.drop_last()).push(cs.last().canonical_string())
    }
}

pub open spec fn canonical_all(cs: Seq<Policy>) -> Seq<Policy>
    decreases cs,
{
    if cs.len() == 0 {
        Seq::empty()
    } else {
        canonical_all(cs.drop_last()).push(cs.last().canonical())
    }
}

pub open spec fn well_formed_all(cs: Seq<Policy>) -> bool
    decreases cs,
{
    if cs.len() == 0 {
        true
    } else {
        well_formed_all(cs.drop_last()) && cs.last().well_formed()
    }
}

/// Strings in string order.
pub open spec fn sort_strings(ss: Seq<Seq<char>>) -> Seq<Seq<char>> {
    sort_by_key(ss.map_values(|s: Seq<char>| (s, ()))).map_values(|p: (Seq<char>, ())| p.0)
}

/// Policies sorted by their canonical text, and those with the same
/// canonical text by their structure (the order of `policy_key`).
pub open spec fn sort_policies(ps: Seq<Policy>) -> Seq<Policy> {
    sort_by_key(ps.map_values(|q: Policy| (policy_key(q), q))).map_values(
        |p: (Seq<char>, Policy)| p.1,
    )
}

/// A deep copy of a policy.
fn copy_policy(p: &PolicyNode) -> (r: PolicyNode)
    ensures
        r@ == p@,
    decreases p,
{
    match p {
        PolicyNode::Attr(a) => PolicyNode::Attr(a.clone()),
        PolicyNode::And(cs) => PolicyNode::And(copy_children(cs)),
        PolicyNode::Or(cs) => PolicyNode::Or(copy_children(cs)),
        PolicyNode::Threshold(k, cs) => PolicyNode::Threshold(*k, copy_children(cs)),
    }
}

fn copy_children(cs: &Vec<PolicyNode>) -> (r: Vec<PolicyNode>)
    ensures
        policy_views(r@) == policy_views(cs@),
    decreases cs,
{
    let mut out: Vec<PolicyNode> = Vec::new();
    let mut i: usize = 0;
    while i < cs.len()
        invariant
            i <= cs.len(),
            policy_views(out@) == policy_views(cs@.take(i as int)),
        decreases cs.len() - i,
    {
        let c = copy_policy(&cs[i]);
        let ghost prev = out@;
        out.push(c);
        proof {
            assert(out@.drop_last() =~= prev);
            assert(cs@.take(i + 1).drop_last() =~= cs@.take(i as int));
        }
        i = i + 1;
    }
    assert(cs@.take(cs.len() as int) =~= cs@);
    out
}

impl Clone for PolicyNode {
    fn clone(&self) -> (r: Self)
        ensures
            r@ == self@,
    {
        copy_policy(self)
    }
}

/// The views of a prefix grow by the view of the next child.
pub proof fn lemma_views_take(cs: Seq<PolicyNode>, i: int)
    requires
        0 <= i < cs.len(),
    ensures
        policy_views(cs.take(i + 1)) == policy_views(cs.take(i)).push(policy_view(cs[i])),
        policy_views(cs.take(i + 1)).len() == i + 1,
{
    assert(cs.take(i + 1).drop_last() =~= cs.take(i));
    lemma_views_len(cs.take(i + 1));
}

pub proof fn lemma_views_len(cs: Seq<PolicyNode>)
    ensures
        policy_views(cs).len() == cs.len(),
    decreases cs.len(),
{
    if cs.len() > 0 {
        lemma_views_len(cs.drop_last());
    }
}

pub proof fn lemma_views_index(cs: Seq<PolicyNode>, i: int)
    requires
        0 <= i < cs.len(),
    ensures
        policy_views(cs)[i] == policy_view(cs[i]),
        policy_views(cs).len() == cs.len(),
    decreases cs.len(),
{
    lemma_views_len(cs);
    if i < cs.len() - 1 {
        lemma_views_index(cs.drop_last(), i);
    }
}

proof fn lemma_push_drop_last<A>(s: Seq<A>, x: A)
    ensures
        s.push(x).drop_last() == s,
        s.push(x).last() == x,
{
    assert(s.push(x).drop_last() =~= s);
}

/// Canonical strings of the children, in string order.
fn sorted_child_strings(cs: &Vec<PolicyNode>) -> (r: Vec<String>)
    ensures
        r@.map_values(|t: String| t@) == sort_strings(canonical_strings(policy_views(cs@))),
    decreases cs,
{
    let mut pairs: Vec<(String, ())> = Vec::new();
    let mut i: usize = 0;
    while i < cs.len()
        invariant
            i <= cs.len(),
            keyed_view(pairs@) == canonical_strings(policy_views(cs@.take(i as int))).map_values(
                |t: Seq<char>| (t, ()),
            ),
        decreases cs.len() - i,
    {
        let t = cs[i].to_canonical_string();
        let ghost prev = pairs@;
        pairs.push((t, ()));
        proof {
            lemma_views_take(cs@, i as int);
            let v = policy_views(cs@.take(i as int));
            lemma_push_drop_last(v, policy_view(cs@[i as int]));
            assert(keyed_view(pairs@) =~= keyed_view(prev).push((t@, ())));
            assert(canonical_strings(v.push(policy_view(cs@[i as int]))).map_values(
                |t: Seq<char>| (t, ()),
            ) =~= canonical_strings(v).map_values(|t: Seq<char>| (t, ())).push((t@, ())));
        }
        i = i + 1;
    }
    assert(cs@.take(cs.len() as int) =~= cs@);
    let sorted = sort_keyed(pairs);
    let mut out: Vec<String> = Vec::new();
    let mut j: usize = 0;
    while j < sorted.len()
        invariant
            j <= sorted.len(),
            out@.len() == j,
            out@.map_values(|t: String| t@) == keyed_view(sorted@).take(j as int).map_values(
                |p: (Seq<char>, ())| p.0,
            ),
        decreases sorted.len() - j,
    {
        let ghost prev = out@;
        out.push(sorted[j].0.clone());
        proof {
            assert(keyed_view(sorted@)[j as int].0 == sorted@[j as int].0@);
            assert forall|k: int| 0 <= k < j implies out@[k]@ == keyed_view(sorted@).take(j as int).map_values(
                |p: (Seq<char>, ())| p.0)[k] by {
                assert(out@[k] == prev[k]);
                assert(prev.map_values(|t: String| t@)[k] == prev[k]@);
            }
            assert(out@.map_values(|t: String| t@) =~= keyed_view(sorted@).take(j + 1).map_values(
                |p: (Seq<char>, ())| p.0,
            ));
        }
        j = j + 1;
    }
    assert(keyed_view(sorted@).take(sorted.len() as int) =~= keyed_view(sorted@));
    out
}

impl PolicyNode {
    /// Convert policy to canonical string (for hashing)
    pub fn to_canonical_string(&self) -> (s: String)
        ensures
            s@ == self@.canonical_string(),
        decreases self,
    {
        match self {
            PolicyNode::Attr(attr) => attr.clone(),
            PolicyNode::And(children) => {
                let strs = sorted_child_strings(children);
                let mut s = String::new();
                push_char(&mut s, '(');
                push_joined(&mut s, &strs, " and ");
                push_char(&mut s, ')');
                s
            },
            PolicyNode::Or(children) => {
                let strs = sorted_child_strings(children);
                let mut s = String::new();
                push_char(&mut s, '(');
                push_joined(&mut s, &strs, " or ");
                push_char(&mut s, ')');
                s
            },
            PolicyNode::Threshold(k, children) => {
                let strs = sorted_child_strings(children);
                let mut s = String::new();
                push_char(&mut s, '(');
                push_decimal(&mut s, *k as u64);
                s.append(" of ");
                push_joined(&mut s, &strs, ", ");
                push_char(&mut s, ')');
                s
            },
        }
    }
}

/// The views of a sequence of nodes are the views of its elements.
pub proof fn lemma_views_map(cs: Seq<PolicyNode>)
    ensures
        policy_views(cs) == cs.map_values(|p: PolicyNode| policy_view(p)),
    decreases cs.len(),
{
    if cs.len() > 0 {
        lemma_views_map(cs.drop_last());
        assert(cs.map_values(|p: PolicyNode| policy_view(p)) =~= cs.drop_last().map_values(
            |p: PolicyNode| policy_view(p),
        ).push(policy_view(cs.last())));
    } else {
        assert(cs.map_values(|p: PolicyNode| policy_view(p)) =~= Seq::<Policy>::empty());
    }
}

/// Canonical forms of the children, sorted by their canonical text, ties
/// broken by their structure.
fn canonical_children(cs: &Vec<PolicyNode>) -> (r: Vec<PolicyNode>)
    ensures
        policy_views(r@) == sort_policies(canonical_all(policy_views(cs@))),
    decreases cs,
{
    let ghost f = |p: (Seq<char>, PolicyNode)| (p.0, policy_view(p.1));
    let ghost g = |q: Policy| (policy_key(q), q);
    let mut pairs: Vec<(String, PolicyNode)> = Vec::new();
    let mut i: usize = 0;
    while i < cs.len()
        invariant
            i <= cs.len(),
            f == (|p: (Seq<char>, PolicyNode)| (p.0, policy_view(p.1))),
            g == (|q: Policy| (policy_key(q), q)),
            keyed_view(pairs@).map_values(f) == canonical_all(policy_views(cs@.take(i as int))).map_values(g),
        decreases cs.len() - i,
    {
        let c = cs[i].canonicalize();
        let t = policy_key_of(&c);
        let ghost prev = pairs@;
        let ghost cv = c@;
        pairs.push((t, c));
        proof {
            lemma_views_take(cs@, i as int);
            let v = policy_views(cs@.take(i as int));
            lemma_push_drop_last(v, policy_view(cs@[i as int]));
            lemma_push_drop_last(canonical_all(v), policy_view(cs@[i as int]).canonical());
            assert(keyed_view(pairs@).map_values(f) =~= keyed_view(prev).map_values(f).push((t@, cv)));
            assert(canonical_all(v.push(policy_view(cs@[i as int]))).map_values(g)
                =~= canonical_all(v).map_values(g).push(g(cv)));
        }
        i = i + 1;
    }
    assert(cs@.take(cs.len() as int) =~= cs@);
    let ghost kp = keyed_view(pairs@);
    let mut sorted = sort_keyed(pairs);
    proof {
        lemma_sort_by_key_map(kp, |p: PolicyNode| policy_view(p));
        assert(kp.map_values(|p: (Seq<char>, PolicyNode)| (p.0, (|p: PolicyNode| policy_view(p))(p.1)))
            =~= kp.map_values(f));
    }
    let ghost sv = keyed_view(sorted@);
    let ghost target = sv.map_values(f).map_values(|p: (Seq<char>, Policy)| p.1);
    assert(target =~= sort_policies(canonical_all(policy_views(cs@)))) by {
        assert(sort_by_key(kp).map_values(f) =~= sv.map_values(f));
        assert(sort_by_key(kp).map_values(|p: (Seq<char>, PolicyNode)| (p.0, (|p: PolicyNode| policy_view(p))(p.1)))
            =~= sv.map_values(f));
    }
    let n = sorted.len();
    let mut out: Vec<PolicyNode> = Vec::new();
    let mut j: usize = 0;
    while sorted.len() > 0
        invariant
            j <= n,
            sorted@.len() == n - j,
            sv.len() == n,
            keyed_view(sorted@) == sv.skip(j as int),
            out@.len() == j,
            forall|k: int| 0 <= k < j ==> policy_view(#[trigger] out@[k]) == target[k],
            target == sv.map_values(f).map_values(|p: (Seq<char>, Policy)| p.1),
            f == (|p: (Seq<char>, PolicyNode)| (p.0, policy_view(p.1))),
        decreases sorted@.len(),
    {
        let ghost before = sorted@;
        let item = sorted.remove(0);
        proof {
            assert(keyed_view(sorted@) =~= sv.skip(j + 1)) by {
                assert forall|k: int| 0 <= k < sorted@.len() implies
                    keyed_view(sorted@)[k] == sv.skip(j + 1)[k] by {
                    assert(sorted@[k] == before[k + 1]);
                    assert(keyed_view(before)[k + 1] == sv.skip(j as int)[k + 1]);
                }
            }
            assert(keyed_view(before)[0] == sv.skip(j as int)[0]);
            assert(item.1 == sv[j as int].1);
        }
        out.push(item.1);
        j = j + 1;
    }
    proof {
        lemma_views_map(out@);
        assert(out@.map_values(|p: PolicyNode| policy_view(p)) =~= target);
    }
    out
}

impl PolicyNode {
    /// Canonicalize the policy by sorting children in AND/OR/Threshold gates
    ///
    /// This ensures that the same logical policy always produces the same
    /// LSSS matrix structure, regardless of the input order of children.
    pub fn canonicalize(&self) -> (r: PolicyNode)
        ensures
            r@ == self@.canonical(),
        decreases self,
    {
        match self {
            PolicyNode::Attr(attr) => PolicyNode::Attr(attr.clone()),
            PolicyNode::And(children) => PolicyNode::And(canonical_children(children)),
            PolicyNode::Or(children) => PolicyNode::Or(canonical_children(children)),
            PolicyNode::Threshold(k, children) => PolicyNode::Threshold(*k, canonical_children(children)),
        }
    }
}

/// A prefix of the children has no more leaves than all of them.
pub(crate) proof fn lemma_leaf_count_prefix(cs: Seq<Policy>, i: int)
    requires
        0 <= i <= cs.len(),
    ensures
        leaf_count_all(cs.take(i)) <= leaf_count_all(cs),
    decreases cs.len() - i,
{
    if i < cs.len() {
        lemma_leaf_count_prefix(cs, i + 1);
        assert(cs.take(i + 1).drop_last() =~= cs.take(i));
    } else {
        assert(cs.take(i) =~= cs);
    }
}

fn count_children(cs: &Vec<PolicyNode>) -> (n: usize)
    requires
        leaf_count_all(policy_views(cs@)) <= usize::MAX,
    ensures
        n == leaf_count_all(policy_views(cs@)),
    decreases cs,
{
    let mut total: usize = 0;
    let mut i: usize = 0;
    while i < cs.len()
        invariant
            i <= cs.len(),
            leaf_count_all(policy_views(cs@)) <= usize::MAX,
            total == leaf_count_all(policy_views(cs@.take(i as int))),
        decreases cs.len() - i,
    {
        proof {
            lemma_views_take(cs@, i as int);
            let v = policy_views(cs@.take(i as int));
            lemma_push_drop_last(v, policy_view(cs@[i as int]));
            lemma_views_len(cs@);
            assert(cs@.take(cs@.len() as int) =~= cs@);
            lemma_views_map(cs@.take(i + 1));
            lemma_views_map(cs@);
            assert(policy_views(cs@.take(i + 1)) =~= policy_views(cs@).take(i + 1));
            lemma_leaf_count_prefix(policy_views(cs@), i + 1);
        }
        let c = cs[i].count_attrs();
        total = total + c;
        i = i + 1;
    }
    assert(cs@.take(cs.len() as int) =~= cs@);
    total
}

fn attrs_of_children(cs: &Vec<PolicyNode>) -> (r: Vec<String>)
    ensures
        r@.map_values(|t: String| t@) == leaves_all(policy_views(cs@)),
    decreases cs,
{
    let mut out: Vec<String> = Vec::new();
    let mut i: usize = 0;
    while i < cs.len()
        invariant
            i <= cs.len(),
            out@.map_values(|t: String| t@) == leaves_all(policy_views(cs@.take(i as int))),
        decreases cs.len() - i,
    {
        let mut more = cs[i].get_attrs();
        let ghost prev = out@;
        let ghost m = more@;
        out.append(&mut more);
        proof {
            lemma_views_take(cs@, i as int);
            let v = policy_views(cs@.take(i as int));
            lemma_push_drop_last(v, policy_view(cs@[i as int]));
            assert(out@.map_values(|t: String| t@) =~= prev.map_values(|t: String| t@) + m.map_values(
                |t: String| t@,
            ));
        }
        i = i + 1;
    }
    assert(cs@.take(cs.len() as int) =~= cs@);
    out
}

impl PolicyNode {
    /// Count total number of attributes in the policy
    pub fn count_attrs(&self) -> (n: usize)
        requires
            self@.leaf_count() <= usize::MAX,
        ensures
            n == self@.leaf_count(),
        decreases self,
    {
        match self {
            PolicyNode::Attr(_) => 1,
            PolicyNode::And(children) => count_children(children),
            PolicyNode::Or(children) => count_children(children),
            PolicyNode::Threshold(_, children) => count_children(children),
        }
    }

    /// Get all attribute names in the policy
    pub fn get_attrs(&self) -> (r: Vec<String>)
        ensures
            r@.map_values(|t: String| t@) == self@.leaves(),
        decreases self,
    {
        match self {
            PolicyNode::Attr(attr) => {
                let r = vec![attr.clone()];
                assert(r@.map_values(|t: String| t@) =~= seq![attr@]);
                r
            },
            PolicyNode::And(children) => attrs_of_children(children),
            PolicyNode::Or(children) => attrs_of_children(children),
            PolicyNode::Threshold(_, children) => attrs_of_children(children),
        }
    }
}

pub proof fn lemma_well_formed_all(cs: Seq<Policy>)
    ensures
        well_formed_all(cs) <==> forall|i: int| 0 <= i < cs.len() ==> #[trigger] cs[i].well_formed(),
    decreases cs.len(),
{
    if cs.len() > 0 {
        lemma_well_formed_all(cs.drop_last());
        if well_formed_all(cs) {
            assert forall|i: int| 0 <= i < cs.len() implies #[trigger] cs[i].well_formed() by {
                if i < cs.len() - 1 {
                    assert(cs.drop_last()[i] == cs[i]);
                }
            }
        }
        if forall|i: int| 0 <= i < cs.len() ==> #[trigger] cs[i].well_formed() {
            assert forall|i: int| 0 <= i < cs.drop_last().len() implies #[trigger] cs.drop_last()[i].well_formed() by {
                assert(cs.drop_last()[i] == cs[i]);
            }
            assert(cs[cs.len() - 1].well_formed());
            assert(well_formed_all(cs));
        }
    }
}

pub proof fn lemma_canonical_all_index(cs: Seq<Policy>)
    ensures
        canonical_all(cs).len() == cs.len(),
        forall|i: int| 0 <= i < cs.len() ==> #[trigger] canonical_all(cs)[i] == cs[i].canonical(),
    decreases cs.len(),
{
    if cs.len() > 0 {
        lemma_canonical_all_index(cs.drop_last());
        assert forall|i: int| 0 <= i < cs.len() implies #[trigger] canonical_all(cs)[i] == cs[i].canonical() by {
            if i < cs.len() - 1 {
                assert(canonical_all(cs)[i] == canonical_all(cs.drop_last())[i]);
                assert(cs.drop_last()[i] == cs[i]);
            }
        }
    }
}

/// Elements of a policy-sorted sequence come from the sequence.
pub proof fn lemma_sort_policies_elements(ps: Seq<Policy>)
    ensures
        sort_policies(ps).len() == ps.len(),
        forall|i: int| 0 <= i < ps.len() ==> exists|j: int| 0 <= j < ps.len() && #[trigger] sort_policies(ps)[i] == ps[j],
{
    let keyed = ps.map_values(|q: Policy| (policy_key(q), q));
    lemma_sort_by_key_elements(keyed);
    assert forall|i: int| 0 <= i < ps.len() implies exists|j: int| 0 <= j < ps.len() && #[trigger] sort_policies(ps)[i] == ps[j] by {
        let j = choose|j: int| 0 <= j < keyed.len() && sort_by_key(keyed)[i] == keyed[j];
        assert(sort_policies(ps)[i] == sort_by_key(keyed)[i].1);
        assert(keyed[j].1 == ps[j]);
    }
}

/// Policies paired with their keys.
pub open spec fn keyed_policies(ps: Seq<Policy>) -> Seq<(Seq<char>, Policy)> {
    ps.map_values(|q: Policy| (policy_key(q), q))
}

/// The canonical strings of a list are those of its elements.
proof fn lemma_canonical_strings_map(cs: Seq<Policy>)
    ensures
        canonical_strings(cs) == cs.map_values(|q: Policy| q.canonical_string()),
    decreases cs.len(),
{
    if cs.len() > 0 {
        lemma_canonical_strings_map(cs.drop_last());
        assert(cs.map_values(|q: Policy| q.canonical_string()) =~= cs.drop_last().map_values(|q: Policy| q.canonical_string()).push(
            cs.last().canonical_string(),
        ));
    } else {
        assert(cs.map_values(|q: Policy| q.canonical_string()) =~= Seq::<Seq<char>>::empty());
    }
}

/// Sorting policies by key sorts the pairs of key and policy, and their
/// canonical texts come out sorted.
proof fn lemma_sort_policies_keyed(ps: Seq<Policy>)
    ensures
        keyed_policies(sort_policies(ps)) == sort_by_key(keyed_policies(ps)),
        canonical_strings(sort_policies(ps)) == sort_strings(canonical_strings(ps)),
{
    let k = keyed_policies(ps);
    let sk = sort_by_key(k);
    lemma_sort_by_key_elements(k);
    assert forall|i: int| 0 <= i < sk.len() implies (#[trigger] sk[i]).0 == policy_key(sk[i].1) by {
        let j = choose|j: int| 0 <= j < k.len() && sk[i] == k[j];
    }
    let sp = sort_policies(ps);
    assert(keyed_policies(sp) =~= sk);
    lemma_sort_by_key_sorted(k);
    lemma_sort_by_key_multiset(k);
    lemma_canonical_strings_map(sp);
    lemma_canonical_strings_map(ps);
    let second = |p: (Seq<char>, Policy)| p.1;
    lemma_map_multiset(sk, k, second);
    assert(k.map_values(second) =~= ps);
    let text = |q: Policy| q.canonical_string();
    lemma_map_multiset(sp, ps, text);
    let out = canonical_strings(sp);
    assert forall|i: int, j: int| 0 <= i < j < out.len() implies #[trigger] str_order()(out[i], out[j]) by {
        assert(out[i] == sp[i].canonical_string() && out[j] == sp[j].canonical_string());
        assert(!lex_lt(sk[j].0, sk[i].0));
        if lex_lt(out[j], out[i]) {
            lemma_lex_lt_irreflexive(out[i]);
            lemma_policy_key_order(sp[j], sp[i]);
        }
    }
    lemma_sort_strings_sorted(canonical_strings(ps));
    lemma_str_order_total();
    vstd::seq_lib::lemma_sorted_unique(out, sort_strings(canonical_strings(ps)), str_order());
}

/// Sorting policies twice is sorting them once.
proof fn lemma_sort_policies_idempotent(ps: Seq<Policy>)
    ensures
        sort_policies(sort_policies(ps)) == sort_policies(ps),
{
    lemma_sort_policies_keyed(ps);
    lemma_sort_by_key_idempotent(keyed_policies(ps));
    assert(sort_policies(sort_policies(ps)) =~= sort_by_key(sort_by_key(keyed_policies(ps))).map_values(
        |p: (Seq<char>, Policy)| p.1,
    ));
}

/// Sorting strings twice is sorting them once.
proof fn lemma_sort_strings_idempotent(ss: Seq<Seq<char>>)
    ensures
        sort_strings(sort_strings(ss)) == sort_strings(ss),
{
    let k = ss.map_values(|t: Seq<char>| (t, ()));
    lemma_sort_by_key_idempotent(k);
    lemma_sort_by_key_elements(k);
    let sk = sort_by_key(k);
    assert forall|i: int| 0 <= i < sk.len() implies (#[trigger] sk[i]) == (sk[i].0, ()) by {
        let u: () = sk[i].1;
    }
    assert(sort_strings(ss).map_values(|t: Seq<char>| (t, ())) =~= sk);
}

/// Canonicalizing keeps a policy's canonical text, and canonicalizing a
/// canonical policy changes nothing: the canonical form is a fixed point.
pub proof fn lemma_canonical_stable(p: Policy)
    ensures
        p.canonical().canonical_string() == p.canonical_string(),
        p.canonical().canonical() == p.canonical(),
    decreases p,
{
    match p {
        Policy::Attr(_) => {},
        Policy::And(cs) => {
            lemma_canonical_gate(cs);
            lemma_sort_strings_idempotent(canonical_strings(cs));
        },
        Policy::Or(cs) => {
            lemma_canonical_gate(cs);
            lemma_sort_strings_idempotent(canonical_strings(cs));
        },
        Policy::Threshold(_, cs) => {
            lemma_canonical_gate(cs);
            lemma_sort_strings_idempotent(canonical_strings(cs));
        },
    }
}

/// The children of a canonicalized gate: their texts are those of the
/// children as given, sorted, and canonicalizing them again changes
/// nothing.
proof fn lemma_canonical_gate(cs: Seq<Policy>)
    ensures
        canonical_strings(sort_policies(canonical_all(cs))) == sort_strings(canonical_strings(cs)),
        sort_policies(canonical_all(sort_policies(canonical_all(cs)))) == sort_policies(canonical_all(cs)),
    decreases cs, 1nat,
{
    let x = canonical_all(cs);
    lemma_canonical_children(cs);
    lemma_sort_policies_keyed(x);
    let y = sort_policies(x);
    lemma_canonical_all_index(y);
    lemma_canonical_all_index(x);
    lemma_sort_policies_elements(x);
    assert forall|i: int| 0 <= i < y.len() implies #[trigger] canonical_all(y)[i] == y[i] by {
        let j = choose|j: int| 0 <= j < x.len() && y[i] == x[j];
        assert(canonical_all(x)[j] == x[j].canonical());
    }
    assert(canonical_all(y) =~= y);
    lemma_sort_policies_idempotent(x);
}

/// Canonicalizing each of a list of policies keeps their texts, and doing
/// it twice is doing it once.
proof fn lemma_canonical_children(cs: Seq<Policy>)
    ensures
        canonical_strings(canonical_all(cs)) == canonical_strings(cs),
        canonical_all(canonical_all(cs)) == canonical_all(cs),
    decreases cs, 0nat,
{
    if cs.len() > 0 {
        let d = cs.drop_last();
        lemma_canonical_children(d);
        lemma_canonical_stable(cs.last());
        let x = canonical_all(cs);
        assert(x.drop_last() =~= canonical_all(d));
        assert(x.last() == cs.last().canonical());
        assert(canonical_all(x).drop_last() =~= canonical_all(canonical_all(d)));
    }
}

/// Sorting strings depends only on which strings there are, each how
/// often, not on their order.
pub proof fn lemma_sort_strings_permutation(s1: Seq<Seq<char>>, s2: Seq<Seq<char>>)
    requires
        s1.to_multiset() == s2.to_multiset(),
    ensures
        sort_strings(s1) == sort_strings(s2),
{
    lemma_sort_strings_sorted(s1);
    lemma_sort_strings_sorted(s2);
    lemma_str_order_total();
    vstd::seq_lib::lemma_sorted_unique(sort_strings(s1), sort_strings(s2), str_order());
}

/// Sorted strings are in order and are the same strings, each as often.
proof fn lemma_sort_strings_sorted(ss: Seq<Seq<char>>)
    ensures
        vstd::relations::sorted_by(sort_strings(ss), str_order()),
        sort_strings(ss).to_multiset() == ss.to_multiset(),
{
    let k = ss.map_values(|t: Seq<char>| (t, ()));
    let sk = sort_by_key(k);
    lemma_sort_by_key_sorted(k);
    lemma_sort_by_key_multiset(k);
    let first = |p: (Seq<char>, ())| p.0;
    lemma_map_multiset(sk, k, first);
    assert(k.map_values(first) =~= ss);
    let out = sort_strings(ss);
    assert forall|i: int, j: int| 0 <= i < j < out.len() implies #[trigger] str_order()(out[i], out[j]) by {
        assert(keys_sorted(sk));
        assert(out[i] == sk[i].0 && out[j] == sk[j].0);
        assert(!lex_lt(sk[j].0, sk[i].0));
    }
}

/// Canonicalizing a list is canonicalizing each element.
proof fn lemma_canonical_all_map(cs: Seq<Policy>)
    ensures
        canonical_all(cs) == cs.map_values(|q: Policy| q.canonical()),
{
    lemma_canonical_all_index(cs);
    assert(canonical_all(cs) =~= cs.map_values(|q: Policy| q.canonical()));
}

/// The canonical text of a gate does not depend on the order of its
/// children: gates whose children are the same, each as often, have the
/// same canonical text.
pub proof fn lemma_canonical_text_ignores_order(k: nat, a: Seq<Policy>, b: Seq<Policy>)
    requires
        a.to_multiset() == b.to_multiset(),
    ensures
        Policy::And(a).canonical_string() == Policy::And(b).canonical_string(),
        Policy::Or(a).canonical_string() == Policy::Or(b).canonical_string(),
        Policy::Threshold(k, a).canonical_string() == Policy::Threshold(k, b).canonical_string(),
{
    lemma_canonical_strings_map(a);
    lemma_canonical_strings_map(b);
    lemma_map_multiset(a, b, |q: Policy| q.canonical_string());
    lemma_sort_strings_permutation(canonical_strings(a), canonical_strings(b));
    vstd::seq_lib::to_multiset_len(a);
    vstd::seq_lib::to_multiset_len(b);
}

/// Sorting policies by key depends only on which policies there are, each
/// how often, not on their order.
proof fn lemma_sort_policies_permutation(xa: Seq<Policy>, xb: Seq<Policy>)
    requires
        xa.to_multiset() == xb.to_multiset(),
    ensures
        sort_policies(xa) == sort_policies(xb),
{
    let ka = keyed_policies(xa);
    let kb = keyed_policies(xb);
    let sa = sort_by_key(ka);
    let sb = sort_by_key(kb);
    lemma_sort_by_key_sorted(ka);
    lemma_sort_by_key_sorted(kb);
    lemma_sort_by_key_multiset(ka);
    lemma_sort_by_key_multiset(kb);
    lemma_sort_by_key_elements(ka);
    lemma_sort_by_key_elements(kb);
    let first = |p: (Seq<char>, Policy)| p.0;
    let key = |q: Policy| policy_key(q);
    lemma_map_multiset(sa, ka, first);
    lemma_map_multiset(sb, kb, first);
    lemma_map_multiset(xa, xb, key);
    assert(ka.map_values(first) =~= xa.map_values(key));
    assert(kb.map_values(first) =~= xb.map_values(key));
    let ksa = sa.map_values(first);
    let ksb = sb.map_values(first);
    assert forall|i: int, j: int| 0 <= i < j < ksa.len() implies #[trigger] str_order()(ksa[i], ksa[j]) by {
        assert(!lex_lt(sa[j].0, sa[i].0));
    }
    assert forall|i: int, j: int| 0 <= i < j < ksb.len() implies #[trigger] str_order()(ksb[i], ksb[j]) by {
        assert(!lex_lt(sb[j].0, sb[i].0));
    }
    lemma_str_order_total();
    vstd::seq_lib::lemma_sorted_unique(ksa, ksb, str_order());
    assert forall|i: int| 0 <= i < sa.len() implies #[trigger] sa[i] == sb[i] by {
        let ja = choose|j: int| 0 <= j < ka.len() && sa[i] == ka[j];
        let jb = choose|j: int| 0 <= j < kb.len() && sb[i] == kb[j];
        assert(ksa[i] == ksb[i]);
        lemma_policy_key_injective(sa[i].1, sb[i].1);
    }
    assert(sa =~= sb);
}

/// The canonical form of a gate does not depend on the order of its
/// children either: gates whose children are the same, each as often,
/// canonicalize alike.
pub proof fn lemma_canonical_form_ignores_order(k: nat, a: Seq<Policy>, b: Seq<Policy>)
    requires
        a.to_multiset() == b.to_multiset(),
    ensures
        Policy::And(a).canonical() == Policy::And(b).canonical(),
        Policy::Or(a).canonical() == Policy::Or(b).canonical(),
        Policy::Threshold(k, a).canonical() == Policy::Threshold(k, b).canonical(),
{
    lemma_canonical_all_map(a);
    lemma_canonical_all_map(b);
    lemma_map_multiset(a, b, |q: Policy| q.canonical());
    lemma_sort_policies_permutation(canonical_all(a), canonical_all(b));
}

/// Whether `q` is `p` with the children of its gates reordered, at any
/// depth.
pub open spec fn reordered(p: Policy, q: Policy) -> bool
    decreases p,
{
    match p {
        Policy::Attr(a) => q == Policy::Attr(a),
        Policy::And(cs) => q is And && reordered_children(cs, q->And_0),
        Policy::Or(cs) => q is Or && reordered_children(cs, q->Or_0),
        Policy::Threshold(k, cs) => q is Threshold && q->Threshold_0 == k && reordered_children(cs, q->Threshold_1),
    }
}

/// Whether `ds` holds the policies of `cs`, each reordered, in some order.
pub open spec fn reordered_children(cs: Seq<Policy>, ds: Seq<Policy>) -> bool
    decreases cs,
{
    if cs.len() == 0 {
        ds.len() == 0
    } else {
        exists|j: int|
            0 <= j < ds.len() && reordered(cs.last(), #[trigger] ds[j]) && reordered_children(cs.drop_last(), ds.remove(j))
    }
}

/// Every policy is a reordering of itself.
pub proof fn lemma_reordered_self(p: Policy)
    ensures
        reordered(p, p),
    decreases p,
{
    match p {
        Policy::Attr(_) => {},
        Policy::And(cs) => lemma_reordered_children_self(cs),
        Policy::Or(cs) => lemma_reordered_children_self(cs),
        Policy::Threshold(_, cs) => lemma_reordered_children_self(cs),
    }
}

proof fn lemma_reordered_children_self(cs: Seq<Policy>)
    ensures
        reordered_children(cs, cs),
    decreases cs,
{
    if cs.len() > 0 {
        let j = cs.len() - 1;
        lemma_reordered_self(cs.last());
        lemma_reordered_children_self(cs.drop_last());
        assert(cs.remove(j) =~= cs.drop_last());
        assert(reordered(cs.last(), cs[j]));
    }
}

/// Reordering the children of gates, at any depth, changes neither the
/// canonical form nor the canonical text nor the matrix of a policy.
pub proof fn lemma_canonical_ignores_reordering(p: Policy, q: Policy)
    requires
        reordered(p, q),
    ensures
        p.canonical() == q.canonical(),
        p.canonical_string() == q.canonical_string(),
        policy_matrix(p) == policy_matrix(q),
        policy_width(p) == policy_width(q),
    decreases p,
{
    match p {
        Policy::Attr(_) => {},
        Policy::And(cs) => {
            let ds = q->And_0;
            lemma_canonical_children_reordered(cs, ds);
            lemma_sort_policies_permutation(canonical_all(cs), canonical_all(ds));
        },
        Policy::Or(cs) => {
            let ds = q->Or_0;
            lemma_canonical_children_reordered(cs, ds);
            lemma_sort_policies_permutation(canonical_all(cs), canonical_all(ds));
        },
        Policy::Threshold(_, cs) => {
            let ds = q->Threshold_1;
            lemma_canonical_children_reordered(cs, ds);
            lemma_sort_policies_permutation(canonical_all(cs), canonical_all(ds));
        },
    }
    lemma_canonical_stable(p);
    lemma_canonical_stable(q);
}

proof fn lemma_canonical_children_reordered(cs: Seq<Policy>, ds: Seq<Policy>)
    requires
        reordered_children(cs, ds),
    ensures
        canonical_all(cs).to_multiset() == canonical_all(ds).to_multiset(),
    decreases cs,
{
    broadcast use vstd::seq_lib::group_to_multiset_ensures;
    broadcast use vstd::multiset::group_multiset_axioms;

    lemma_canonical_all_map(cs);
    lemma_canonical_all_map(ds);
    if cs.len() == 0 {
        assert(canonical_all(ds) =~= Seq::<Policy>::empty());
    } else {
        let j = choose|j: int|
            0 <= j < ds.len() && reordered(cs.last(), #[trigger] ds[j]) && reordered_children(cs.drop_last(), ds.remove(j));
        lemma_canonical_ignores_reordering(cs.last(), ds[j]);
        lemma_canonical_children_reordered(cs.drop_last(), ds.remove(j));
        lemma_canonical_all_map(cs.drop_last());
        lemma_canonical_all_map(ds.remove(j));
        let f = |x: Policy| x.canonical();
        let xd = canonical_all(ds);
        assert(ds.remove(j).map_values(f) =~= xd.remove(j));
        assert(cs.map_values(f) =~= cs.drop_last().map_values(f).push(f(cs.last())));
        assert(xd[j] == ds[j].canonical());
        assert(xd.to_multiset().count(xd[j]) > 0) by {
            assert(xd.contains(xd[j]));
        }
        assert(xd.remove(j).to_multiset().insert(xd[j]) =~= xd.to_multiset());
    }
}

/// Canonicalizing keeps every gate's threshold and number of children.
pub proof fn lemma_canonical_well_formed(p: Policy)
    requires
        p.well_formed(),
    ensures
        p.canonical().well_formed(),
    decreases p,
{
    match p {
        Policy::Attr(_) => {},
        Policy::And(cs) => {
            lemma_canonical_children_well_formed(cs);
        },
        Policy::Or(cs) => {
            lemma_canonical_children_well_formed(cs);
        },
        Policy::Threshold(_, cs) => {
            lemma_canonical_children_well_formed(cs);
        },
    }
}

pub proof fn lemma_canonical_children_well_formed(cs: Seq<Policy>)
    requires
        well_formed_all(cs),
    ensures
        well_formed_all(sort_policies(canonical_all(cs))),
        sort_policies(canonical_all(cs)).len() == cs.len(),
    decreases cs,
{
    lemma_well_formed_all(cs);
    lemma_canonical_all_index(cs);
    let ca = canonical_all(cs);
    assert forall|i: int| 0 <= i < ca.len() implies #[trigger] ca[i].well_formed() by {
        assert(cs[i].well_formed());
        lemma_canonical_well_formed(cs[i]);
    }
    lemma_sort_policies_elements(ca);
    let sp = sort_policies(ca);
    assert forall|i: int| 0 <= i < sp.len() implies #[trigger] sp[i].well_formed() by {
        let j = choose|j: int| 0 <= j < ca.len() && sp[i] == ca[j];
        assert(ca[j].well_formed());
    }
    lemma_well_formed_all(sp);
}

/// A row in the LSSS matrix
#[derive(Clone, Debug)]
pub struct LsssRow {
    /// The attribute label for this row
    pub attr: String,
    /// The row vector in the LSSS matrix
    pub vector: Vec<Fr>,
}

/// The LSSS matrix representation of a policy
#[derive(Clone, Debug)]
pub struct LsssMatrix {
    /// Rows of the matrix, one per attribute in the policy
    pub rows: Vec<LsssRow>,
    /// Number of columns in the matrix
    pub num_cols: usize,
}

/// A share of the secret for an attribute
#[derive(Clone, Debug)]
pub struct LsssShare {
    /// The attribute this share is for
    pub attr: String,
    /// The share value (dot product of row with secret vector)
    pub share: Fr,
}

/// Values of a sequence of field elements.
pub open spec fn scalars(v: Seq<Fr>) -> Seq<int> {
    v.map_values(|x: Fr| x@)
}

/// A row as (attribute, vector of values).
pub open spec fn row_view(r: LsssRow) -> (Seq<char>, Seq<int>) {
    (r.attr@, scalars(r.vector@))
}

pub open spec fn rows_view(rs: Seq<LsssRow>) -> Seq<(Seq<char>, Seq<int>)> {
    rs.map_values(|r: LsssRow| row_view(r))
}

/// `x, x^2, ..., x^count`, reduced modulo `r`.
pub open spec fn powers(x: int, count: nat) -> Seq<int> {
    Seq::new(count, |j: int| pow(x, (j + 1) as nat) % modulus())
}

/// The vector handed to child `i` of a gate with threshold `t`: the parent's
/// vector, extended for `t > 1` by the powers of the evaluation point `i + 1`.
pub open spec fn child_vector(parent: Seq<int>, t: nat, i: nat) -> Seq<int> {
    if t <= 1 {
        parent
    } else {
        parent + powers((i + 1) as int, (t - 1) as nat)
    }
}

/// Rows produced for a policy node that receives `parent`.
pub open spec fn expand_rows(p: Policy, parent: Seq<int>) -> Seq<(Seq<char>, Seq<int>)>
    decreases p,
{
    match p {
        Policy::Attr(a) => seq![(a, parent)],
        Policy::And(cs) => expand_children(cs, cs.len(), parent),
        Policy::Or(cs) => expand_children(cs, 1, parent),
        Policy::Threshold(k, cs) => expand_children(cs, k, parent),
    }
}

pub open spec fn expand_children(cs: Seq<Policy>, t: nat, parent: Seq<int>) -> Seq<(Seq<char>, Seq<int>)>
    decreases cs,
{
    if cs.len() == 0 {
        Seq::empty()
    } else {
        expand_children(cs.drop_last(), t, parent) + expand_rows(
            cs.last(),
            child_vector(parent, t, (cs.len() - 1) as nat),
        )
    }
}

/// Longest vector among rows.
pub open spec fn max_width(rows: Seq<(Seq<char>, Seq<int>)>) -> nat
    decreases rows.len(),
{
    if rows.len() == 0 {
        0
    } else {
        let w = max_width(rows.drop_last());
        if rows.last().1.len() > w {
            rows.last().1.len()
        } else {
            w
        }
    }
}

/// `v` extended with zeros to length `n`.
pub open spec fn padded(v: Seq<int>, n: nat) -> Seq<int> {
    v + Seq::new((n - v.len()) as nat, |j: int| 0int)
}

/// Unpadded rows of the matrix of a policy: the canonical policy expanded
/// from the unit vector `[1]`.
pub open spec fn policy_rows(p: Policy) -> Seq<(Seq<char>, Seq<int>)> {
    expand_rows(p.canonical(), seq![1int])
}

/// Number of columns of the matrix of a policy.
pub open spec fn policy_width(p: Policy) -> nat {
    let rows = policy_rows(p);
    if rows.len() == 0 {
        1
    } else {
        max_width(rows)
    }
}

/// The rows of the matrix of a policy, padded to its width.
pub open spec fn policy_matrix(p: Policy) -> Seq<(Seq<char>, Seq<int>)> {
    policy_rows(p).map_values(|r: (Seq<char>, Seq<int>)| (r.0, padded(r.1, policy_width(p))))
}

/// Every row is at most as long as the widest.
proof fn lemma_max_width(rows: Seq<(Seq<char>, Seq<int>)>)
    ensures
        forall|j: int| 0 <= j < rows.len() ==> #[trigger] rows[j].1.len() <= max_width(rows),
    decreases rows.len(),
{
    if rows.len() > 0 {
        lemma_max_width(rows.drop_last());
        assert forall|j: int| 0 <= j < rows.len() implies #[trigger] rows[j].1.len() <= max_width(rows) by {
            if j < rows.len() - 1 {
                assert(rows.drop_last()[j] == rows[j]);
            }
        }
    }
}

proof fn lemma_rows_view_push(rs: Seq<LsssRow>, r: LsssRow)
    ensures
        rows_view(rs.push(r)) == rows_view(rs).push(row_view(r)),
{
    assert(rows_view(rs.push(r)) =~= rows_view(rs).push(row_view(r)));
}

/// The vector of child `i` under a gate with threshold `t`.
fn make_child_vector(parent: &Vec<Fr>, t: usize, i: usize) -> (v: Vec<Fr>)
    requires
        i < usize::MAX,
    ensures
        scalars(v@) == child_vector(scalars(parent@), t as nat, i as nat),
{
    let mut v = parent.clone();
    assert(scalars(v@) =~= scalars(parent@));
    if t <= 1 {
        return v;
    }
    let x = Fr::from_u64((i + 1) as u64);
    let mut x_power = x;
    let mut j: usize = 0;
    let ghost base = scalars(parent@);
    let ghost xi = (i + 1) as int;
    proof {
        vstd::arithmetic::power::lemma_pow1(xi);
        assert(xi < modulus());
        lemma_small_mod(xi as nat, modulus() as nat);
    }
    while j < t - 1
        invariant
            1 < t,
            j <= t - 1,
            x@ == xi,
            xi > 0,
            x_power@ == pow(xi, (j + 1) as nat) % modulus(),
            scalars(v@) == base + powers(xi, j as nat),
        decreases t - 1 - j,
    {
        let ghost prev = v@;
        v.push(x_power);
        proof {
            assert(scalars(v@) =~= scalars(prev).push(x_power@));
            assert(powers(xi, (j + 1) as nat) =~= powers(xi, j as nat).push(x_power@));
            assert(scalars(v@) =~= base + powers(xi, (j + 1) as nat));
            vstd::arithmetic::power::lemma_pow_adds(xi, (j + 1) as nat, 1);
            vstd::arithmetic::power::lemma_pow1(xi);
            lemma_mul_mod_noop_left(pow(xi, (j + 1) as nat), xi, modulus());
        }
        x_power = x_power.mul(&x);
        j = j + 1;
    }
    v
}

impl LsssMatrix {
    /// Create an LSSS matrix from a policy tree
    ///
    /// The policy is canonicalized first to ensure that the same logical policy
    /// always produces the same LSSS matrix structure (important for serialization).
    pub fn from_policy(policy: &PolicyNode) -> (m: Self)
        requires
            policy@.well_formed(),
        ensures
            m.num_cols == policy_width(policy@),
            rows_view(m.rows@) == policy_matrix(policy@),
    {
        let canonical_policy = policy.canonicalize();
        proof {
            lemma_canonical_well_formed(policy@);
        }
        let mut rows: Vec<LsssRow> = Vec::new();
        let root = vec![Fr::one()];
        assert(scalars(root@) =~= seq![1int]);
        Self::expand_node(&canonical_policy, root, &mut rows);
        assert(rows_view(rows@) =~= policy_rows(policy@));
        let ghost spec_rows = policy_rows(policy@);
        // Width of the widest row.
        let mut width: usize = 0;
        let mut i: usize = 0;
        while i < rows.len()
            invariant
                i <= rows.len(),
                rows_view(rows@) == spec_rows,
                width == max_width(spec_rows.take(i as int)),
            decreases rows.len() - i,
        {
            proof {
                assert(spec_rows.take(i + 1).drop_last() =~= spec_rows.take(i as int));
                assert(spec_rows[i as int].1.len() == rows@[i as int].vector@.len());
            }
            if rows[i].vector.len() > width {
                width = rows[i].vector.len();
            }
            i = i + 1;
        }
        assert(spec_rows.take(rows.len() as int) =~= spec_rows);
        proof {
            lemma_max_width(spec_rows);
        }
        let num_cols = if rows.len() == 0 { 1 } else { width };
        // Pad all rows to have the same number of columns.
        let mut padded_rows: Vec<LsssRow> = Vec::new();
        let mut k: usize = 0;
        while k < rows.len()
            invariant
                k <= rows.len(),
                rows_view(rows@) == spec_rows,
                num_cols == policy_width(policy@),
                forall|j: int| 0 <= j < spec_rows.len() ==> #[trigger] spec_rows[j].1.len() <= num_cols,
                rows_view(padded_rows@) == spec_rows.take(k as int).map_values(
                    |r: (Seq<char>, Seq<int>)| (r.0, padded(r.1, policy_width(policy@))),
                ),
            decreases rows.len() - k,
        {
            let mut vector = rows[k].vector.clone();
            let ghost orig = scalars(rows@[k as int].vector@);
            assert(scalars(vector@) =~= orig);
            assert(rows_view(rows@)[k as int] == row_view(rows@[k as int]));
            assert(spec_rows[k as int].1 == orig);
            assert(orig.len() <= num_cols);
            while vector.len() < num_cols
                invariant
                    orig.len() <= vector@.len() <= num_cols,
                    scalars(vector@) == padded(orig, vector@.len() as nat),
                decreases num_cols - vector@.len(),
            {
                let ghost before = vector@;
                vector.push(Fr::zero());
                assert(scalars(vector@) =~= scalars(before).push(0));
                assert(scalars(vector@) =~= padded(orig, vector@.len() as nat));
            }
            let row = LsssRow { attr: rows[k].attr.clone(), vector };
            let ghost prev = padded_rows@;
            padded_rows.push(row);
            proof {
                lemma_rows_view_push(prev, row);
                assert(spec_rows.take(k + 1).map_values(
                    |r: (Seq<char>, Seq<int>)| (r.0, padded(r.1, policy_width(policy@))),
                ) =~= spec_rows.take(k as int).map_values(
                    |r: (Seq<char>, Seq<int>)| (r.0, padded(r.1, policy_width(policy@))),
                ).push(row_view(row)));
            }
            k = k + 1;
        }
        assert(spec_rows.take(rows.len() as int) =~= spec_rows);
        LsssMatrix { rows: padded_rows, num_cols }
    }

    /// Recursively expand a policy node into LSSS rows
    fn expand_node(node: &PolicyNode, parent_vector: Vec<Fr>, rows: &mut Vec<LsssRow>)
        requires
            node@.well_formed(),
        ensures
            rows_view(final(rows)@) == rows_view(old(rows)@) + expand_rows(node@, scalars(parent_vector@)),
        decreases node, 0nat,
    {
        match node {
            PolicyNode::Attr(attr) => {
                let ghost prev = rows@;
                let row = LsssRow { attr: attr.clone(), vector: parent_vector };
                rows.push(row);
                proof {
                    lemma_rows_view_push(prev, row);
                    assert(rows_view(prev).push(row_view(row)) =~= rows_view(prev) + seq![row_view(row)]);
                }
            },
            PolicyNode::And(children) => {
                proof {
                    lemma_views_len(children@);
                }
                let threshold = children.len();
                Self::expand_threshold(threshold, children, parent_vector, rows);
            },
            PolicyNode::Or(children) => {
                proof {
                    lemma_views_len(children@);
                }
                Self::expand_threshold(1, children, parent_vector, rows);
            },
            PolicyNode::Threshold(k, children) => {
                proof {
                    lemma_views_len(children@);
                }
                Self::expand_threshold(*k, children, parent_vector, rows);
            },
        }
    }

    /// Expand a threshold gate using Shamir secret sharing structure
    fn expand_threshold(
        threshold: usize,
        children: &Vec<PolicyNode>,
        parent_vector: Vec<Fr>,
        rows: &mut Vec<LsssRow>,
    )
        requires
            1 <= threshold <= children.len(),
            well_formed_all(policy_views(children@)),
        ensures
            rows_view(final(rows)@) == rows_view(old(rows)@) + expand_children(
                policy_views(children@),
                threshold as nat,
                scalars(parent_vector@),
            ),
        decreases children, 1nat,
    {
        let ghost parent = scalars(parent_vector@);
        let ghost views = policy_views(children@);
        proof {
            lemma_well_formed_all(views);
            lemma_views_len(children@);
        }
        let mut i: usize = 0;
        while i < children.len()
            invariant
                i <= children.len(),
                views == policy_views(children@),
                views.len() == children.len(),
                forall|j: int| 0 <= j < views.len() ==> #[trigger] views[j].well_formed(),
                parent == scalars(parent_vector@),
                rows_view(rows@) == rows_view(old(rows)@) + expand_children(
                    policy_views(children@.take(i as int)),
                    threshold as nat,
                    parent,
                ),
            decreases children.len() - i,
        {
            let child_vector = make_child_vector(&parent_vector, threshold, i);
            proof {
                lemma_views_index(children@, i as int);
            }
            Self::expand_node(&children[i], child_vector, rows);
            proof {
                lemma_views_take(children@, i as int);
                let v = policy_views(children@.take(i as int));
                lemma_push_drop_last(v, policy_view(children@[i as int]));
                lemma_views_len(children@.take(i as int));
                assert(v.len() == i);
            }
            i = i + 1;
        }
        assert(children@.take(children.len() as int) =~= children@);
    }
}

/// Sum of `a[j] * b[j]` over the first `k` positions.
pub open spec fn dot_upto(a: Seq<int>, b: Seq<int>, k: nat) -> int
    decreases k,
{
    if k == 0 {
        0
    } else {
        dot_upto(a, b, (k - 1) as nat) + a[k - 1] * b[k - 1]
    }
}

/// Dot product over the positions both vectors have.
pub open spec fn dot(a: Seq<int>, b: Seq<int>) -> int {
    dot_upto(a, b, if a.len() < b.len() { a.len() } else { b.len() })
}

/// Dot product of two vectors of field elements, over their common length.
fn dot_product(a: &Vec<Fr>, b: &Vec<Fr>) -> (r: Fr)
    ensures
        r@ == dot(scalars(a@), scalars(b@)) % modulus(),
{
    let n = if a.len() < b.len() { a.len() } else { b.len() };
    let mut acc = Fr::zero();
    let mut j: usize = 0;
    let ghost sa = scalars(a@);
    let ghost sb = scalars(b@);
    assert(modulus() > 0);
    while j < n
        invariant
            j <= n,
            n <= a.len(),
            n <= b.len(),
            sa == scalars(a@),
            sb == scalars(b@),
            acc@ == dot_upto(sa, sb, j as nat) % modulus(),
        decreases n - j,
    {
        let term = a[j].mul(&b[j]);
        let ghost before = acc@;
        acc = acc.add(&term);
        proof {
            let m = modulus();
            let d = dot_upto(sa, sb, j as nat);
            assert(sa[j as int] == a@[j as int]@);
            assert(sb[j as int] == b@[j as int]@);
            lemma_add_mod_noop(d, sa[j as int] * sb[j as int], m);
            lemma_mod_twice(d, m);
            lemma_mod_twice(sa[j as int] * sb[j as int], m);
        }
        j = j + 1;
    }
    acc
}

impl LsssMatrix {
    /// Shares of the secret vector `v` (whose first entry is the secret):
    /// one share per row, the row's dot product with `v`.
    pub fn share_secret_with(&self, v: &Vec<Fr>) -> (shares: Vec<LsssShare>)
        ensures
            shares@.len() == self.rows@.len(),
            forall|i: int| 0 <= i < shares@.len() ==> {
                &&& (#[trigger] shares@[i]).attr@ == self.rows@[i].attr@
                &&& shares@[i].share@ == dot(scalars(self.rows@[i].vector@), scalars(v@)) % modulus()
            },
    {
        let mut shares: Vec<LsssShare> = Vec::new();
        let mut i: usize = 0;
        while i < self.rows.len()
            invariant
                i <= self.rows.len(),
                shares@.len() == i,
                forall|k: int| 0 <= k < i ==> {
                    &&& (#[trigger] shares@[k]).attr@ == self.rows@[k].attr@
                    &&& shares@[k].share@ == dot(scalars(self.rows@[k].vector@), scalars(v@)) % modulus()
                },
            decreases self.rows.len() - i,
        {
            let share = dot_product(&self.rows[i].vector, v);
            shares.push(LsssShare { attr: self.rows[i].attr.clone(), share });
            i = i + 1;
        }
        shares
    }

    /// Share a secret using this LSSS matrix
    ///
    /// The secret vector is `(secret, r_2, ..., r_c)` with `r_j` drawn from
    /// `rng`; each share is a row's dot product with it.
    pub fn share_secret<R: RngCore>(&self, rng: &mut R, secret: Fr) -> (shares: Vec<LsssShare>)
        ensures
            shares@.len() == self.rows@.len(),
            exists|v: Seq<int>| {
                &&& v.len() == if self.num_cols > 1 { self.num_cols as nat } else { 1 }
                &&& v[0] == secret@
                &&& forall|i: int| 0 <= i < shares@.len() ==> {
                    &&& (#[trigger] shares@[i]).attr@ == self.rows@[i].attr@
                    &&& shares@[i].share@ == dot(scalars(self.rows@[i].vector@), v) % modulus()
                }
            },
    {
        let mut v = vec![secret];
        let mut j: usize = 1;
        while j < self.num_cols
            invariant
                1 <= j,
                j <= self.num_cols || j == 1,
                v@.len() == j,
                v@[0] == secret,
            decreases self.num_cols - j,
        {
            v.push(Fr::random(rng));
            j = j + 1;
        }
        let shares = self.share_secret_with(&v);
        proof {
            let w = scalars(v@);
            assert(w[0] == secret@);
            assert(w.len() == if self.num_cols > 1 { self.num_cols as nat } else { 1 });
            assert(forall|i: int| 0 <= i < shares@.len() ==> {
                &&& (#[trigger] shares@[i]).attr@ == self.rows@[i].attr@
                &&& shares@[i].share@ == dot(scalars(self.rows@[i].vector@), w) % modulus()
            });
        }
        shares
    }
}

/// Reconstruction coefficients keyed by attribute name. Setting an
/// attribute again replaces its coefficient.
#[derive(Clone, Debug)]
pub struct Coefficients {
    entries: Vec<(String, Fr)>,
}

/// The map held by a sequence of (key, value) entries; a later entry wins.
pub open spec fn entries_map(es: Seq<(String, Fr)>) -> Map<Seq<char>, int>
    decreases es.len(),
{
    if es.len() == 0 {
        Map::empty()
    } else {
        entries_map(es.drop_last()).insert(es.last().0@, es.last().1@)
    }
}

/// The last entry for a key holds its value; a key without entries is absent.
proof fn lemma_entries_map_last(es: Seq<(String, Fr)>, k: Seq<char>, i: int)
    requires
        -1 <= i < es.len(),
        forall|j: int| i < j < es.len() ==> (#[trigger] es[j]).0@ != k,
        i >= 0 ==> es[i].0@ == k,
    ensures
        i >= 0 ==> entries_map(es).contains_key(k) && entries_map(es)[k] == es[i].1@,
        i < 0 ==> !entries_map(es).contains_key(k),
    decreases es.len(),
{
    if es.len() > 0 {
        let d = es.drop_last();
        if i < es.len() - 1 {
            assert forall|j: int| i < j < d.len() implies (#[trigger] d[j]).0@ != k by {
                assert(d[j] == es[j]);
            }
            assert(es[es.len() - 1].0@ != k);
            if i >= 0 {
                assert(d[i] == es[i]);
            }
            lemma_entries_map_last(d, k, i);
        }
    }
}

impl Coefficients {
    /// No coefficients.
    pub fn new() -> (c: Coefficients)
        ensures
            c@ == Map::<Seq<char>, int>::empty(),
    {
        Coefficients { entries: Vec::new() }
    }

    /// Sets the coefficient of `attr`, replacing an earlier one.
    pub fn insert(&mut self, attr: String, coeff: Fr)
        ensures
            final(self)@ == old(self)@.insert(attr@, coeff@),
    {
        let ghost es = self.entries@;
        self.entries.push((attr, coeff));
        assert(self.entries@.drop_last() =~= es);
    }

    /// The coefficient of `attr`, if it has one.
    pub fn get(&self, attr: &str) -> (r: Option<Fr>)
        ensures
            r is Some <==> self@.contains_key(attr@),
            r matches Some(c) ==> c@ == self@[attr@],
    {
        let mut i: usize = self.entries.len();
        while i > 0
            invariant
                i <= self.entries@.len(),
                forall|j: int| i <= j < self.entries@.len() ==> (#[trigger] self.entries@[j]).0@ != attr@,
            decreases i,
        {
            if str_eq(self.entries[i - 1].0.as_str(), attr) {
                proof {
                    lemma_entries_map_last(self.entries@, attr@, i - 1);
                }
                return Some(self.entries[i - 1].1);
            }
            i = i - 1;
        }
        proof {
            lemma_entries_map_last(self.entries@, attr@, -1);
        }
        None
    }

    /// Whether `attr` has a coefficient.
    pub fn contains_key(&self, attr: &str) -> (b: bool)
        ensures
            b == self@.contains_key(attr@),
    {
        self.get(attr).is_some()
    }

    /// The attributes that have a coefficient, each at least once.
    pub fn keys(&self) -> (r: Vec<String>)
        ensures
            attrs_view(r@).to_set() == self@.dom(),
    {
        let mut r: Vec<String> = Vec::new();
        let mut i: usize = 0;
        while i < self.entries.len()
            invariant
                i <= self.entries@.len(),
                attrs_view(r@) == entry_names(self.entries@.take(i as int)),
            decreases self.entries@.len() - i,
        {
            let ghost before = r@;
            r.push(self.entries[i].0.clone());
            proof {
                assert(attrs_view(r@) =~= attrs_view(before).push(self.entries@[i as int].0@));
                assert(self.entries@.take(i + 1).drop_last() =~= self.entries@.take(i as int));
            }
            i = i + 1;
        }
        proof {
            assert(self.entries@.take(self.entries@.len() as int) =~= self.entries@);
            lemma_entries_map_dom(self.entries@);
        }
        r
    }
}

/// The keys of entries, in order.
pub open spec fn entry_names(es: Seq<(String, Fr)>) -> Seq<Seq<char>> {
    es.map_values(|e: (String, Fr)| e.0@)
}

/// The keys of the map held by entries are the entries' keys.
proof fn lemma_entries_map_dom(es: Seq<(String, Fr)>)
    ensures
        entries_map(es).dom() == entry_names(es).to_set(),
    decreases es.len(),
{
    if es.len() > 0 {
        lemma_entries_map_dom(es.drop_last());
        let prev = entry_names(es.drop_last());
        let k = es.last().0@;
        assert(entry_names(es) =~= prev.push(k));
        assert forall|x: Seq<char>| entry_names(es).contains(x) <==> (prev.contains(x) || x == k) by {
            if prev.contains(x) {
                let j = choose|j: int| 0 <= j < prev.len() && prev[j] == x;
                assert(prev.push(k)[j] == x);
            }
            if x == k {
                assert(prev.push(k)[prev.len() as int] == x);
            }
            if entry_names(es).contains(x) {
                let j = choose|j: int| 0 <= j < entry_names(es).len() && entry_names(es)[j] == x;
                if j < prev.len() {
                    assert(prev[j] == x);
                }
            }
        }
        assert(entries_map(es) == entries_map(es.drop_last()).insert(k, es.last().1@));
        assert(entries_map(es).dom() =~= entries_map(es.drop_last()).dom().insert(k));
        assert forall|x: Seq<char>| entries_map(es).dom().contains(x) <==> entry_names(es).to_set().contains(x) by {
            assert(entries_map(es.drop_last()).dom().contains(x) <==> prev.to_set().contains(x));
        }
        assert(entries_map(es).dom() =~= entry_names(es).to_set());
    } else {
        assert(entries_map(es).dom() =~= entry_names(es).to_set());
    }
}

impl View for Coefficients {
    type V = Map<Seq<char>, int>;

    closed spec fn view(&self) -> Map<Seq<char>, int> {
        entries_map(self.entries@)
    }
}

/// `c[0] * a[0][col] + ... + c[k-1] * a[k-1][col]`.
pub open spec fn comb_upto(c: Seq<int>, a: Seq<Seq<int>>, col: int, k: nat) -> int
    decreases k,
{
    if k == 0 {
        0
    } else {
        comb_upto(c, a, col, (k - 1) as nat) + c[k - 1] * a[k - 1][col]
    }
}

/// Entry `col` of the combination of the rows `a` with coefficients `c`.
pub open spec fn comb(c: Seq<int>, a: Seq<Seq<int>>, col: int) -> int {
    comb_upto(c, a, col, a.len())
}

/// The `r`-th unit vector of length `n`.
pub open spec fn unit(n: nat, r: int) -> Seq<int> {
    Seq::new(n, |i: int| if i == r { 1int } else { 0int })
}

/// `c` combines the rows `a` into the first unit vector of length `m`,
/// modulo `r`.
pub open spec fn combines_to_unit(c: Seq<int>, a: Seq<Seq<int>>, m: nat) -> bool {
    &&& c.len() == a.len()
    &&& forall|col: int| 0 <= col < m ==> #[trigger] comb(c, a, col) % modulus() == (if col == 0 { 1int } else { 0int })
}

/// An augmented row `[x | c]` with `x` congruent to the combination of
/// the rows `a` with coefficients `c`.
pub open spec fn tracks(row: Seq<int>, a: Seq<Seq<int>>, m: nat) -> bool {
    &&& row.len() == m + a.len()
    &&& forall|col: int| 0 <= col < m ==> #[trigger] row[col] % modulus() == comb(row.subrange(m as int, (m + a.len()) as int), a, col) % modulus()
}

proof fn lemma_cong_add(x1: int, x2: int, y1: int, y2: int, m: int)
    requires
        m > 0,
        x1 % m == x2 % m,
        y1 % m == y2 % m,
    ensures
        (x1 + y1) % m == (x2 + y2) % m,
{
    lemma_add_mod_noop(x1, y1, m);
    lemma_add_mod_noop(x2, y2, m);
}

proof fn lemma_cong_mul(x1: int, x2: int, y: int, m: int)
    requires
        m > 0,
        x1 % m == x2 % m,
    ensures
        (x1 * y) % m == (x2 * y) % m,
{
    lemma_mul_mod_noop_left(x1, y, m);
    lemma_mul_mod_noop_left(x2, y, m);
}

proof fn lemma_comb_unit(a: Seq<Seq<int>>, r: int, col: int, k: nat)
    requires
        0 <= r < a.len(),
        k <= a.len(),
    ensures
        comb_upto(unit(a.len(), r), a, col, k) == if r < k { a[r][col] } else { 0 },
    decreases k,
{
    if k > 0 {
        lemma_comb_unit(a, r, col, (k - 1) as nat);
    }
}

proof fn lemma_comb_scale(c: Seq<int>, u: Seq<int>, a: Seq<Seq<int>>, col: int, s: int, k: nat)
    requires
        k <= c.len(),
        k <= u.len(),
        forall|i: int| 0 <= i < k ==> #[trigger] u[i] == (c[i] * s) % modulus(),
    ensures
        comb_upto(u, a, col, k) % modulus() == (comb_upto(c, a, col, k) * s) % modulus(),
    decreases k,
{
    let m = modulus();
    if k > 0 {
        let k1 = (k - 1) as nat;
        lemma_comb_scale(c, u, a, col, s, k1);
        let x = a[k - 1][col];
        lemma_mod_twice(c[k - 1] * s, m);
        lemma_cong_mul(u[k - 1], c[k - 1] * s, x, m);
        lemma_cong_add(comb_upto(u, a, col, k1), comb_upto(c, a, col, k1) * s, u[k - 1] * x, c[k - 1] * s * x, m);
        assert(comb_upto(c, a, col, k1) * s + c[k - 1] * s * x == (comb_upto(c, a, col, k1) + c[k - 1] * x) * s) by (nonlinear_arith);
    }
}

proof fn lemma_comb_sub(v: Seq<int>, w: Seq<int>, u: Seq<int>, a: Seq<Seq<int>>, col: int, f: int, k: nat)
    requires
        k <= v.len(),
        k <= w.len(),
        k <= u.len(),
        forall|i: int| 0 <= i < k ==> #[trigger] u[i] == (v[i] - (f * w[i]) % modulus()) % modulus(),
    ensures
        comb_upto(u, a, col, k) % modulus() == (comb_upto(v, a, col, k) - f * comb_upto(w, a, col, k)) % modulus(),
    decreases k,
{
    let m = modulus();
    if k > 0 {
        let k1 = (k - 1) as nat;
        lemma_comb_sub(v, w, u, a, col, f, k1);
        let x = a[k - 1][col];
        lemma_sub_mod_noop_right(v[k - 1], f * w[k - 1], m);
        lemma_mod_twice(v[k - 1] - f * w[k - 1], m);
        lemma_cong_mul(u[k - 1], v[k - 1] - f * w[k - 1], x, m);
        lemma_cong_add(
            comb_upto(u, a, col, k1),
            comb_upto(v, a, col, k1) - f * comb_upto(w, a, col, k1),
            u[k - 1] * x,
            (v[k - 1] - f * w[k - 1]) * x,
            m,
        );
        assert(comb_upto(v, a, col, k1) - f * comb_upto(w, a, col, k1) + (v[k - 1] - f * w[k - 1]) * x
            == (comb_upto(v, a, col, k1) + v[k - 1] * x) - f * (comb_upto(w, a, col, k1) + w[k - 1] * x)) by (nonlinear_arith);
    }
}

/// The initial augmented row `[a[r] | e_r]` tracks its combination.
proof fn lemma_tracks_init(a: Seq<Seq<int>>, r: int, m: nat)
    requires
        0 <= r < a.len(),
        a[r].len() == m,
    ensures
        tracks(a[r] + unit(a.len(), r), a, m),
{
    let row = a[r] + unit(a.len(), r);
    assert(row.subrange(m as int, (m + a.len()) as int) =~= unit(a.len(), r));
    assert forall|col: int| 0 <= col < m implies #[trigger] row[col] % modulus() == comb(row.subrange(m as int, (m + a.len()) as int), a, col) % modulus() by {
        lemma_comb_unit(a, r, col, a.len());
    }
}

/// Scaling a tracking row keeps it tracking.
proof fn lemma_tracks_scale(row: Seq<int>, s: int, out: Seq<int>, a: Seq<Seq<int>>, m: nat)
    requires
        tracks(row, a, m),
        out.len() == row.len(),
        forall|j: int| 0 <= j < row.len() ==> #[trigger] out[j] == (row[j] * s) % modulus(),
    ensures
        tracks(out, a, m),
{
    let n = a.len();
    let c = row.subrange(m as int, (m + n) as int);
    let u = out.subrange(m as int, (m + n) as int);
    assert forall|col: int| 0 <= col < m implies #[trigger] out[col] % modulus() == comb(u, a, col) % modulus() by {
        assert forall|i: int| 0 <= i < n implies #[trigger] u[i] == (c[i] * s) % modulus() by {
            assert(u[i] == out[m + i]);
            assert(c[i] == row[m + i]);
        }
        lemma_comb_scale(c, u, a, col, s, n);
        lemma_mod_twice(row[col] * s, modulus());
        lemma_cong_mul(row[col], comb(c, a, col), s, modulus());
    }
}

/// Subtracting a multiple of a tracking row from a tracking row keeps it
/// tracking.
proof fn lemma_tracks_sub(row: Seq<int>, p: Seq<int>, f: int, out: Seq<int>, a: Seq<Seq<int>>, m: nat)
    requires
        tracks(row, a, m),
        tracks(p, a, m),
        out.len() == row.len(),
        forall|j: int| 0 <= j < row.len() ==> #[trigger] out[j] == (row[j] - (f * p[j]) % modulus()) % modulus(),
    ensures
        tracks(out, a, m),
{
    let n = a.len();
    let mm = modulus();
    let v = row.subrange(m as int, (m + n) as int);
    let w = p.subrange(m as int, (m + n) as int);
    let u = out.subrange(m as int, (m + n) as int);
    assert forall|col: int| 0 <= col < m implies #[trigger] out[col] % mm == comb(u, a, col) % mm by {
        assert forall|i: int| 0 <= i < n implies #[trigger] u[i] == (v[i] - (f * w[i]) % mm) % mm by {
            assert(u[i] == out[m + i]);
            assert(v[i] == row[m + i]);
            assert(w[i] == p[m + i]);
        }
        lemma_comb_sub(v, w, u, a, col, f, n);
        lemma_sub_mod_noop_right(row[col], f * p[col], mm);
        lemma_mod_twice(row[col] - f * p[col], mm);
        lemma_cong_mul(p[col], comb(w, a, col), f, mm);
        assert(f * p[col] == p[col] * f && f * comb(w, a, col) == comb(w, a, col) * f) by (nonlinear_arith);
        let fp = f * p[col];
        let fw = f * comb(w, a, col);
        assert(fp % mm == fw % mm) by {
            lemma_cong_mul(p[col], comb(w, a, col), f, mm);
        }
        lemma_cong_mul(fp, fw, -1, mm);
        assert(fp * -1 == -fp && fw * -1 == -fw) by (nonlinear_arith);
        lemma_cong_add(row[col], comb(v, a, col), -fp, -fw, mm);
    }
}

/// The attribute names of a list of strings.
pub open spec fn attrs_view(s: Seq<String>) -> Seq<Seq<char>> {
    s.map_values(|a: String| a@)
}

/// Rows whose attribute is among `attrs`, in matrix order.
pub open spec fn satisfied_rows(rows: Seq<(Seq<char>, Seq<int>)>, attrs: Seq<Seq<char>>) -> Seq<(Seq<char>, Seq<int>)>
    decreases rows.len(),
{
    if rows.len() == 0 {
        Seq::empty()
    } else {
        let s = satisfied_rows(rows.drop_last(), attrs);
        if attrs.contains(rows.last().0) {
            s.push(rows.last())
        } else {
            s
        }
    }
}

/// The vectors of a list of rows.
pub open spec fn row_vectors(rows: Seq<(Seq<char>, Seq<int>)>) -> Seq<Seq<int>> {
    rows.map_values(|r: (Seq<char>, Seq<int>)| r.1)
}

/// The coefficients `c` of the rows `s` keyed by the rows' attributes,
/// leaving out zeros; for a repeated attribute the later row wins.
pub open spec fn coefficient_map(s: Seq<(Seq<char>, Seq<int>)>, c: Seq<int>) -> Map<Seq<char>, int>
    decreases s.len(),
{
    if s.len() == 0 || c.len() == 0 {
        Map::empty()
    } else {
        let m = coefficient_map(s.drop_last(), c.drop_last());
        if c.last() != 0 {
            m.insert(s.last().0, c.last())
        } else {
            m
        }
    }
}

/// Values of a matrix of field elements.
pub open spec fn mat(aug: Seq<Vec<Fr>>) -> Seq<Seq<int>> {
    aug.map_values(|r: Vec<Fr>| scalars(r@))
}

/// Whether `a` is among `attrs`.
pub(crate) fn contains_attr(attrs: &[String], a: &str) -> (b: bool)
    ensures
        b == attrs_view(attrs@).contains(a@),
{
    let mut i: usize = 0;
    while i < attrs.len()
        invariant
            i <= attrs@.len(),
            forall|j: int| 0 <= j < i ==> attrs@[j]@ != a@,
        decreases attrs@.len() - i,
    {
        if str_eq(attrs[i].as_str(), a) {
            assert(attrs_view(attrs@)[i as int] == a@);
            return true;
        }
        i = i + 1;
    }
    proof {
        if attrs_view(attrs@).contains(a@) {
            let j = choose|j: int| 0 <= j < attrs_view(attrs@).len() && attrs_view(attrs@)[j] == a@;
            assert(attrs@[j]@ == a@);
        }
    }
    false
}

/// Each entry multiplied by `s`.
fn scale_row(row: &Vec<Fr>, s: &Fr) -> (r: Vec<Fr>)
    ensures
        r@.len() == row@.len(),
        forall|j: int| 0 <= j < row@.len() ==> #[trigger] r@[j]@ == (row@[j]@ * s@) % modulus(),
{
    let mut out: Vec<Fr> = Vec::new();
    let mut j: usize = 0;
    while j < row.len()
        invariant
            j <= row@.len(),
            out@.len() == j,
            forall|k: int| 0 <= k < j ==> #[trigger] out@[k]@ == (row@[k]@ * s@) % modulus(),
        decreases row@.len() - j,
    {
        out.push(row[j].mul(s));
        j = j + 1;
    }
    out
}

/// `row - f * p`, entry by entry.
fn sub_scaled_row(row: &Vec<Fr>, f: &Fr, p: &Vec<Fr>) -> (r: Vec<Fr>)
    requires
        row@.len() == p@.len(),
    ensures
        r@.len() == row@.len(),
        forall|j: int| 0 <= j < row@.len() ==> #[trigger] r@[j]@ == (row@[j]@ - (f@ * p@[j]@) % modulus()) % modulus(),
{
    let mut out: Vec<Fr> = Vec::new();
    let mut j: usize = 0;
    while j < row.len()
        invariant
            j <= row@.len(),
            row@.len() == p@.len(),
            out@.len() == j,
            forall|k: int| 0 <= k < j ==> #[trigger] out@[k]@ == (row@[k]@ - (f@ * p@[k]@) % modulus()) % modulus(),
        decreases row@.len() - j,
    {
        let t = f.mul(&p[j]);
        out.push(row[j].sub(&t));
        j = j + 1;
    }
    out
}

/// Rows of a pair of attribute and vector lists.
pub open spec fn zipped_rows(attrs: Seq<String>, vecs: Seq<Vec<Fr>>) -> Seq<(Seq<char>, Seq<int>)> {
    Seq::new(attrs.len(), |i: int| (attrs[i]@, scalars(vecs[i]@)))
}

impl LsssMatrix {
    /// Attributes and vectors of the rows whose attribute is among `attrs`.
    fn collect_satisfied(&self, attrs: &[String]) -> (res: (Vec<String>, Vec<Vec<Fr>>))
        requires
            forall|i: int| 0 <= i < self.rows@.len() ==> (#[trigger] self.rows@[i]).vector@.len() == self.num_cols,
        ensures
            res.0@.len() == res.1@.len(),
            forall|i: int| 0 <= i < res.1@.len() ==> (#[trigger] res.1@[i])@.len() == self.num_cols,
            zipped_rows(res.0@, res.1@) == satisfied_rows(rows_view(self.rows@), attrs_view(attrs@)),
    {
        let ghost all = rows_view(self.rows@);
        let mut names: Vec<String> = Vec::new();
        let mut vecs: Vec<Vec<Fr>> = Vec::new();
        let mut i: usize = 0;
        while i < self.rows.len()
            invariant
                i <= self.rows@.len(),
                all == rows_view(self.rows@),
                names@.len() == vecs@.len(),
                forall|k: int| 0 <= k < self.rows@.len() ==> (#[trigger] self.rows@[k]).vector@.len() == self.num_cols,
                forall|k: int| 0 <= k < vecs@.len() ==> (#[trigger] vecs@[k])@.len() == self.num_cols,
                zipped_rows(names@, vecs@) == satisfied_rows(all.take(i as int), attrs_view(attrs@)),
            decreases self.rows@.len() - i,
        {
            proof {
                assert(all.take(i + 1).drop_last() =~= all.take(i as int));
                assert(all.take(i + 1).last() == all[i as int]);
                assert(all[i as int] == row_view(self.rows@[i as int]));
            }
            if contains_attr(attrs, self.rows[i].attr.as_str()) {
                let ghost pn = names@;
                let ghost pv = vecs@;
                let v = self.rows[i].vector.clone();
                assert(scalars(v@) =~= scalars(self.rows@[i as int].vector@));
                names.push(self.rows[i].attr.clone());
                vecs.push(v);
                assert(zipped_rows(names@, vecs@) =~= zipped_rows(pn, pv).push(all[i as int]));
            }
            i = i + 1;
        }
        assert(all.take(self.rows@.len() as int) =~= all);
        (names, vecs)
    }
}

/// The single-row case: the row must be a nonzero multiple of the first
/// unit vector.
fn single_row_coefficients(attr: &String, row: &Vec<Fr>) -> (res: Result<Coefficients, &'static str>)
    requires
        row@.len() >= 1,
    ensures
        res is Ok <==> single_row_solvable(scalars(row@)),
        res matches Ok(c) ==> exists|cs: Seq<int>| {
            &&& combines_to_unit(cs, seq![scalars(row@)], row@.len())
            &&& c@ == coefficient_map(seq![(attr@, scalars(row@))], cs)
        },
        res matches Err(e) ==> e == "Need more attributes to satisfy policy",
{
    if !row[0].is_zero() {
        let mut all_others_zero = true;
        let mut j: usize = 1;
        while j < row.len()
            invariant
                1 <= j <= row@.len(),
                all_others_zero == forall|k: int| 1 <= k < j ==> #[trigger] row@[k]@ == 0,
            decreases row@.len() - j,
        {
            if !row[j].is_zero() {
                all_others_zero = false;
            }
            j = j + 1;
        }
        if all_others_zero {
            if let Some(inv) = row[0].inverse() {
                let mut coeffs = Coefficients::new();
                coeffs.insert(attr.clone(), inv);
                proof {
                    let a = seq![scalars(row@)];
                    let cs = seq![inv@];
                    assert((row@[0]@ * inv@) == inv@ * row@[0]@) by (nonlinear_arith);
                    assert forall|col: int| 0 <= col < row@.len() implies #[trigger] comb(cs, a, col) % modulus() == (if col == 0 { 1int } else { 0int }) by {
                        assert(a[0][col] == row@[col]@);
                        assert(comb_upto(cs, a, col, 0) == 0);
                        assert(comb(cs, a, col) == inv@ * row@[col]@);
                        if col > 0 {
                            assert(row@[col]@ == 0);
                            assert(inv@ * 0 == 0);
                        }
                    }
                    if inv@ == 0 {
                        assert(row@[0]@ * 0 == 0);
                    }
                    let s = seq![(attr@, scalars(row@))];
                    assert(s.drop_last() =~= Seq::<(Seq<char>, Seq<int>)>::empty());
                    assert(cs.drop_last() =~= Seq::<int>::empty());
                    assert(coefficient_map(s.drop_last(), cs.drop_last()) == Map::<Seq<char>, int>::empty());
                    assert(coefficient_map(s, cs) == Map::<Seq<char>, int>::empty().insert(attr@, inv@));
                }
                return Ok(coeffs);
            }
            assert(scalars(row@)[0] == row@[0]@);
        } else {
            proof {
                let k = choose|k: int| 1 <= k < row@.len() && #[trigger] row@[k]@ != 0;
                assert(scalars(row@)[k] == row@[k]@);
            }
        }
    }
    assert(scalars(row@)[0] == row@[0]@);
    Err("Need more attributes to satisfy policy")
}

/// `[a[i] | e_i]` for every row `a[i]`.
fn build_augmented(vecs: &Vec<Vec<Fr>>, m: usize) -> (aug: Vec<Vec<Fr>>)
    requires
        forall|i: int| 0 <= i < vecs@.len() ==> (#[trigger] vecs@[i])@.len() == m,
    ensures
        aug@.len() == vecs@.len(),
        forall|r: int| 0 <= r < aug@.len() ==> tracks(#[trigger] mat(aug@)[r], mat(vecs@), m as nat),
        forall|r: int, c: int| 0 <= r < aug@.len() && 0 <= c < m ==> #[trigger] mat(aug@)[r][c] == mat(vecs@)[r][c],
{
    let n = vecs.len();
    let ghost a = mat(vecs@);
    let mut aug: Vec<Vec<Fr>> = Vec::new();
    let mut i: usize = 0;
    while i < n
        invariant
            i <= n,
            n == vecs@.len(),
            a == mat(vecs@),
            forall|k: int| 0 <= k < vecs@.len() ==> (#[trigger] vecs@[k])@.len() == m,
            aug@.len() == i,
            forall|r: int| 0 <= r < i ==> tracks(#[trigger] mat(aug@)[r], a, m as nat),
            forall|r: int, c: int| 0 <= r < i && 0 <= c < m ==> #[trigger] mat(aug@)[r][c] == a[r][c],
        decreases n - i,
    {
        let mut row = vecs[i].clone();
        let ghost base = scalars(vecs@[i as int]@);
        assert(scalars(row@) =~= base);
        let mut j: usize = 0;
        while j < n
            invariant
                j <= n,
                scalars(row@) == base + unit(n as nat, i as int).take(j as int),
            decreases n - j,
        {
            let ghost before = row@;
            let e = if i == j { Fr::one() } else { Fr::zero() };
            row.push(e);
            assert(scalars(row@) =~= scalars(before).push(e@));
            assert(unit(n as nat, i as int).take(j + 1) =~= unit(n as nat, i as int).take(j as int).push(e@));
            assert(scalars(row@) =~= base + unit(n as nat, i as int).take(j + 1));
            j = j + 1;
        }
        proof {
            assert(unit(n as nat, i as int).take(n as int) =~= unit(n as nat, i as int));
            assert(a[i as int] == base);
            assert(a.len() == n);
            lemma_tracks_init(a, i as int, m as nat);
        }
        let ghost prev = aug@;
        aug.push(row);
        proof {
            assert forall|r: int| 0 <= r < i + 1 implies tracks(#[trigger] mat(aug@)[r], a, m as nat) by {
                if r < i {
                    assert(mat(aug@)[r] == mat(prev)[r]);
                }
            }
            assert forall|r: int, c: int| 0 <= r < i + 1 && 0 <= c < m implies #[trigger] mat(aug@)[r][c] == a[r][c] by {
                if r < i {
                    assert(mat(aug@)[r] == mat(prev)[r]);
                } else {
                    assert(mat(aug@)[r] == scalars(row@));
                    assert(scalars(row@)[c] == base[c]);
                }
            }
        }
        i = i + 1;
    }
    aug
}

/// Whether every nonzero element below the modulus has `inverse_candidate`
/// as its inverse, as Fermat's little theorem gives for the prime modulus
/// (a fact this crate does not prove).
pub open spec fn field_inverses() -> bool {
    forall|x: int| 0 < x < modulus() ==> (x * #[trigger] inverse_candidate(x)) % modulus() == 1
}

/// Whether the first `w` columns of `rows` are in reduced row echelon form
/// with pivot columns `pc`: the pivots are increasing, the pivot of row
/// `i` is a one with zeros before it in its row and everywhere else in its
/// column, and the rows after the pivot rows are zero in those columns.
pub open spec fn echelon_upto(rows: Seq<Seq<int>>, pc: Seq<int>, w: int) -> bool {
    &&& pc.len() <= rows.len()
    &&& forall|i: int, j: int| 0 <= i < j < pc.len() ==> pc[i] < pc[j]
    &&& forall|i: int| 0 <= i < pc.len() ==> 0 <= #[trigger] pc[i] < w
    &&& forall|i: int| 0 <= i < pc.len() ==> #[trigger] rows[i][pc[i]] == 1
    &&& forall|i: int, k: int| 0 <= i < pc.len() && 0 <= k < rows.len() && k != i ==> #[trigger] rows[k][pc[i]] == 0
    &&& forall|i: int, c: int| 0 <= i < pc.len() && 0 <= c < pc[i] ==> #[trigger] rows[i][c] == 0
    &&& forall|k: int, c: int| pc.len() <= k < rows.len() && 0 <= c < w ==> #[trigger] rows[k][c] == 0
}

/// Exchanging two rows at or after the pivot rows keeps the form.
proof fn lemma_echelon_swap(before: Seq<Seq<int>>, after: Seq<Seq<int>>, pc: Seq<int>, w: int, p: int, r: int)
    requires
        echelon_upto(before, pc, w),
        pc.len() <= p <= r < before.len(),
        after.len() == before.len(),
        after[p] == before[r],
        after[r] == before[p],
        forall|k: int| 0 <= k < before.len() && k != p && k != r ==> #[trigger] after[k] == before[k],
    ensures
        echelon_upto(after, pc, w),
{
    assert forall|i: int| 0 <= i < pc.len() implies #[trigger] after[i][pc[i]] == 1 by {
        assert(after[i] == before[i]);
    }
    assert forall|i: int, k: int| 0 <= i < pc.len() && 0 <= k < after.len() && k != i implies #[trigger] after[k][pc[i]] == 0 by {
        if k == p {
            assert(before[r][pc[i]] == 0);
        } else if k == r {
            assert(before[p][pc[i]] == 0);
        } else {
            assert(after[k] == before[k]);
        }
    }
    assert forall|i: int, c: int| 0 <= i < pc.len() && 0 <= c < pc[i] implies #[trigger] after[i][c] == 0 by {
        assert(after[i] == before[i]);
    }
    assert forall|k: int, c: int| pc.len() <= k < after.len() && 0 <= c < w implies #[trigger] after[k][c] == 0 by {
        if k == p {
            assert(before[r][c] == 0);
        } else if k == r {
            assert(before[p][c] == 0);
        } else {
            assert(after[k] == before[k]);
        }
    }
}

/// Scaling the row after the pivot rows keeps the form, and makes its
/// entry in column `w` a one when the factor inverts that entry.
proof fn lemma_echelon_scale(before: Seq<Seq<int>>, after: Seq<Seq<int>>, pc: Seq<int>, w: int, t: int)
    requires
        0 <= w,
        echelon_upto(before, pc, w),
        pc.len() < before.len(),
        after.len() == before.len(),
        forall|k: int| 0 <= k < before.len() ==> #[trigger] before[k].len() > w,
        after[pc.len() as int].len() == before[pc.len() as int].len(),
        forall|j: int| 0 <= j < before[pc.len() as int].len() ==> #[trigger] after[pc.len() as int][j] == (before[pc.len() as int][j] * t) % modulus(),
        (before[pc.len() as int][w] * t) % modulus() == 1,
        forall|k: int| 0 <= k < before.len() && k != pc.len() ==> #[trigger] after[k] == before[k],
    ensures
        echelon_upto(after, pc, w),
        after[pc.len() as int][w] == 1,
{
    let p = pc.len() as int;
    assert(before[p].len() > w);
    assert(after[p][w] == (before[p][w] * t) % modulus());
    assert forall|i: int| 0 <= i < pc.len() implies #[trigger] after[i][pc[i]] == 1 by {
        assert(after[i] == before[i]);
    }
    assert forall|i: int, k: int| 0 <= i < pc.len() && 0 <= k < after.len() && k != i implies #[trigger] after[k][pc[i]] == 0 by {
        if k == p {
            assert(before[p][pc[i]] == 0);
            assert(after[p][pc[i]] == (before[p][pc[i]] * t) % modulus());
        } else {
            assert(after[k] == before[k]);
        }
    }
    assert forall|i: int, c: int| 0 <= i < pc.len() && 0 <= c < pc[i] implies #[trigger] after[i][c] == 0 by {
        assert(after[i] == before[i]);
    }
    assert forall|k: int, c: int| pc.len() <= k < after.len() && 0 <= c < w implies #[trigger] after[k][c] == 0 by {
        if k == p {
            assert(before[p][c] == 0);
            assert(after[p][c] == (before[p][c] * t) % modulus());
        } else {
            assert(after[k] == before[k]);
        }
    }
}

/// What holds while column `w` is cleared around the pivot row `p` after
/// the pivot rows `pc`: the form, the one at the pivot, and zeros in the
/// column in the rows cleared so far.
pub open spec fn clearing(rows: Seq<Seq<int>>, pc: Seq<int>, w: int, upto: int) -> bool {
    &&& echelon_upto(rows, pc, w)
    &&& pc.len() < rows.len()
    &&& rows[pc.len() as int][w] == 1
    &&& forall|q: int| 0 <= q < upto && q != pc.len() ==> #[trigger] rows[q][w] == 0
}

/// Subtracting `f` times the pivot row from another row whose entry in
/// column `w` is `f` clears that entry and keeps the rest.
proof fn lemma_echelon_clear(before: Seq<Seq<int>>, after: Seq<Seq<int>>, pc: Seq<int>, w: int, k: int, f: int)
    requires
        0 <= w,
        clearing(before, pc, w, k),
        0 <= k < before.len(),
        k != pc.len(),
        forall|q: int| 0 <= q < before.len() ==> #[trigger] before[q].len() > w,
        f == before[k][w],
        0 <= f < modulus(),
        after.len() == before.len(),
        after[k].len() == before[k].len(),
        forall|j: int| 0 <= j < before[k].len() ==> #[trigger] after[k][j] == (before[k][j] - (f * before[pc.len() as int][j]) % modulus()) % modulus(),
        forall|q: int| 0 <= q < before.len() && q != k ==> #[trigger] after[q] == before[q],
    ensures
        clearing(after, pc, w, k + 1),
{
    let p = pc.len() as int;
    assert(before[k].len() > w);
    assert(before[p].len() > w);
    assert(after[k][w] == (before[k][w] - (f * before[p][w]) % modulus()) % modulus());
    assert(f * before[p][w] == f);
    assert(f % modulus() == f);
    assert(after[k][w] == 0);
    assert forall|i: int| 0 <= i < pc.len() implies #[trigger] after[i][pc[i]] == 1 by {
        if i == k {
            assert(before[p][pc[i]] == 0);
            assert(after[k][pc[i]] == (before[k][pc[i]] - (f * before[p][pc[i]]) % modulus()) % modulus());
        } else {
            assert(after[i] == before[i]);
        }
    }
    assert forall|i: int, q: int| 0 <= i < pc.len() && 0 <= q < after.len() && q != i implies #[trigger] after[q][pc[i]] == 0 by {
        if q == k {
            assert(before[p][pc[i]] == 0);
            assert(before[k][pc[i]] == 0);
            assert(after[k][pc[i]] == (before[k][pc[i]] - (f * before[p][pc[i]]) % modulus()) % modulus());
        } else {
            assert(after[q] == before[q]);
        }
    }
    assert forall|i: int, c: int| 0 <= i < pc.len() && 0 <= c < pc[i] implies #[trigger] after[i][c] == 0 by {
        if i == k {
            assert(before[p][c] == 0);
            assert(before[k][c] == 0);
            assert(after[k][c] == (before[k][c] - (f * before[p][c]) % modulus()) % modulus());
        } else {
            assert(after[i] == before[i]);
        }
    }
    assert forall|q: int, c: int| pc.len() <= q < after.len() && 0 <= c < w implies #[trigger] after[q][c] == 0 by {
        if q == k {
            assert(before[p][c] == 0);
            assert(before[k][c] == 0);
            assert(after[k][c] == (before[k][c] - (f * before[p][c]) % modulus()) % modulus());
        } else {
            assert(after[q] == before[q]);
        }
    }
    assert(after[p] == before[p]);
    assert forall|q: int| 0 <= q < k + 1 && q != p implies #[trigger] after[q][w] == 0 by {
        if q != k {
            assert(after[q] == before[q]);
        }
    }
}

/// A cleared column becomes the next pivot.
proof fn lemma_echelon_extend(rows: Seq<Seq<int>>, pc: Seq<int>, w: int)
    requires
        0 <= w,
        clearing(rows, pc, w, rows.len() as int),
    ensures
        echelon_upto(rows, pc.push(w), w + 1),
{
    let p = pc.len() as int;
    let npc = pc.push(w);
    assert forall|i: int| 0 <= i < npc.len() implies #[trigger] rows[i][npc[i]] == 1 by {
        if i < p {
            assert(npc[i] == pc[i]);
        }
    }
    assert forall|i: int, k: int| 0 <= i < npc.len() && 0 <= k < rows.len() && k != i implies #[trigger] rows[k][npc[i]] == 0 by {
        if i < p {
            assert(npc[i] == pc[i]);
        }
    }
    assert forall|i: int, c: int| 0 <= i < npc.len() && 0 <= c < npc[i] implies #[trigger] rows[i][c] == 0 by {
        if i < p {
            assert(npc[i] == pc[i]);
        }
    }
    assert forall|i: int, j: int| 0 <= i < j < npc.len() implies npc[i] < npc[j] by {
        assert(npc[i] == pc[i]);
        if j < p {
            assert(npc[j] == pc[j]);
        }
    }
    assert forall|i: int| 0 <= i < npc.len() implies 0 <= #[trigger] npc[i] < w + 1 by {
        if i < p {
            assert(npc[i] == pc[i]);
        }
    }
}

/// A column that is zero in every row after the pivot rows adds no pivot.
proof fn lemma_echelon_skip(rows: Seq<Seq<int>>, pc: Seq<int>, w: int)
    requires
        echelon_upto(rows, pc, w),
        forall|q: int| pc.len() <= q < rows.len() ==> #[trigger] rows[q][w] == 0,
    ensures
        echelon_upto(rows, pc, w + 1),
{
    assert forall|k: int, c: int| pc.len() <= k < rows.len() && 0 <= c < w + 1 implies #[trigger] rows[k][c] == 0 by {
        if c == w {
            assert(rows[k][w] == 0);
        }
    }
}

/// The coefficients `u` express each starting row `a[t]` through the rows
/// `rows`, in the first `m` columns, modulo r.
pub open spec fn back_tracks(u: Seq<Seq<int>>, a: Seq<Seq<int>>, rows: Seq<Seq<int>>, m: nat) -> bool {
    &&& u.len() == a.len()
    &&& forall|t: int| 0 <= t < u.len() ==> (#[trigger] u[t]).len() == rows.len()
    &&& forall|t: int, col: int| 0 <= t < u.len() && 0 <= col < m ==> #[trigger] a[t][col] % modulus() == comb(u[t], rows, col) % modulus()
}

/// Each coefficient list with entries `p` and `r` exchanged.
pub open spec fn swap_cols(u: Seq<Seq<int>>, p: int, r: int) -> Seq<Seq<int>> {
    u.map_values(|c: Seq<int>| c.update(p, c[r]).update(r, c[p]))
}

/// Each coefficient list with entry `p` multiplied by `x`.
pub open spec fn scale_col(u: Seq<Seq<int>>, p: int, x: int) -> Seq<Seq<int>> {
    u.map_values(|c: Seq<int>| c.update(p, c[p] * x))
}

/// Each coefficient list with `f` times entry `k` added to entry `p`.
pub open spec fn add_col(u: Seq<Seq<int>>, p: int, k: int, f: int) -> Seq<Seq<int>> {
    u.map_values(|c: Seq<int>| c.update(p, c[p] + f * c[k]))
}

/// Two combinations that differ only in their terms at `i1` and `i2`
/// differ by the change of those terms.
proof fn lemma_comb_diff(c: Seq<int>, a: Seq<Seq<int>>, c2: Seq<int>, a2: Seq<Seq<int>>, col: int, i1: int, i2: int, k: nat)
    requires
        0 <= i1 < i2,
        forall|j: int| 0 <= j < k && j != i1 && j != i2 ==> #[trigger] c2[j] * a2[j][col] == c[j] * a[j][col],
    ensures
        comb_upto(c2, a2, col, k) == comb_upto(c, a, col, k) + (if i1 < k { c2[i1] * a2[i1][col] - c[i1] * a[i1][col] } else { 0 }) + (
        if i2 < k { c2[i2] * a2[i2][col] - c[i2] * a[i2][col] } else { 0 }),
    decreases k,
{
    if k > 0 {
        lemma_comb_diff(c, a, c2, a2, col, i1, i2, (k - 1) as nat);
        let j = k - 1;
        if j != i1 && j != i2 {
            assert(c2[j] * a2[j][col] == c[j] * a[j][col]);
        }
    }
}

/// Adding a multiple of the modulus keeps the residue.
proof fn lemma_mod_shift(x: int, d: int)
    requires
        d % modulus() == 0,
    ensures
        (x + d) % modulus() == x % modulus(),
{
    lemma_add_mod_noop(x, d, modulus());
    lemma_mod_twice(x, modulus());
}

/// The change in the terms at `i1` and `i2` of the combination for row
/// `t` and column `col`, positions past the rows counting nothing.
pub open spec fn step_delta(u: Seq<Seq<int>>, rows: Seq<Seq<int>>, u2: Seq<Seq<int>>, rows2: Seq<Seq<int>>, t: int, col: int, i1: int, i2: int) -> int {
    (if i1 < rows.len() { u2[t][i1] * rows2[i1][col] - u[t][i1] * rows[i1][col] } else { 0 }) + (
    if i2 < rows.len() { u2[t][i2] * rows2[i2][col] - u[t][i2] * rows[i2][col] } else { 0 })
}

/// Moving to other rows and coefficients whose combinations differ by
/// multiples of the modulus keeps the back-tracking.
proof fn lemma_back_step(u: Seq<Seq<int>>, a: Seq<Seq<int>>, rows: Seq<Seq<int>>, u2: Seq<Seq<int>>, rows2: Seq<Seq<int>>, m: nat, i1: int, i2: int)
    requires
        back_tracks(u, a, rows, m),
        u2.len() == u.len(),
        rows2.len() == rows.len(),
        forall|t: int| 0 <= t < u.len() ==> (#[trigger] u2[t]).len() == rows.len(),
        0 <= i1 < i2,
        forall|t: int, col: int, j: int| #![trigger u2[t][j], rows2[j][col]] 0 <= t < u.len() && 0 <= col < m && 0 <= j < rows.len() && j != i1 && j != i2
            ==> u2[t][j] * rows2[j][col] == u[t][j] * rows[j][col],
        forall|t: int, col: int| 0 <= t < u.len() && 0 <= col < m ==> #[trigger] step_delta(u, rows, u2, rows2, t, col, i1, i2) % modulus() == 0,
    ensures
        back_tracks(u2, a, rows2, m),
{
    assert forall|t: int, col: int| 0 <= t < u2.len() && 0 <= col < m implies #[trigger] a[t][col] % modulus() == comb(u2[t], rows2, col) % modulus() by {
        assert forall|j: int| 0 <= j < rows.len() && j != i1 && j != i2 implies #[trigger] u2[t][j] * rows2[j][col] == u[t][j] * rows[j][col] by {
        }
        lemma_comb_diff(u[t], rows, u2[t], rows2, col, i1, i2, rows.len());
        let d = step_delta(u, rows, u2, rows2, t, col, i1, i2);
        assert(d % modulus() == 0);
        lemma_mod_shift(comb(u[t], rows, col), d);
    }
}

/// Exchanging two rows and the matching coefficients keeps the back-tracking.
proof fn lemma_back_swap(u: Seq<Seq<int>>, a: Seq<Seq<int>>, rows: Seq<Seq<int>>, rows2: Seq<Seq<int>>, m: nat, p: int, r: int)
    requires
        back_tracks(u, a, rows, m),
        0 <= p < r < rows.len(),
        rows2.len() == rows.len(),
        rows2[p] == rows[r],
        rows2[r] == rows[p],
        forall|j: int| 0 <= j < rows.len() && j != p && j != r ==> #[trigger] rows2[j] == rows[j],
    ensures
        back_tracks(swap_cols(u, p, r), a, rows2, m),
{
    let u2 = swap_cols(u, p, r);
    assert forall|t: int| 0 <= t < u.len() implies (#[trigger] u2[t]).len() == rows.len() by {
    }
    assert forall|t: int, col: int, j: int| #![trigger u2[t][j], rows2[j][col]] 0 <= t < u.len() && 0 <= col < m && 0 <= j < rows.len() && j != p && j != r
        implies u2[t][j] * rows2[j][col] == u[t][j] * rows[j][col] by {
        assert(u2[t][j] == u[t][j]);
        assert(rows2[j] == rows[j]);
    }
    assert forall|t: int, col: int| 0 <= t < u.len() && 0 <= col < m implies #[trigger] step_delta(u, rows, u2, rows2, t, col, p, r) % modulus() == 0 by {
        assert(u2[t][p] == u[t][r]);
        assert(u2[t][r] == u[t][p]);
    }
    lemma_back_step(u, a, rows, u2, rows2, m, p, r);
}

/// `u * x * ((y * t) % r)` is congruent to `u * y` when `x * t` is one.
proof fn lemma_scale_cong(u: int, x: int, y: int, t: int)
    requires
        (x * t) % modulus() == 1,
    ensures
        (u * x * ((y * t) % modulus()) - u * y) % modulus() == 0,
{
    let mm = modulus();
    let lhs = u * x * ((y * t) % mm);
    lemma_mul_mod_noop_right(u * x, y * t, mm);
    assert(u * x * (y * t) == (u * y) * (x * t)) by (nonlinear_arith);
    lemma_mul_mod_noop_right(u * y, x * t, mm);
    assert((u * y) * ((x * t) % mm) == u * y);
    lemma_sub_mod_noop(lhs, u * y, mm);
    lemma_mod_twice(u * y, mm);
}

/// Scaling a row by `t`, the inverse of `x`, and its coefficients by `x`
/// keeps the back-tracking.
proof fn lemma_back_scale(u: Seq<Seq<int>>, a: Seq<Seq<int>>, rows: Seq<Seq<int>>, rows2: Seq<Seq<int>>, m: nat, p: int, x: int, t: int)
    requires
        back_tracks(u, a, rows, m),
        0 <= p < rows.len(),
        rows2.len() == rows.len(),
        rows[p].len() >= m,
        rows2[p].len() == rows[p].len(),
        forall|j: int| 0 <= j < rows[p].len() ==> #[trigger] rows2[p][j] == (rows[p][j] * t) % modulus(),
        (x * t) % modulus() == 1,
        forall|j: int| 0 <= j < rows.len() && j != p ==> #[trigger] rows2[j] == rows[j],
    ensures
        back_tracks(scale_col(u, p, x), a, rows2, m),
{
    let u2 = scale_col(u, p, x);
    let i2 = rows.len() as int;
    assert forall|q: int| 0 <= q < u.len() implies (#[trigger] u2[q]).len() == rows.len() by {
    }
    assert forall|q: int, col: int, j: int| #![trigger u2[q][j], rows2[j][col]] 0 <= q < u.len() && 0 <= col < m && 0 <= j < rows.len() && j != p && j != i2
        implies u2[q][j] * rows2[j][col] == u[q][j] * rows[j][col] by {
        assert(u2[q][j] == u[q][j]);
        assert(rows2[j] == rows[j]);
    }
    assert forall|q: int, col: int| 0 <= q < u.len() && 0 <= col < m implies #[trigger] step_delta(u, rows, u2, rows2, q, col, p, i2) % modulus() == 0 by {
        assert(u2[q][p] == u[q][p] * x);
        assert(rows2[p][col] == (rows[p][col] * t) % modulus());
        lemma_scale_cong(u[q][p], x, rows[p][col], t);
    }
    lemma_back_step(u, a, rows, u2, rows2, m, p, i2);
}

/// The change of subtracting `f * z` from row entry `y`, with `w + f * v`
/// taking the place of coefficient `w`, is a multiple of the modulus.
proof fn lemma_sub_cong(v: int, y: int, f: int, z: int, w: int)
    ensures
        (v * ((y - (f * z) % modulus()) % modulus()) - v * y + ((w + f * v) * z - w * z)) % modulus() == 0,
{
    let mm = modulus();
    let y2 = y - (f * z) % mm;
    let lhs = v * (y2 % mm);
    lemma_mul_mod_noop_right(v, y2, mm);
    assert(v * y2 == v * y - v * ((f * z) % mm)) by (nonlinear_arith)
        requires y2 == y - (f * z) % mm;
    lemma_sub_mod_noop_right(v * y, v * ((f * z) % mm), mm);
    lemma_mul_mod_noop_right(v, f * z, mm);
    lemma_sub_mod_noop_right(v * y, v * (f * z), mm);
    assert(v * (f * z) == f * v * z) by (nonlinear_arith);
    assert((w + f * v) * z - w * z == f * v * z) by (nonlinear_arith);
    let b = v * y - f * v * z;
    assert(lhs % mm == b % mm);
    assert(lhs - v * y + f * v * z == lhs - b);
    lemma_sub_mod_noop(lhs, b, mm);
    lemma_mod_twice(b, mm);
}

/// Subtracting `f` times row `p` from row `k`, and adding `f` times each
/// coefficient `k` to coefficient `p`, keeps the back-tracking.
proof fn lemma_back_sub(u: Seq<Seq<int>>, a: Seq<Seq<int>>, rows: Seq<Seq<int>>, rows2: Seq<Seq<int>>, m: nat, k: int, p: int, f: int)
    requires
        back_tracks(u, a, rows, m),
        0 <= k < rows.len(),
        0 <= p < rows.len(),
        k != p,
        rows2.len() == rows.len(),
        rows[k].len() >= m,
        rows2[k].len() == rows[k].len(),
        rows[p].len() == rows[k].len(),
        forall|j: int| 0 <= j < rows[k].len() ==> #[trigger] rows2[k][j] == (rows[k][j] - (f * rows[p][j]) % modulus()) % modulus(),
        forall|j: int| 0 <= j < rows.len() && j != k ==> #[trigger] rows2[j] == rows[j],
    ensures
        back_tracks(add_col(u, p, k, f), a, rows2, m),
{
    let u2 = add_col(u, p, k, f);
    let i1 = if k < p { k } else { p };
    let i2 = if k < p { p } else { k };
    assert forall|q: int| 0 <= q < u.len() implies (#[trigger] u2[q]).len() == rows.len() by {
    }
    assert forall|q: int, col: int, j: int| #![trigger u2[q][j], rows2[j][col]] 0 <= q < u.len() && 0 <= col < m && 0 <= j < rows.len() && j != i1 && j != i2
        implies u2[q][j] * rows2[j][col] == u[q][j] * rows[j][col] by {
        assert(u2[q][j] == u[q][j]);
        assert(rows2[j] == rows[j]);
    }
    assert forall|q: int, col: int| 0 <= q < u.len() && 0 <= col < m implies #[trigger] step_delta(u, rows, u2, rows2, q, col, i1, i2) % modulus() == 0 by {
        assert(u2[q][k] == u[q][k]);
        assert(u2[q][p] == u[q][p] + f * u[q][k]);
        assert(rows2[p] == rows[p]);
        assert(rows2[k][col] == (rows[k][col] - (f * rows[p][col]) % modulus()) % modulus());
        lemma_sub_cong(u[q][k], rows[k][col], f, rows[p][col], u[q][p]);
    }
    lemma_back_step(u, a, rows, u2, rows2, m, i1, i2);
}

/// The starting rows are expressed through themselves by unit coefficients.
proof fn lemma_back_init(a: Seq<Seq<int>>, rows: Seq<Seq<int>>, m: nat)
    requires
        rows.len() == a.len(),
        forall|r: int, c: int| 0 <= r < rows.len() && 0 <= c < m ==> #[trigger] rows[r][c] == a[r][c],
    ensures
        back_tracks(Seq::new(a.len(), |t: int| unit(a.len(), t)), a, rows, m),
{
    let u = Seq::new(a.len(), |t: int| unit(a.len(), t));
    assert forall|t: int, col: int| 0 <= t < u.len() && 0 <= col < m implies #[trigger] a[t][col] % modulus() == comb(u[t], rows, col) % modulus() by {
        lemma_comb_unit(rows, t, col, rows.len());
        assert(rows[t][col] == a[t][col]);
    }
}

/// `d2 = d1 + s * v` entrywise makes the combinations add up the same way.
proof fn lemma_comb_add(d1: Seq<int>, d2: Seq<int>, v: Seq<int>, s: int, rows: Seq<Seq<int>>, col: int, k: nat)
    requires
        forall|j: int| 0 <= j < k ==> #[trigger] d2[j] == d1[j] + s * v[j],
    ensures
        comb_upto(d2, rows, col, k) == comb_upto(d1, rows, col, k) + s * comb_upto(v, rows, col, k),
    decreases k,
{
    if k > 0 {
        let k1 = (k - 1) as nat;
        lemma_comb_add(d1, d2, v, s, rows, col, k1);
        let j = k1 as int;
        let x = rows[j][col];
        let cu = comb_upto(v, rows, col, k1);
        assert(d2[j] * x == d1[j] * x + s * (v[j] * x)) by (nonlinear_arith)
            requires d2[j] == d1[j] + s * v[j];
        assert(s * cu + s * (v[j] * x) == s * (cu + v[j] * x)) by (nonlinear_arith);
    }
}

/// The coefficient of row `j` when the combinations `u[t]` are weighted by
/// `cs[t]`, for the first `n` of them.
pub open spec fn weighted_coef(cs: Seq<int>, u: Seq<Seq<int>>, j: int, n: nat) -> int
    decreases n,
{
    if n == 0 {
        0
    } else {
        weighted_coef(cs, u, j, (n - 1) as nat) + cs[n - 1] * u[n - 1][j]
    }
}

/// The combinations `u[t]` weighted by `cs[t]`, summed, for the first `n`.
pub open spec fn weighted_combs(cs: Seq<int>, u: Seq<Seq<int>>, rows: Seq<Seq<int>>, col: int, n: nat) -> int
    decreases n,
{
    if n == 0 {
        0
    } else {
        weighted_combs(cs, u, rows, col, (n - 1) as nat) + cs[n - 1] * comb(u[n - 1], rows, col)
    }
}

/// A weighted sum of combinations is the combination of the summed
/// coefficients.
proof fn lemma_weighted_combs(cs: Seq<int>, u: Seq<Seq<int>>, rows: Seq<Seq<int>>, col: int, n: nat)
    ensures
        weighted_combs(cs, u, rows, col, n) == comb(Seq::new(rows.len(), |j: int| weighted_coef(cs, u, j, n)), rows, col),
    decreases n,
{
    let d2 = Seq::new(rows.len(), |j: int| weighted_coef(cs, u, j, n));
    if n == 0 {
        lemma_comb_add(Seq::new(rows.len(), |j: int| 0int), d2, d2, 0, rows, col, rows.len());
        lemma_comb_zero(rows, col, rows.len());
    } else {
        let n1 = (n - 1) as nat;
        lemma_weighted_combs(cs, u, rows, col, n1);
        let d1 = Seq::new(rows.len(), |j: int| weighted_coef(cs, u, j, n1));
        lemma_comb_add(d1, d2, u[n1 as int], cs[n1 as int], rows, col, rows.len());
    }
}

/// The combination with all-zero coefficients is zero.
proof fn lemma_comb_zero(rows: Seq<Seq<int>>, col: int, k: nat)
    requires
        k <= rows.len(),
    ensures
        comb_upto(Seq::new(rows.len(), |j: int| 0int), rows, col, k) == 0,
    decreases k,
{
    if k > 0 {
        lemma_comb_zero(rows, col, (k - 1) as nat);
    }
}

/// Through back-tracking coefficients, a combination of the starting rows
/// is congruent to the weighted sum of the rows' combinations.
proof fn lemma_comb_back(cs: Seq<int>, u: Seq<Seq<int>>, a: Seq<Seq<int>>, rows: Seq<Seq<int>>, m: nat, col: int, k: nat)
    requires
        back_tracks(u, a, rows, m),
        0 <= col < m,
        k <= a.len(),
    ensures
        comb_upto(cs, a, col, k) % modulus() == weighted_combs(cs, u, rows, col, k) % modulus(),
    decreases k,
{
    let mm = modulus();
    if k > 0 {
        let k1 = (k - 1) as nat;
        let t = k1 as int;
        lemma_comb_back(cs, u, a, rows, m, col, k1);
        let x = a[t][col];
        let y = comb(u[t], rows, col);
        assert(x % mm == y % mm);
        lemma_mul_mod_noop_right(cs[t], x, mm);
        lemma_mul_mod_noop_right(cs[t], y, mm);
        let p = comb_upto(cs, a, col, k1);
        let q = weighted_combs(cs, u, rows, col, k1);
        lemma_add_mod_noop(p, cs[t] * x, mm);
        lemma_add_mod_noop(q, cs[t] * y, mm);
    }
}

/// A combination over rows that are all zero in a column, but for row `i`,
/// is the term of row `i`.
proof fn lemma_comb_single(d: Seq<int>, rows: Seq<Seq<int>>, col: int, i: int, k: nat)
    requires
        forall|j: int| 0 <= j < k && j != i ==> #[trigger] rows[j][col] == 0,
    ensures
        comb_upto(d, rows, col, k) == (if 0 <= i < k { d[i] * rows[i][col] } else { 0 }),
    decreases k,
{
    if k > 0 {
        lemma_comb_single(d, rows, col, i, (k - 1) as nat);
        let j = k - 1;
        if j != i {
            assert(rows[j][col] == 0);
            assert(d[j] * rows[j][col] == 0);
        }
    }
}

/// Termwise congruent combinations are congruent.
proof fn lemma_comb_cong(d: Seq<int>, d2: Seq<int>, rows: Seq<Seq<int>>, col: int, k: nat)
    requires
        forall|j: int| 0 <= j < k ==> (#[trigger] (d[j] * rows[j][col])) % modulus() == (d2[j] * rows[j][col]) % modulus(),
    ensures
        comb_upto(d, rows, col, k) % modulus() == comb_upto(d2, rows, col, k) % modulus(),
    decreases k,
{
    if k > 0 {
        let k1 = (k - 1) as nat;
        let j = k1 as int;
        lemma_comb_cong(d, d2, rows, col, k1);
        assert((d[j] * rows[j][col]) % modulus() == (d2[j] * rows[j][col]) % modulus());
        lemma_add_mod_noop(comb_upto(d, rows, col, k1), d[j] * rows[j][col], modulus());
        lemma_add_mod_noop(comb_upto(d2, rows, col, k1), d2[j] * rows[j][col], modulus());
    }
}

/// Whether `rows`, in their first `m` columns, lead with the first unit
/// vector: row 0 has a one in column 0 and, modulo r, zeros after it, and
/// every other row is zero in column 0.
pub open spec fn leads_with_unit(rows: Seq<Seq<int>>, m: nat) -> bool {
    &&& rows.len() > 0
    &&& rows[0][0] == 1
    &&& forall|j: int| 1 <= j < rows.len() ==> #[trigger] rows[j][0] == 0
    &&& forall|c: int| 1 <= c < m ==> #[trigger] rows[0][c] % modulus() == 0
}

/// If the starting rows combine into the first unit vector, rows in reduced
/// echelon form that express them lead with that unit vector.
proof fn lemma_unit_in_span(a: Seq<Seq<int>>, rows: Seq<Seq<int>>, u: Seq<Seq<int>>, pc: Seq<int>, m: nat, cs: Seq<int>)
    requires
        m >= 1,
        rows.len() == a.len(),
        forall|k: int| 0 <= k < rows.len() ==> #[trigger] rows[k].len() >= m,
        back_tracks(u, a, rows, m),
        echelon_upto(rows, pc, m as int),
        combines_to_unit(cs, a, m),
    ensures
        leads_with_unit(rows, m),
{
    let mm = modulus();
    let n = rows.len();
    let d = Seq::new(n, |j: int| weighted_coef(cs, u, j, a.len()));
    // Every column of the combination `d` of the rows is that of the unit vector.
    assert forall|c: int| 0 <= c < m implies #[trigger] comb(d, rows, c) % mm == (if c == 0 { 1int } else { 0int }) by {
        lemma_comb_back(cs, u, a, rows, m, c, a.len());
        lemma_weighted_combs(cs, u, rows, c, a.len());
        assert(d =~= Seq::new(rows.len(), |j: int| weighted_coef(cs, u, j, a.len())));
        assert(comb(cs, a, c) % mm == (if c == 0 { 1int } else { 0int }));
    }
    // Column 0 is a pivot column, the first one.
    if pc.len() == 0 || pc[0] != 0 {
        assert forall|j: int| 0 <= j < n && j != -1 implies #[trigger] rows[j][0] == 0 by {
            if j < pc.len() {
                assert(pc[0] <= pc[j]) by {
                    if j > 0 {
                        assert(pc[0] < pc[j]);
                    }
                }
                assert(0 < pc[j]);
            }
        }
        lemma_comb_single(d, rows, 0, -1, n);
        assert(comb(d, rows, 0) % mm == 1);
        assert(false);
    }
    assert(pc[0] == 0);
    assert(rows[0][0] == 1);
    // The coefficient of each other pivot row is zero, and that of row 0 one.
    assert forall|i: int| 0 <= i < pc.len() implies (#[trigger] d[i]) % mm == (if i == 0 { 1int } else { 0int }) by {
        assert(0 <= pc[i] < m);
        assert forall|j: int| 0 <= j < n && j != i implies #[trigger] rows[j][pc[i]] == 0 by {
        }
        lemma_comb_single(d, rows, pc[i], i, n);
        assert(rows[i][pc[i]] == 1);
        assert(comb(d, rows, pc[i]) == d[i]);
        assert(comb(d, rows, pc[i]) % mm == (if pc[i] == 0 { 1int } else { 0int }));
        if i > 0 {
            assert(pc[0] < pc[i]);
        }
    }
    assert forall|j: int| 1 <= j < n implies #[trigger] rows[j][0] == 0 by {
        assert(rows[j][pc[0]] == 0);
    }
    let e = unit(n, 0);
    assert forall|c: int| 1 <= c < m implies #[trigger] rows[0][c] % mm == 0 by {
        assert forall|j: int| 0 <= j < n implies (#[trigger] (d[j] * rows[j][c])) % mm == (e[j] * rows[j][c]) % mm by {
            lemma_mul_mod_noop_left(d[j], rows[j][c], mm);
            if j == 0 {
                assert(d[0] % mm == 1);
                assert(e[0] == 1);
            } else if j < pc.len() {
                assert(d[j] % mm == 0);
                assert(e[j] == 0);
            } else {
                assert(rows[j][c] == 0);
                assert(e[j] == 0);
            }
        }
        lemma_comb_cong(d, e, rows, c, n);
        lemma_comb_unit(rows, 0, c, n);
        assert(comb(d, rows, c) % mm == 0);
    }
}

/// Gauss-Jordan elimination on the augmented rows, column by column; every
/// row keeps tracking its combination of the starting rows, and, provided
/// every nonzero element has its candidate inverse, the first `m` columns
/// end in reduced row echelon form.
fn eliminate(aug: &mut Vec<Vec<Fr>>, m: usize, Ghost(a): Ghost<Seq<Seq<int>>>)
    requires
        old(aug)@.len() == a.len(),
        forall|r: int| 0 <= r < old(aug)@.len() ==> tracks(#[trigger] mat(old(aug)@)[r], a, m as nat),
        forall|r: int, c: int| 0 <= r < old(aug)@.len() && 0 <= c < m ==> #[trigger] mat(old(aug)@)[r][c] == a[r][c],
    ensures
        exists|u: Seq<Seq<int>>| back_tracks(u, a, mat(final(aug)@), m as nat),
        final(aug)@.len() == a.len(),
        forall|r: int| 0 <= r < final(aug)@.len() ==> tracks(#[trigger] mat(final(aug)@)[r], a, m as nat),
        field_inverses() ==> exists|pc: Seq<int>| echelon_upto(mat(final(aug)@), pc, m as int),
{
    let n = aug.len();
    let mut pivot_row: usize = 0;
    let mut col: usize = 0;
    let ghost mut pc: Seq<int> = Seq::empty();
    let ghost mut clean: bool = true;
    let ghost mut u: Seq<Seq<int>> = Seq::new(a.len(), |t: int| unit(a.len(), t));
    proof {
        lemma_back_init(a, mat(aug@), m as nat);
    }
    while col < m && pivot_row < n
        invariant
            aug@.len() == n,
            n == a.len(),
            pivot_row <= n,
            col <= m,
            forall|r: int| 0 <= r < n ==> tracks(#[trigger] mat(aug@)[r], a, m as nat),
            clean ==> pc.len() == pivot_row && echelon_upto(mat(aug@), pc, col as int),
            !clean ==> !field_inverses(),
            back_tracks(u, a, mat(aug@), m as nat),
        decreases m - col,
    {
        proof {
            assert forall|r: int| 0 <= r < n implies (#[trigger] aug@[r])@.len() == m + n by {
                assert(mat(aug@)[r] == scalars(aug@[r]@));
            }
            assert forall|r: int| 0 <= r < n implies #[trigger] mat(aug@)[r].len() > col by {
                assert(mat(aug@)[r] == scalars(aug@[r]@));
            }
        }
        // Find a pivot at or below `pivot_row`.
        let mut r = pivot_row;
        let mut found = false;
        while r < n && !found
            invariant
                pivot_row <= r <= n,
                found ==> r < n && mat(aug@)[r as int][col as int] != 0 && 0 <= mat(aug@)[r as int][col as int] < modulus(),
                aug@.len() == n,
                forall|k: int| 0 <= k < n ==> (#[trigger] aug@[k])@.len() == m + n,
                forall|q: int| pivot_row <= q < r ==> #[trigger] mat(aug@)[q][col as int] == 0,
                col < m,
            decreases n - r, if found { 0int } else { 1int },
        {
            proof {
                assert(mat(aug@)[r as int] == scalars(aug@[r as int]@));
            }
            if !aug[r][col].is_zero() {
                found = true;
            } else {
                r = r + 1;
            }
        }
        if !found {
            proof {
                if clean {
                    lemma_echelon_skip(mat(aug@), pc, col as int);
                }
            }
        }
        if found {
            if r != pivot_row {
                let upper = aug[pivot_row].clone();
                let lower = aug[r].clone();
                let ghost before = aug@;
                proof {
                    assert(scalars(upper@) =~= scalars(before[pivot_row as int]@));
                    assert(scalars(lower@) =~= scalars(before[r as int]@));
                }
                aug.set(r, upper);
                aug.set(pivot_row, lower);
                proof {
                    assert forall|k: int| 0 <= k < n implies tracks(#[trigger] mat(aug@)[k], a, m as nat) by {
                        if k == r as int {
                            assert(mat(aug@)[k] == mat(before)[pivot_row as int]);
                        } else if k == pivot_row as int {
                            assert(mat(aug@)[k] == mat(before)[r as int]);
                        } else {
                            assert(mat(aug@)[k] == mat(before)[k]);
                        }
                    }
                    assert(mat(aug@)[pivot_row as int] == mat(before)[r as int]);
                    assert forall|k: int| 0 <= k < n && k != pivot_row && k != r implies #[trigger] mat(aug@)[k] == mat(before)[k] by {
                    }
                    assert(mat(aug@)[r as int] == mat(before)[pivot_row as int]);
                    if clean {
                        lemma_echelon_swap(mat(before), mat(aug@), pc, col as int, pivot_row as int, r as int);
                    }
                    lemma_back_swap(u, a, mat(before), mat(aug@), m as nat, pivot_row as int, r as int);
                    u = swap_cols(u, pivot_row as int, r as int);
                }
            }
            proof {
                assert(mat(aug@)[pivot_row as int] == scalars(aug@[pivot_row as int]@));
            }
            let ghost x = mat(aug@)[pivot_row as int][col as int];
            match aug[pivot_row][col].inverse() {
                None => {
                    proof {
                        if field_inverses() {
                            assert(0 < x < modulus());
                            assert((x * inverse_candidate(x)) % modulus() == 1);
                        }
                        clean = false;
                    }
                },
                Some(inv) => {
                    let scaled = scale_row(&aug[pivot_row], &inv);
                    let ghost before = aug@;
                    proof {
                        assert(mat(before)[pivot_row as int] == scalars(before[pivot_row as int]@));
                        lemma_tracks_scale(mat(before)[pivot_row as int], inv@, scalars(scaled@), a, m as nat);
                    }
                    aug.set(pivot_row, scaled);
                    proof {
                        assert forall|k: int| 0 <= k < n implies tracks(#[trigger] mat(aug@)[k], a, m as nat) by {
                            if k != pivot_row as int {
                                assert(mat(aug@)[k] == mat(before)[k]);
                            }
                        }
                        assert(mat(aug@)[pivot_row as int] == scalars(scaled@));
                        assert forall|k: int| 0 <= k < n && k != pivot_row implies #[trigger] mat(aug@)[k] == mat(before)[k] by {
                        }
                        if clean {
                            lemma_echelon_scale(mat(before), mat(aug@), pc, col as int, inv@);
                            assert(clearing(mat(aug@), pc, col as int, 0));
                        }
                        assert(mat(before)[pivot_row as int].len() == m + n);
                        lemma_back_scale(u, a, mat(before), mat(aug@), m as nat, pivot_row as int, x, inv@);
                        u = scale_col(u, pivot_row as int, x);
                    }
                    // Eliminate the column from every other row.
                    let mut k: usize = 0;
                    while k < n
                        invariant
                            k <= n,
                            aug@.len() == n,
                            n == a.len(),
                            pivot_row < n,
                            col < m,
                            forall|q: int| 0 <= q < n ==> tracks(#[trigger] mat(aug@)[q], a, m as nat),
                            clean ==> pc.len() == pivot_row && clearing(mat(aug@), pc, col as int, k as int),
                            back_tracks(u, a, mat(aug@), m as nat),
                        decreases n - k,
                    {
                        proof {
                            assert(mat(aug@)[k as int] == scalars(aug@[k as int]@));
                            assert(mat(aug@)[pivot_row as int] == scalars(aug@[pivot_row as int]@));
                            assert forall|q: int| 0 <= q < n implies #[trigger] mat(aug@)[q].len() > col by {
                                assert(mat(aug@)[q] == scalars(aug@[q]@));
                            }
                        }
                        if k != pivot_row && !aug[k][col].is_zero() {
                            let factor = aug[k][col];
                            let updated = sub_scaled_row(&aug[k], &factor, &aug[pivot_row]);
                            let ghost before = aug@;
                            proof {
                                lemma_tracks_sub(mat(before)[k as int], mat(before)[pivot_row as int], factor@, scalars(updated@), a, m as nat);
                            }
                            aug.set(k, updated);
                            proof {
                                assert forall|q: int| 0 <= q < n implies tracks(#[trigger] mat(aug@)[q], a, m as nat) by {
                                    if q != k as int {
                                        assert(mat(aug@)[q] == mat(before)[q]);
                                    }
                                }
                                assert(mat(aug@)[k as int] == scalars(updated@));
                                assert forall|q: int| 0 <= q < n && q != k implies #[trigger] mat(aug@)[q] == mat(before)[q] by {
                                }
                                if clean {
                                    lemma_echelon_clear(mat(before), mat(aug@), pc, col as int, k as int, factor@);
                                }
                                assert(mat(before)[k as int].len() == m + n);
                                assert(mat(before)[pivot_row as int].len() == m + n);
                                lemma_back_sub(u, a, mat(before), mat(aug@), m as nat, k as int, pivot_row as int, factor@);
                                u = add_col(u, pivot_row as int, k as int, factor@);
                            }
                        } else {
                            proof {
                                if clean {
                                    assert forall|q: int| 0 <= q < k + 1 && q != pc.len() implies #[trigger] mat(aug@)[q][col as int] == 0 by {
                                    }
                                }
                            }
                        }
                        k = k + 1;
                    }
                    proof {
                        if clean {
                            lemma_echelon_extend(mat(aug@), pc, col as int);
                            pc = pc.push(col as int);
                        }
                    }
                    pivot_row = pivot_row + 1;
                },
            }
        }
        col = col + 1;
    }
    proof {
        if field_inverses() {
            assert(clean);
            if col < m {
                assert(pivot_row == n);
                assert forall|k: int, c: int| pc.len() <= k < mat(aug@).len() && 0 <= c < m implies #[trigger] mat(aug@)[k][c] == 0 by {
                }
                assert forall|i: int| 0 <= i < pc.len() implies 0 <= #[trigger] pc[i] < m by {
                }
            }
            assert(echelon_upto(mat(aug@), pc, m as int));
        }
    }
}

/// Whether a lone row yields the unit vector on its own: its first entry
/// is nonzero and has an inverse, and all others are zero.
pub open spec fn single_row_solvable(v: Seq<int>) -> bool {
    &&& v[0] != 0
    &&& forall|k: int| 1 <= k < v.len() ==> #[trigger] v[k] == 0
    &&& (v[0] * inverse_candidate(v[0])) % modulus() == 1
}

impl LsssMatrix {
    /// The rows whose attribute is among `attrs`, in matrix order.
    pub open spec fn satisfied_by(&self, attrs: Seq<Seq<char>>) -> Seq<(Seq<char>, Seq<int>)> {
        satisfied_rows(rows_view(self.rows@), attrs)
    }

    /// Recover coefficients for reconstruction given satisfied attributes
    ///
    /// Returns a map from attribute to coefficient for reconstruction.
    /// The secret can be recovered as: s = sum(coeff_i * share_i) for all i in subset
    pub fn recover_coefficients(&self, satisfied_attrs: &[String]) -> (res: Result<Coefficients, &'static str>)
        requires
            forall|i: int| 0 <= i < self.rows@.len() ==> (#[trigger] self.rows@[i]).vector@.len() == self.num_cols,
            self.num_cols == 0 ==> self.satisfied_by(attrs_view(satisfied_attrs@)).len() != 1,
        ensures
            self.satisfied_by(attrs_view(satisfied_attrs@)).len() == 0
                <==> res == Err::<Coefficients, &'static str>("No satisfied attributes"),
            res matches Ok(c) ==> exists|cs: Seq<int>| {
                &&& combines_to_unit(cs, row_vectors(self.satisfied_by(attrs_view(satisfied_attrs@))), self.num_cols as nat)
                &&& c@ == coefficient_map(self.satisfied_by(attrs_view(satisfied_attrs@)), cs)
            },
            self.satisfied_by(attrs_view(satisfied_attrs@)).len() == 1 ==> (res is Ok <==> single_row_solvable(
                self.satisfied_by(attrs_view(satisfied_attrs@))[0].1,
            )) && (res is Err ==> res == Err::<Coefficients, &'static str>("Need more attributes to satisfy policy")),
            field_inverses() && self.num_cols >= 1 && self.satisfied_by(attrs_view(satisfied_attrs@)).len() >= 2 ==> (res is Ok
                <==> exists|cs: Seq<int>| combines_to_unit(cs, row_vectors(self.satisfied_by(attrs_view(satisfied_attrs@))), self.num_cols as nat)),
    {
        proof {
            reveal_strlit("No satisfied attributes");
            reveal_strlit("Need more attributes to satisfy policy");
            reveal_strlit("Empty matrix");
            reveal_strlit("Could not find unique reconstruction");
            reveal_strlit("Policy not satisfied - cannot reconstruct");
            reveal_strlit("Policy not satisfied");
        }
        let ghost sat = self.satisfied_by(attrs_view(satisfied_attrs@));
        let (names, vecs) = self.collect_satisfied(satisfied_attrs);
        let n = vecs.len();
        proof {
            assert(sat.len() == n);
            assert(row_vectors(sat) =~= mat(vecs@));
        }
        if n == 0 {
            return Err("No satisfied attributes");
        }
        if n == 1 {
            proof {
                assert(sat =~= seq![(names@[0]@, scalars(vecs@[0]@))]);
            }
            let r = single_row_coefficients(&names[0], &vecs[0]);
            proof {
                assert(row_vectors(sat) =~= seq![scalars(vecs@[0]@)]);
            }
            return r;
        }
        let m = self.num_cols;
        if m == 0 {
            return Err("Empty matrix");
        }
        let ghost a = mat(vecs@);
        let mut aug = build_augmented(&vecs, m);
        eliminate(&mut aug, m, Ghost(a));
        let ghost good = field_inverses() && exists|cs: Seq<int>| combines_to_unit(cs, a, m as nat);
        proof {
            assert forall|r: int| 0 <= r < n implies (#[trigger] aug@[r])@.len() == m + n by {
                assert(mat(aug@)[r] == scalars(aug@[r]@));
            }
            if good {
                let cs = choose|cs: Seq<int>| combines_to_unit(cs, a, m as nat);
                let u = choose|u: Seq<Seq<int>>| back_tracks(u, a, mat(aug@), m as nat);
                let pc = choose|pc: Seq<int>| echelon_upto(mat(aug@), pc, m as int);
                assert forall|k: int| 0 <= k < mat(aug@).len() implies #[trigger] mat(aug@)[k].len() >= m by {
                    assert(mat(aug@)[k] == scalars(aug@[k]@));
                }
                lemma_unit_in_span(a, mat(aug@), u, pc, m as nat, cs);
            }
            assert(a == row_vectors(sat));
        }
        // The row holding a one in the first column, which must be unique.
        let one = Fr::one();
        let mut found_row: Option<usize> = None;
        let mut i: usize = 0;
        while i < n
            invariant
                i <= n,
                aug@.len() == n,
                forall|r: int| 0 <= r < n ==> (#[trigger] aug@[r])@.len() == m + n,
                m >= 1,
                n >= 2,
                sat.len() == n,
                sat == self.satisfied_by(attrs_view(satisfied_attrs@)),
                found_row matches Some(idx) ==> idx < n && aug@[idx as int]@[0]@ == 1,
                found_row matches Some(idx) ==> idx < i,
                found_row is None ==> forall|j: int| 0 <= j < i ==> #[trigger] mat(aug@)[j][0] == 0,
                good ==> leads_with_unit(mat(aug@), m as nat),
                good == (field_inverses() && exists|cs: Seq<int>| combines_to_unit(cs, row_vectors(sat), m as nat)),
                one@ == 1,
                m == self.num_cols,
            decreases n - i,
        {
            proof {
                assert(mat(aug@)[i as int] == scalars(aug@[i as int]@));
            }
            if !aug[i][0].is_zero() {
                if aug[i][0] == one && found_row.is_none() {
                    found_row = Some(i);
                } else {
                    proof {
                        reveal_strlit("No satisfied attributes");
                        reveal_strlit("Could not find unique reconstruction");
                        if good {
                            assert(mat(aug@)[i as int][0] == aug@[i as int]@[0]@);
                            if i == 0 {
                                lemma_view_injective(aug@[0]@[0], one);
                            }
                            assert(false);
                        }
                    }
                    return Err("Could not find unique reconstruction");
                }
            }
            i = i + 1;
        }
        proof {
            if good {
                match found_row {
                    Some(idx) => {
                        assert(mat(aug@)[idx as int] == scalars(aug@[idx as int]@));
                        assert(mat(aug@)[idx as int][0] == aug@[idx as int]@[0]@);
                        assert(idx == 0);
                    },
                    None => {
                        assert(mat(aug@)[0][0] == 0);
                    },
                }
            }
        }
        match found_row {
            Some(idx) => {
                let mut col: usize = 1;
                while col < m
                    invariant
                        1 <= col <= m,
                        idx < n,
                        n >= 2,
                        sat.len() == n,
                        sat == self.satisfied_by(attrs_view(satisfied_attrs@)),
                        aug@.len() == n,
                        aug@[idx as int]@.len() == m + n,
                        forall|c: int| 1 <= c < col ==> (#[trigger] aug@[idx as int]@[c])@ == 0,
                        good ==> idx == 0 && leads_with_unit(mat(aug@), m as nat),
                        good == (field_inverses() && exists|cs: Seq<int>| combines_to_unit(cs, row_vectors(sat), m as nat)),
                        m == self.num_cols,
                    decreases m - col,
                {
                    if !aug[idx][col].is_zero() {
                        proof {
                            if good {
                                assert(mat(aug@)[0] == scalars(aug@[0]@));
                                assert(mat(aug@)[0][col as int] == aug@[0]@[col as int]@);
                                assert(mat(aug@)[0][col as int] % modulus() == 0);
                                lemma_small_mod(mat(aug@)[0][col as int] as nat, modulus() as nat);
                            }
                            reveal_strlit("No satisfied attributes");
                            reveal_strlit("Policy not satisfied - cannot reconstruct");
                        }
                        return Err("Policy not satisfied - cannot reconstruct");
                    }
                    col = col + 1;
                }
                let ghost row = mat(aug@)[idx as int];
                let ghost cs = row.subrange(m as int, (m + n) as int);
                proof {
                    assert(row == scalars(aug@[idx as int]@));
                    assert(tracks(row, a, m as nat));
                    assert forall|c: int| 0 <= c < m implies #[trigger] comb(cs, a, c) % modulus() == (if c == 0 { 1int } else { 0int }) by {
                        assert(row[c] == aug@[idx as int]@[c]@);
                        if c == 0 {
                            lemma_small_mod(1, modulus() as nat);
                        } else {
                            lemma_small_mod(0, modulus() as nat);
                        }
                    }
                    assert(combines_to_unit(cs, a, m as nat));
                }
                let row_len = aug[idx].len();
                assert(row_len == m + n);
                let mut coeffs = Coefficients::new();
                let mut k: usize = 0;
                proof {
                    assert(sat.take(0) =~= Seq::<(Seq<char>, Seq<int>)>::empty());
                }
                while k < n
                    invariant
                        k <= n,
                        idx < n,
                        row_len == m + n,
                        aug@.len() == n,
                        names@.len() == n,
                        aug@[idx as int]@.len() == m + n,
                        row == scalars(aug@[idx as int]@),
                        cs == row.subrange(m as int, (m + n) as int),
                        zipped_rows(names@, vecs@) == sat,
                        coeffs@ == coefficient_map(sat.take(k as int), cs.take(k as int)),
                    decreases n - k,
                {
                    let coeff = aug[idx][m + k];
                    proof {
                        assert(sat.take(k + 1).drop_last() =~= sat.take(k as int));
                        assert(cs.take(k + 1).drop_last() =~= cs.take(k as int));
                        assert(cs[k as int] == coeff@);
                        assert(sat[k as int].0 == names@[k as int]@);
                    }
                    if !coeff.is_zero() {
                        coeffs.insert(names[k].clone(), coeff);
                    }
                    k = k + 1;
                }
                proof {
                    assert(sat.take(n as int) =~= sat);
                    assert(cs.take(n as int) =~= cs);
                }
                Ok(coeffs)
            },
            None => Err("Policy not satisfied"),
        }
    }
}

/// `cs[0] * xs[0] + ... + cs[k-1] * xs[k-1]`.
pub open spec fn weighted_sum(cs: Seq<int>, xs: Seq<int>, k: nat) -> int
    decreases k,
{
    if k == 0 {
        0
    } else {
        weighted_sum(cs, xs, (k - 1) as nat) + cs[k - 1] * xs[k - 1]
    }
}

/// The secret recovered from shares: each share (of the row with attribute
/// `attrs[i]`) weighted by the coefficient of its attribute, if any.
pub open spec fn reconstruct(coeffs: Map<Seq<char>, int>, attrs: Seq<Seq<char>>, shares: Seq<int>) -> int
    decreases shares.len(),
{
    if shares.len() == 0 || attrs.len() == 0 {
        0
    } else {
        reconstruct(coeffs, attrs.drop_last(), shares.drop_last()) + if coeffs.contains_key(attrs.last()) {
            coeffs[attrs.last()] * shares.last()
        } else {
            0
        }
    }
}

/// The attributes of a list of rows.
pub open spec fn row_attrs(rows: Seq<(Seq<char>, Seq<int>)>) -> Seq<Seq<char>> {
    rows.map_values(|r: (Seq<char>, Seq<int>)| r.0)
}

/// Distinct rows carry distinct attributes.
pub open spec fn distinct_attrs(rows: Seq<(Seq<char>, Seq<int>)>) -> bool {
    forall|i: int, j: int| 0 <= i < j < rows.len() ==> (#[trigger] rows[i]).0 != (#[trigger] rows[j]).0
}

/// Σ_j cs[j] * (x_j + a_j * y) splits into Σ_j cs[j] * x_j + y * Σ_j cs[j] * a_j.
proof fn lemma_weighted_sum_split(cs: Seq<int>, xs: Seq<int>, ys: Seq<int>, zs: Seq<int>, y: int, k: nat)
    requires
        k <= xs.len(),
        k <= ys.len(),
        k <= zs.len(),
        forall|j: int| 0 <= j < k ==> #[trigger] zs[j] == xs[j] + ys[j] * y,
    ensures
        weighted_sum(cs, zs, k) == weighted_sum(cs, xs, k) + y * weighted_sum(cs, ys, k),
    decreases k,
{
    if k > 0 {
        let k1 = (k - 1) as nat;
        lemma_weighted_sum_split(cs, xs, ys, zs, y, k1);
        let c = cs[k1 as int];
        assert(c * (xs[k1 as int] + ys[k1 as int] * y) == c * xs[k1 as int] + y * (c * ys[k1 as int])) by (nonlinear_arith);
        assert(y * weighted_sum(cs, ys, k1) + y * (c * ys[k1 as int]) == y * (weighted_sum(cs, ys, k1) + c * ys[k1 as int])) by (nonlinear_arith);
    }
}

/// Weighting the dot products of the rows `a` with `v` equals weighting
/// `v` with the combination of the rows: the sums can be exchanged.
proof fn lemma_exchange(cs: Seq<int>, a: Seq<Seq<int>>, v: Seq<int>, m: nat)
    requires
        cs.len() == a.len(),
        forall|j: int| 0 <= j < a.len() ==> (#[trigger] a[j]).len() >= m,
        v.len() >= m,
    ensures
        weighted_sum(cs, Seq::new(a.len(), |j: int| dot_upto(a[j], v, m)), a.len())
            == weighted_sum(Seq::new(m, |k: int| v[k]), Seq::new(m, |k: int| comb(cs, a, k)), m),
    decreases m,
{
    let n = a.len();
    let zs = Seq::new(n, |j: int| dot_upto(a[j], v, m));
    if m == 0 {
        lemma_weighted_sum_zero(cs, zs, n);
    } else {
        let m1 = (m - 1) as nat;
        lemma_exchange(cs, a, v, m1);
        let xs = Seq::new(n, |j: int| dot_upto(a[j], v, m1));
        let ys = Seq::new(n, |j: int| a[j][m1 as int]);
        assert forall|j: int| 0 <= j < n implies #[trigger] zs[j] == xs[j] + ys[j] * v[m1 as int] by {}
        lemma_weighted_sum_split(cs, xs, ys, zs, v[m1 as int], n);
        lemma_weighted_sum_comb(cs, a, m1 as int, n);
        let vs = Seq::new(m, |k: int| v[k]);
        let ws = Seq::new(m, |k: int| comb(cs, a, k));
        let vs1 = Seq::new(m1, |k: int| v[k]);
        let ws1 = Seq::new(m1, |k: int| comb(cs, a, k));
        lemma_weighted_sum_prefix(vs, ws, vs1, ws1, m1);
        assert(v[m1 as int] * comb(cs, a, m1 as int) == vs[m1 as int] * ws[m1 as int]);
    }
}

proof fn lemma_weighted_sum_zero(cs: Seq<int>, zs: Seq<int>, k: nat)
    requires
        forall|j: int| 0 <= j < k ==> #[trigger] zs[j] == 0,
    ensures
        weighted_sum(cs, zs, k) == 0,
    decreases k,
{
    if k > 0 {
        lemma_weighted_sum_zero(cs, zs, (k - 1) as nat);
        assert(cs[k - 1] * zs[k - 1] == 0) by (nonlinear_arith)
            requires zs[k - 1] == 0;
    }
}

proof fn lemma_weighted_sum_comb(cs: Seq<int>, a: Seq<Seq<int>>, col: int, k: nat)
    requires
        k <= a.len(),
    ensures
        weighted_sum(cs, Seq::new(a.len(), |j: int| a[j][col]), k) == comb_upto(cs, a, col, k),
    decreases k,
{
    if k > 0 {
        lemma_weighted_sum_comb(cs, a, col, (k - 1) as nat);
    }
}

proof fn lemma_weighted_sum_prefix(cs: Seq<int>, xs: Seq<int>, cs1: Seq<int>, xs1: Seq<int>, k: nat)
    requires
        k <= cs1.len(),
        k <= xs1.len(),
        k <= cs.len(),
        k <= xs.len(),
        forall|j: int| 0 <= j < k ==> cs[j] == cs1[j] && xs[j] == xs1[j],
    ensures
        weighted_sum(cs, xs, k) == weighted_sum(cs1, xs1, k),
    decreases k,
{
    if k > 0 {
        lemma_weighted_sum_prefix(cs, xs, cs1, xs1, (k - 1) as nat);
    }
}

/// Weights congruent modulo `r` give congruent sums.
proof fn lemma_weighted_sum_cong(cs: Seq<int>, xs: Seq<int>, ys: Seq<int>, k: nat)
    requires
        k <= xs.len(),
        k <= ys.len(),
        forall|j: int| 0 <= j < k ==> #[trigger] xs[j] % modulus() == ys[j] % modulus(),
    ensures
        weighted_sum(cs, xs, k) % modulus() == weighted_sum(cs, ys, k) % modulus(),
    decreases k,
{
    if k > 0 {
        let k1 = (k - 1) as nat;
        lemma_weighted_sum_cong(cs, xs, ys, k1);
        lemma_cong_mul(xs[k1 as int], ys[k1 as int], cs[k1 as int], modulus());
        assert(xs[k1 as int] * cs[k1 as int] == cs[k1 as int] * xs[k1 as int]) by (nonlinear_arith);
        assert(ys[k1 as int] * cs[k1 as int] == cs[k1 as int] * ys[k1 as int]) by (nonlinear_arith);
        lemma_cong_add(weighted_sum(cs, xs, k1), weighted_sum(cs, ys, k1), cs[k1 as int] * xs[k1 as int], cs[k1 as int] * ys[k1 as int], modulus());
    }
}

/// Combined with weights congruent to the first unit vector, `v` collapses
/// to its first entry.
proof fn lemma_weighted_sum_unit(vs: Seq<int>, ws: Seq<int>, k: nat)
    requires
        1 <= k <= vs.len(),
        k <= ws.len(),
        forall|j: int| 0 <= j < k ==> #[trigger] ws[j] % modulus() == (if j == 0 { 1int } else { 0int }),
    ensures
        weighted_sum(vs, ws, k) % modulus() == vs[0] % modulus(),
    decreases k,
{
    let m = modulus();
    if k == 1 {
        assert(weighted_sum(vs, ws, 0) == 0);
        lemma_cong_mul(ws[0], 1, vs[0], m);
        assert(ws[0] * vs[0] == vs[0] * ws[0]) by (nonlinear_arith);
    } else {
        let k1 = (k - 1) as nat;
        lemma_weighted_sum_unit(vs, ws, k1);
        lemma_cong_mul(ws[k1 as int], 0, vs[k1 as int], m);
        assert(ws[k1 as int] * vs[k1 as int] == vs[k1 as int] * ws[k1 as int]) by (nonlinear_arith);
        lemma_cong_add(weighted_sum(vs, ws, k1), vs[0], vs[k1 as int] * ws[k1 as int], 0, m);
    }
}

/// Coefficients of rows with distinct attributes can be looked up by
/// attribute; the map holds no other keys.
#[verifier::spinoff_prover]
proof fn lemma_coefficient_map(sat: Seq<(Seq<char>, Seq<int>)>, cs: Seq<int>)
    requires
        distinct_attrs(sat),
        cs.len() == sat.len(),
    ensures
        forall|j: int| 0 <= j < sat.len() ==> {
            &&& cs[j] != 0 ==> coefficient_map(sat, cs).contains_key(#[trigger] sat[j].0)
                && coefficient_map(sat, cs)[sat[j].0] == cs[j]
            &&& cs[j] == 0 ==> !coefficient_map(sat, cs).contains_key(sat[j].0)
        },
        forall|k: Seq<char>| #[trigger] coefficient_map(sat, cs).contains_key(k) ==> exists|j: int| 0 <= j < sat.len() && sat[j].0 == k,
    decreases sat.len(),
{
    if sat.len() > 0 {
        let d = sat.drop_last();
        let dc = cs.drop_last();
        assert(distinct_attrs(d)) by {
            assert forall|i: int, j: int| 0 <= i < j < d.len() implies (#[trigger] d[i]).0 != (#[trigger] d[j]).0 by {
                assert(d[i] == sat[i] && d[j] == sat[j]);
            }
        }
        lemma_coefficient_map(d, dc);
        let last = sat.len() - 1;
        let m = coefficient_map(d, dc);
        assert(coefficient_map(sat, cs) == if cs[last] != 0 {
            m.insert(sat[last].0, cs[last])
        } else {
            m
        });
        assert forall|j: int| 0 <= j < sat.len() implies {
            &&& cs[j] != 0 ==> coefficient_map(sat, cs).contains_key(#[trigger] sat[j].0)
                && coefficient_map(sat, cs)[sat[j].0] == cs[j]
            &&& cs[j] == 0 ==> !coefficient_map(sat, cs).contains_key(sat[j].0)
        } by {
            if j < last {
                assert(d[j] == sat[j]);
                assert(dc[j] == cs[j]);
                assert(sat[j].0 != sat[last].0);
                assert(cs[j] != 0 ==> m.contains_key(d[j].0) && m[d[j].0] == dc[j]);
                assert(cs[j] == 0 ==> !m.contains_key(d[j].0));
            } else {
                assert(j == last);
                if cs[last] == 0 {
                    assert forall|i: int| 0 <= i < d.len() implies (#[trigger] d[i]).0 != sat[last].0 by {
                        assert(d[i] == sat[i]);
                    }
                    if m.contains_key(sat[last].0) {
                        let i = choose|i: int| 0 <= i < d.len() && d[i].0 == sat[last].0;
                        assert(d[i].0 != sat[last].0);
                    }
                }
            }
        }
        assert forall|k: Seq<char>| #[trigger] coefficient_map(sat, cs).contains_key(k) implies exists|j: int| 0 <= j < sat.len() && sat[j].0 == k by {
            if k != sat[last].0 {
                assert(coefficient_map(d, dc).contains_key(k));
                let j = choose|j: int| 0 <= j < d.len() && d[j].0 == k;
                assert(sat[j] == d[j]);
            }
        }
    }
}

/// Every satisfied row's attribute is among `attrs`.
proof fn lemma_satisfied_in_attrs(rows: Seq<(Seq<char>, Seq<int>)>, attrs: Seq<Seq<char>>)
    ensures
        forall|j: int| 0 <= j < satisfied_rows(rows, attrs).len() ==> attrs.contains(#[trigger] satisfied_rows(rows, attrs)[j].0),
    decreases rows.len(),
{
    if rows.len() > 0 {
        let d = satisfied_rows(rows.drop_last(), attrs);
        lemma_satisfied_in_attrs(rows.drop_last(), attrs);
        let s = satisfied_rows(rows, attrs);
        assert forall|j: int| 0 <= j < s.len() implies attrs.contains(#[trigger] s[j].0) by {
            if j < d.len() {
                assert(s[j] == d[j]);
            } else {
                assert(s[j] == rows.last());
            }
        }
    }
}

/// The satisfied rows of a prefix are a prefix of the satisfied rows.
proof fn lemma_satisfied_prefix(rows: Seq<(Seq<char>, Seq<int>)>, attrs: Seq<Seq<char>>, t: int)
    requires
        0 <= t <= rows.len(),
    ensures
        satisfied_rows(rows.take(t), attrs).len() <= satisfied_rows(rows, attrs).len(),
        satisfied_rows(rows.take(t), attrs) == satisfied_rows(rows, attrs).take(
            satisfied_rows(rows.take(t), attrs).len() as int,
        ),
    decreases rows.len() - t,
{
    if t == rows.len() {
        assert(rows.take(t) =~= rows);
        assert(satisfied_rows(rows, attrs).take(satisfied_rows(rows, attrs).len() as int) =~= satisfied_rows(rows, attrs));
    } else {
        lemma_satisfied_prefix(rows, attrs, t + 1);
        assert(rows.take(t + 1).drop_last() =~= rows.take(t));
        let a = satisfied_rows(rows.take(t), attrs);
        let b = satisfied_rows(rows.take(t + 1), attrs);
        let full = satisfied_rows(rows, attrs);
        assert(full.take(a.len() as int) =~= b.take(a.len() as int));
        assert(b.take(a.len() as int) =~= a);
    }
}

/// Reconstruction: combining the shares of the rows whose coefficients
/// combine the satisfied rows into the first unit vector recovers the first
/// entry of the shared vector, which is the secret.
pub proof fn lemma_reconstruction(
    rows: Seq<(Seq<char>, Seq<int>)>,
    attrs: Seq<Seq<char>>,
    v: Seq<int>,
    shares: Seq<int>,
    cs: Seq<int>,
)
    requires
        v.len() >= 1,
        forall|i: int| 0 <= i < rows.len() ==> (#[trigger] rows[i]).1.len() == v.len(),
        distinct_attrs(satisfied_rows(rows, attrs)),
        shares.len() == rows.len(),
        forall|i: int| 0 <= i < rows.len() ==> #[trigger] shares[i] == dot(rows[i].1, v) % modulus(),
        combines_to_unit(cs, row_vectors(satisfied_rows(rows, attrs)), v.len()),
    ensures
        reconstruct(coefficient_map(satisfied_rows(rows, attrs), cs), row_attrs(rows), shares) % modulus()
            == v[0] % modulus(),
{
    let sat = satisfied_rows(rows, attrs);
    let a = row_vectors(sat);
    let n = sat.len();
    let m = v.len();
    let map = coefficient_map(sat, cs);
    let sat_shares = Seq::new(n, |j: int| dot(a[j], v) % modulus());
    lemma_coefficient_map(sat, cs);
    lemma_satisfied_in_attrs(rows, attrs);
    // Step A: the sum over all rows is the weighted sum over satisfied rows.
    lemma_reconstruct_prefix(rows, attrs, shares, cs, v, rows.len() as int);
    assert(rows.take(rows.len() as int) =~= rows);
    assert(row_attrs(rows).take(rows.len() as int) =~= row_attrs(rows));
    assert(shares.take(rows.len() as int) =~= shares);
    // Step B: reduce the shares.
    assert forall|j: int| 0 <= j < n implies (#[trigger] a[j]).len() == m by {
        lemma_satisfied_rows_from(rows, attrs, j);
    }
    let dots = Seq::new(n, |j: int| dot_upto(a[j], v, m));
    assert forall|j: int| 0 <= j < n implies #[trigger] sat_shares[j] % modulus() == dots[j] % modulus() by {
        lemma_mod_twice(dot(a[j], v), modulus());
    }
    lemma_weighted_sum_cong(cs, sat_shares, dots, n);
    // Step C: exchange the sums.
    lemma_exchange(cs, a, v, m);
    // Step D: the combination is the first unit vector.
    let vs = Seq::new(m, |k: int| v[k]);
    let ws = Seq::new(m, |k: int| comb(cs, a, k));
    lemma_weighted_sum_unit(vs, ws, m);
}

/// Every satisfied row is a row.
proof fn lemma_satisfied_rows_from(rows: Seq<(Seq<char>, Seq<int>)>, attrs: Seq<Seq<char>>, j: int)
    requires
        0 <= j < satisfied_rows(rows, attrs).len(),
    ensures
        exists|i: int| 0 <= i < rows.len() && rows[i] == #[trigger] satisfied_rows(rows, attrs)[j],
    decreases rows.len(),
{
    let d = rows.drop_last();
    let s = satisfied_rows(d, attrs);
    if j < s.len() {
        lemma_satisfied_rows_from(d, attrs, j);
        let i = choose|i: int| 0 <= i < d.len() && d[i] == s[j];
        assert(rows[i] == d[i]);
    } else {
        assert(rows[rows.len() - 1] == satisfied_rows(rows, attrs)[j]);
    }
}

/// Step A of the reconstruction, over the first `t` rows.
proof fn lemma_reconstruct_prefix(
    rows: Seq<(Seq<char>, Seq<int>)>,
    attrs: Seq<Seq<char>>,
    shares: Seq<int>,
    cs: Seq<int>,
    v: Seq<int>,
    t: int,
)
    requires
        0 <= t <= rows.len(),
        distinct_attrs(satisfied_rows(rows, attrs)),
        shares.len() == rows.len(),
        cs.len() == satisfied_rows(rows, attrs).len(),
        forall|i: int| 0 <= i < rows.len() ==> #[trigger] shares[i] == dot(rows[i].1, v) % modulus(),
    ensures
        reconstruct(coefficient_map(satisfied_rows(rows, attrs), cs), row_attrs(rows).take(t), shares.take(t))
            == weighted_sum(
            cs,
            Seq::new(
                satisfied_rows(rows, attrs).len(),
                |j: int| dot(row_vectors(satisfied_rows(rows, attrs))[j], v) % modulus(),
            ),
            satisfied_rows(rows.take(t), attrs).len(),
        ),
    decreases t,
{
    let sat = satisfied_rows(rows, attrs);
    let map = coefficient_map(sat, cs);
    let sat_shares = Seq::new(sat.len(), |j: int| dot(row_vectors(sat)[j], v) % modulus());
    if t == 0 {
        assert(rows.take(0) =~= Seq::<(Seq<char>, Seq<int>)>::empty());
    } else {
        let t1 = t - 1;
        lemma_reconstruct_prefix(rows, attrs, shares, cs, v, t1);
        lemma_coefficient_map(sat, cs);
        lemma_satisfied_in_attrs(rows, attrs);
        lemma_satisfied_prefix(rows, attrs, t);
        lemma_satisfied_prefix(rows, attrs, t1);
        assert(row_attrs(rows).take(t).drop_last() =~= row_attrs(rows).take(t1));
        assert(shares.take(t).drop_last() =~= shares.take(t1));
        assert(rows.take(t).drop_last() =~= rows.take(t1));
        assert(rows.take(t).last() == rows[t1]);
        let before = satisfied_rows(rows.take(t1), attrs);
        let key = rows[t1].0;
        assert(row_attrs(rows).take(t).last() == key);
        assert(shares.take(t).last() == shares[t1]);
        if attrs.contains(key) {
            let j = before.len() as int;
            assert(satisfied_rows(rows.take(t), attrs) == before.push(rows[t1]));
            assert(sat[j] == rows[t1]) by {
                assert(sat.take(j + 1)[j] == before.push(rows[t1])[j]);
            }
            assert(sat_shares[j] == shares[t1]);
            if cs[j] == 0 {
                assert(cs[j] * sat_shares[j] == 0);
            }
        } else {
            if map.contains_key(key) {
                let j = choose|j: int| 0 <= j < sat.len() && sat[j].0 == key;
                assert(attrs.contains(sat[j].0));
            }
        }
    }
}


/// Every row expanded below a vector is at least as long as that vector.
proof fn lemma_expand_rows_long(p: Policy, parent: Seq<int>)
    ensures
        forall|j: int| 0 <= j < expand_rows(p, parent).len() ==> #[trigger] expand_rows(p, parent)[j].1.len() >= parent.len(),
        forall|j: int| 0 <= j < expand_rows(p, parent).len() ==> #[trigger] expand_rows(p, parent)[j].1.take(parent.len() as int) == parent,
        expand_rows(p, parent).map_values(|r: (Seq<char>, Seq<int>)| r.0) == p.leaves(),
    decreases p,
{
    match p {
        Policy::Attr(a) => {
            assert(expand_rows(p, parent) =~= seq![(a, parent)]);
            assert(expand_rows(p, parent)[0] == (a, parent));
            assert(parent.take(parent.len() as int) =~= parent);
            assert(expand_rows(p, parent).map_values(|r: (Seq<char>, Seq<int>)| r.0) =~= p.leaves());
        },
        Policy::And(cs) => {
            lemma_expand_children_long(cs, cs.len(), parent);
            assert(expand_rows(p, parent) == expand_children(cs, cs.len(), parent));
        },
        Policy::Or(cs) => {
            lemma_expand_children_long(cs, 1, parent);
            assert(expand_rows(p, parent) == expand_children(cs, 1, parent));
        },
        Policy::Threshold(k, cs) => {
            lemma_expand_children_long(cs, k, parent);
            assert(expand_rows(p, parent) == expand_children(cs, k, parent));
        },
    }
}

proof fn lemma_expand_children_long(cs: Seq<Policy>, t: nat, parent: Seq<int>)
    ensures
        forall|j: int| 0 <= j < expand_children(cs, t, parent).len() ==> #[trigger] expand_children(cs, t, parent)[j].1.len() >= parent.len(),
        forall|j: int| 0 <= j < expand_children(cs, t, parent).len() ==> #[trigger] expand_children(cs, t, parent)[j].1.take(parent.len() as int) == parent,
        expand_children(cs, t, parent).map_values(|r: (Seq<char>, Seq<int>)| r.0) == leaves_all(cs),
    decreases cs,
{
    if cs.len() > 0 {
        let before = expand_children(cs.drop_last(), t, parent);
        let child = child_vector(parent, t, (cs.len() - 1) as nat);
        let last = expand_rows(cs.last(), child);
        lemma_expand_children_long(cs.drop_last(), t, parent);
        lemma_expand_rows_long(cs.last(), child);
        assert(child.take(parent.len() as int) =~= parent);
        assert forall|j: int| 0 <= j < expand_children(cs, t, parent).len() implies #[trigger] expand_children(cs, t, parent)[j].1.len() >= parent.len()
            && expand_children(cs, t, parent)[j].1.take(parent.len() as int) == parent by {
            if j < before.len() {
                assert(expand_children(cs, t, parent)[j] == before[j]);
            } else {
                let v = last[j - before.len()].1;
                assert(expand_children(cs, t, parent)[j] == last[j - before.len()]);
                assert(v.take(child.len() as int) == child);
                assert(v.take(parent.len() as int) =~= child.take(parent.len() as int));
            }
        }
        let name = |r: (Seq<char>, Seq<int>)| r.0;
        assert(expand_children(cs, t, parent).map_values(name) =~= before.map_values(name) + last.map_values(name));
    } else {
        assert(expand_children(cs, t, parent).map_values(|r: (Seq<char>, Seq<int>)| r.0) =~= leaves_all(cs));
    }
}

/// The matrix of a policy has at least one column, and every row has
/// exactly as many entries as there are columns.
pub proof fn lemma_policy_matrix_shape(p: Policy)
    ensures
        policy_width(p) >= 1,
        forall|j: int| 0 <= j < policy_matrix(p).len() ==> #[trigger] policy_matrix(p)[j].1.len() == policy_width(p),
{
    let rows = policy_rows(p);
    lemma_expand_rows_long(p.canonical(), seq![1int]);
    lemma_max_width(rows);
    if rows.len() > 0 {
        assert(rows[0].1.len() >= 1);
    }
    assert forall|j: int| 0 <= j < policy_matrix(p).len() implies #[trigger] policy_matrix(p)[j].1.len() == policy_width(p) by {
        assert(policy_matrix(p)[j] == (rows[j].0, padded(rows[j].1, policy_width(p))));
        assert(rows[j].1.len() <= max_width(rows));
    }
}

/// A policy has as many leaves as its leaf count says, so `count_attrs`
/// and the length of `get_attrs` agree.
pub proof fn lemma_leaves_count(p: Policy)
    ensures
        p.leaves().len() == p.leaf_count(),
    decreases p,
{
    match p {
        Policy::Attr(_) => {},
        Policy::And(cs) => lemma_leaves_count_all(cs),
        Policy::Or(cs) => lemma_leaves_count_all(cs),
        Policy::Threshold(_, cs) => lemma_leaves_count_all(cs),
    }
}

proof fn lemma_leaves_count_all(cs: Seq<Policy>)
    ensures
        leaves_all(cs).len() == leaf_count_all(cs),
    decreases cs,
{
    if cs.len() > 0 {
        lemma_leaves_count_all(cs.drop_last());
        lemma_leaves_count(cs.last());
    }
}

/// The leaves of two lists one after the other.
proof fn lemma_leaves_all_concat(a: Seq<Policy>, b: Seq<Policy>)
    ensures
        leaves_all(a + b) == leaves_all(a) + leaves_all(b),
    decreases b.len(),
{
    if b.len() == 0 {
        assert(a + b =~= a);
        assert(leaves_all(a) + leaves_all(b) =~= leaves_all(a));
    } else {
        lemma_leaves_all_concat(a, b.drop_last());
        assert((a + b).drop_last() =~= a + b.drop_last());
        assert((a + b).last() == b.last());
        assert(leaves_all(a + b) =~= leaves_all(a) + leaves_all(b));
    }
}

/// Lists holding the same policies, each as often, hold the same leaves,
/// each as often.
proof fn lemma_leaves_all_permutation(a: Seq<Policy>, b: Seq<Policy>)
    requires
        a.to_multiset() == b.to_multiset(),
    ensures
        leaves_all(a).to_multiset() == leaves_all(b).to_multiset(),
    decreases a.len(),
{
    broadcast use vstd::seq_lib::group_to_multiset_ensures;
    broadcast use vstd::seq_lib::lemma_multiset_commutative;

    if a.len() == 0 {
        assert(b.to_multiset().len() == b.len());
        assert(b =~= Seq::<Policy>::empty());
    } else {
        let x = a.last();
        let d = a.drop_last();
        assert(a =~= d.push(x));
        assert(b.to_multiset().count(x) > 0);
        assert(b.contains(x));
        let i = choose|i: int| 0 <= i < b.len() && b[i] == x;
        let rest = b.remove(i);
        assert(rest.to_multiset() =~= d.to_multiset());
        lemma_leaves_all_permutation(d, rest);
        assert(b =~= b.take(i) + seq![x] + b.skip(i + 1));
        assert(rest =~= b.take(i) + b.skip(i + 1));
        lemma_leaves_all_concat(b.take(i) + seq![x], b.skip(i + 1));
        lemma_leaves_all_concat(b.take(i), seq![x]);
        lemma_leaves_all_concat(b.take(i), b.skip(i + 1));
        assert(seq![x].drop_last() =~= Seq::<Policy>::empty());
        assert(leaves_all(seq![x].drop_last()) =~= Seq::<Seq<char>>::empty());
        assert(seq![x].last() == x);
        assert(leaves_all(seq![x]) =~= x.leaves());
        assert(leaves_all(a) =~= leaves_all(d) + x.leaves());
        assert(leaves_all(a).to_multiset() =~= leaves_all(b).to_multiset());
    }
}

/// Canonicalizing keeps the leaves, each as often.
pub proof fn lemma_canonical_leaves(p: Policy)
    ensures
        p.canonical().leaves().to_multiset() == p.leaves().to_multiset(),
    decreases p,
{
    match p {
        Policy::Attr(_) => {},
        Policy::And(cs) => lemma_canonical_gate_leaves(cs),
        Policy::Or(cs) => lemma_canonical_gate_leaves(cs),
        Policy::Threshold(_, cs) => lemma_canonical_gate_leaves(cs),
    }
}

proof fn lemma_canonical_gate_leaves(cs: Seq<Policy>)
    ensures
        leaves_all(sort_policies(canonical_all(cs))).to_multiset() == leaves_all(cs).to_multiset(),
    decreases cs, 1nat,
{
    let x = canonical_all(cs);
    lemma_canonical_all_leaves(cs);
    let k = keyed_policies(x);
    lemma_sort_by_key_multiset(k);
    let second = |q: (Seq<char>, Policy)| q.1;
    lemma_map_multiset(sort_by_key(k), k, second);
    assert(k.map_values(second) =~= x);
    lemma_leaves_all_permutation(sort_policies(x), x);
}

proof fn lemma_canonical_all_leaves(cs: Seq<Policy>)
    ensures
        leaves_all(canonical_all(cs)).to_multiset() == leaves_all(cs).to_multiset(),
    decreases cs, 0nat,
{
    broadcast use vstd::seq_lib::lemma_multiset_commutative;

    if cs.len() > 0 {
        lemma_canonical_all_leaves(cs.drop_last());
        lemma_canonical_leaves(cs.last());
        let x = canonical_all(cs);
        assert(x.drop_last() =~= canonical_all(cs.drop_last()));
        assert(x.last() == cs.last().canonical());
    }
}

/// The matrix of a policy has one row per attribute leaf: the rows name
/// the policy's attributes, each as often as the policy does, and every
/// row starts with 1.
pub proof fn lemma_policy_matrix_rows(p: Policy)
    ensures
        policy_matrix(p).len() == p.leaf_count(),
        policy_matrix(p).map_values(|r: (Seq<char>, Seq<int>)| r.0).to_multiset() == p.leaves().to_multiset(),
        forall|j: int| 0 <= j < policy_matrix(p).len() ==> (#[trigger] policy_matrix(p)[j]).1[0] == 1,
{
    broadcast use vstd::seq_lib::group_to_multiset_ensures;

    let rows = policy_rows(p);
    let c = p.canonical();
    lemma_expand_rows_long(c, seq![1int]);
    lemma_canonical_leaves(p);
    lemma_leaves_count(p);
    let name = |r: (Seq<char>, Seq<int>)| r.0;
    assert(policy_matrix(p).map_values(name) =~= rows.map_values(name));
    assert(rows.map_values(name).len() == rows.len());
    assert(rows.map_values(name) == c.leaves());
    assert(c.leaves().to_multiset().len() == c.leaves().len());
    assert(p.leaves().to_multiset().len() == p.leaves().len());
    assert(rows.len() == p.leaf_count());
    assert forall|j: int| 0 <= j < policy_matrix(p).len() implies (#[trigger] policy_matrix(p)[j]).1[0] == 1 by {
        assert(rows[j].1.take(1) == seq![1int]);
        assert(rows[j].1[0] == rows[j].1.take(1)[0]);
        assert(policy_matrix(p)[j].1 == padded(rows[j].1, policy_width(p)));
    }
}

/// The matrix of a gate does not depend on the order of its children:
/// gates whose children are the same, each as often, have the same matrix
/// and the same number of columns.
pub proof fn lemma_policy_matrix_ignores_order(k: nat, a: Seq<Policy>, b: Seq<Policy>)
    requires
        a.to_multiset() == b.to_multiset(),
    ensures
        policy_matrix(Policy::And(a)) == policy_matrix(Policy::And(b)),
        policy_matrix(Policy::Or(a)) == policy_matrix(Policy::Or(b)),
        policy_matrix(Policy::Threshold(k, a)) == policy_matrix(Policy::Threshold(k, b)),
        policy_width(Policy::And(a)) == policy_width(Policy::And(b)),
        policy_width(Policy::Or(a)) == policy_width(Policy::Or(b)),
        policy_width(Policy::Threshold(k, a)) == policy_width(Policy::Threshold(k, b)),
{
    lemma_canonical_form_ignores_order(k, a, b);
}

/// No row is selected by an empty list of attributes.
proof fn lemma_satisfied_rows_none(rows: Seq<(Seq<char>, Seq<int>)>)
    ensures
        satisfied_rows(rows, Seq::empty()).len() == 0,
    decreases rows.len(),
{
    if rows.len() > 0 {
        lemma_satisfied_rows_none(rows.drop_last());
    }
}

/// Positions of the entries of `rows` that occur in `available`, in order.
pub open spec fn usable_positions(rows: Seq<Seq<char>>, available: Seq<Seq<char>>) -> Seq<int>
    decreases rows.len(),
{
    if rows.len() == 0 {
        Seq::empty()
    } else {
        let before = usable_positions(rows.drop_last(), available);
        if available.contains(rows.last()) {
            before.push(rows.len() - 1)
        } else {
            before
        }
    }
}

/// The entries of `rows` at `positions`.
pub open spec fn at_positions(rows: Seq<Seq<char>>, positions: Seq<int>) -> Seq<Seq<char>> {
    positions.map_values(|i: int| rows[i])
}

/// The positions whose entry has a coefficient in `coeffs`, each paired
/// with that coefficient, in order.
pub open spec fn weighted_positions(rows: Seq<Seq<char>>, positions: Seq<int>, coeffs: Map<Seq<char>, int>) -> Seq<(int, int)>
    decreases positions.len(),
{
    if positions.len() == 0 {
        Seq::empty()
    } else {
        let before = weighted_positions(rows, positions.drop_last(), coeffs);
        let a = rows[positions.last()];
        if coeffs.contains_key(a) {
            before.push((positions.last(), coeffs[a]))
        } else {
            before
        }
    }
}

/// Positions and coefficients as integers.
pub open spec fn plan_view(v: Seq<(usize, Fr)>) -> Seq<(int, int)> {
    v.map_values(|e: (usize, Fr)| (e.0 as int, e.1@))
}

/// Whether `r` is a reconstruction plan for the labelled rows `rows`, of
/// which those labelled by one of `available` are usable: where no usable
/// label selects a row of the policy's matrix the policy is not satisfied;
/// every failure is that; a lone selected row succeeds exactly when it
/// yields the unit vector alone; several selected rows succeed exactly when
/// some combination of them is the unit vector (given that every nonzero
/// element has its candidate inverse); and a plan lists each usable position
/// that received a coefficient, with it, for coefficients that combine the
/// selected rows into the unit vector.
pub open spec fn is_reconstruction(p: Policy, rows: Seq<Seq<char>>, available: Seq<Seq<char>>, r: Result<Vec<(usize, Fr)>, AbeError>) -> bool {
    let pos = usable_positions(rows, available);
    let sat = satisfied_rows(policy_matrix(p), at_positions(rows, pos));
    &&& (sat.len() == 0 ==> (r matches Err(AbeError::PolicyNotSatisfied)))
    &&& (r is Err ==> (r matches Err(AbeError::PolicyNotSatisfied)))
    &&& (sat.len() == 1 ==> (r is Ok <==> single_row_solvable(sat[0].1)))
    &&& (field_inverses() && sat.len() >= 2 ==> (r is Ok <==> exists|cs: Seq<int>| combines_to_unit(cs, row_vectors(sat), policy_width(p))))
    &&& r matches Ok(items) ==> exists|cs: Seq<int>| {
        &&& combines_to_unit(cs, row_vectors(sat), policy_width(p))
        &&& plan_view(items@) == weighted_positions(rows, pos, coefficient_map(sat, cs))
    }
}

/// How a holder reconstructs the secret shared under `policy`: of the
/// labelled rows `row_attrs`, those whose label is in `available` are
/// usable; their labels select rows of the policy's matrix, whose
/// reconstruction coefficients are recovered; the result lists each usable
/// position that received a coefficient, with it, in order. Where no row is
/// usable or no coefficients exist, the policy is not satisfied.
///
/// For ciphertext-policy schemes the labelled rows are the ciphertext's
/// components and `available` the key's attributes; for key-policy schemes
/// the labelled rows are the key's components and `available` the
/// ciphertext's attributes.
pub fn reconstruction_plan(policy: &PolicyNode, row_attrs: &[String], available: &[String]) -> (r: Result<Vec<(usize, Fr)>, AbeError>)
    requires
        policy@.well_formed(),
    ensures
        is_reconstruction(policy@, attrs_view(row_attrs@), attrs_view(available@), r),
{
    let ghost rows = attrs_view(row_attrs@);
    let ghost avail = attrs_view(available@);
    let mut positions: Vec<usize> = Vec::new();
    let mut names: Vec<String> = Vec::new();
    let mut i: usize = 0;
    while i < row_attrs.len()
        invariant
            i <= row_attrs@.len(),
            rows == attrs_view(row_attrs@),
            avail == attrs_view(available@),
            positions@.map_values(|p: usize| p as int) == usable_positions(rows.take(i as int), avail),
            attrs_view(names@) == at_positions(rows, usable_positions(rows.take(i as int), avail)),
            forall|k: int| 0 <= k < positions@.len() ==> #[trigger] positions@[k] < i,
        decreases row_attrs@.len() - i,
    {
        let ghost before = usable_positions(rows.take(i as int), avail);
        proof {
            assert(rows.take(i as int + 1).drop_last() =~= rows.take(i as int));
            assert(rows.take(i as int + 1).last() == rows[i as int]);
        }
        if contains_attr(available, row_attrs[i].as_str()) {
            let ghost old_positions = positions@;
            let ghost old_names = names@;
            positions.push(i);
            names.push(row_attrs[i].clone());
            proof {
                assert(usable_positions(rows.take(i as int + 1), avail) == before.push(i as int));
                assert(positions@.map_values(|p: usize| p as int) =~= old_positions.map_values(|p: usize| p as int).push(i as int));
                assert(attrs_view(names@) =~= attrs_view(old_names).push(rows[i as int]));
                assert(at_positions(rows, before.push(i as int)) =~= at_positions(rows, before).push(rows[i as int]));
            }
        } else {
            assert(usable_positions(rows.take(i as int + 1), avail) == before);
        }
        i = i + 1;
    }
    let ghost pos = usable_positions(rows, avail);
    proof {
        assert(rows.take(row_attrs@.len() as int) =~= rows);
    }
    let ghost sat = satisfied_rows(policy_matrix(policy@), at_positions(rows, pos));
    if positions.len() == 0 {
        proof {
            assert(at_positions(rows, pos) =~= Seq::<Seq<char>>::empty());
            lemma_satisfied_rows_none(policy_matrix(policy@));
        }
        return Err(AbeError::PolicyNotSatisfied);
    }
    let lsss = LsssMatrix::from_policy(policy);
    proof {
        lemma_policy_matrix_shape(policy@);
        assert forall|k: int| 0 <= k < lsss.rows@.len() implies (#[trigger] lsss.rows@[k]).vector@.len() == lsss.num_cols by {
            assert(rows_view(lsss.rows@)[k] == row_view(lsss.rows@[k]));
            assert(policy_matrix(policy@)[k].1.len() == policy_width(policy@));
        }
        assert(lsss.satisfied_by(attrs_view(names@)) == sat);
    }
    let coeffs = match lsss.recover_coefficients(names.as_slice()) {
        Ok(c) => c,
        Err(_) => {
            return Err(AbeError::PolicyNotSatisfied);
        },
    };
    let ghost cmap = coeffs@;
    let mut items: Vec<(usize, Fr)> = Vec::new();
    let mut k: usize = 0;
    while k < positions.len()
        invariant
            k <= positions@.len(),
            rows == attrs_view(row_attrs@),
            positions@.map_values(|p: usize| p as int) == pos,
            forall|q: int| 0 <= q < positions@.len() ==> #[trigger] positions@[q] < row_attrs@.len(),
            cmap == coeffs@,
            plan_view(items@) == weighted_positions(rows, pos.take(k as int), cmap),
        decreases positions@.len() - k,
    {
        let p = positions[k];
        proof {
            assert(pos[k as int] == p as int);
            assert(pos.take(k as int + 1).drop_last() =~= pos.take(k as int));
            assert(pos.take(k as int + 1).last() == p as int);
        }
        match coeffs.get(row_attrs[p].as_str()) {
            Some(w) => {
                let ghost old_items = items@;
                items.push((p, w));
                proof {
                    assert(plan_view(items@) =~= plan_view(old_items).push((p as int, w@)));
                }
            },
            None => {},
        }
        k = k + 1;
    }
    proof {
        assert(pos.take(positions@.len() as int) =~= pos);
    }
    Ok(items)
}

} // verus!
