//! Decentralized multi-authority ABE: the analysis of a policy by the
//! authorities that issue its attributes. An attribute `aid:name` is issued
//! by authority `aid`. A policy is satisfied only with keys from some
//! set of authorities; the families of such sets decide how the secret is
//! shared and which keys a decryptor must combine.

use vstd::prelude::*;
use crate::lsss::PolicyNode;
use crate::lsss::Policy;
use crate::text::names;
use crate::text::str_eq;
use crate::field::Fr;
use crate::field::modulus;
use crate::field::inverse_candidate;
use crate::lsss::attrs_view;
use crate::lsss::contains_attr;
use crate::lsss::plan_view;
use crate::error::AbeError;
use vstd::utf8::encode_utf8;
use crate::hash::sha256;
use crate::hash::sha256_digest;
use crate::text::push_bytes;
use crate::schemes::direct_revocation::dedup_first;
use crate::schemes::direct_revocation::component_names;
use crate::schemes::direct_revocation::component_table;
use rand::RngCore;

verus! {

/// The authority and the attribute name of `aid:name`, split at the first
/// colon; `None` without a colon.
pub open spec fn split_authority(attr: Seq<char>) -> Option<(Seq<char>, Seq<char>)> {
    match attr.index_of_first(':') {
        Some(i) => Some((attr.take(i), attr.skip(i + 1))),
        None => None,
    }
}

/// The authority that issues an attribute.
pub open spec fn authority_of(attr: Seq<char>) -> Option<Seq<char>> {
    match split_authority(attr) {
        Some((aid, _)) => Some(aid),
        None => None,
    }
}

/// The authorities that issue some attribute of the policy.
pub open spec fn policy_authorities(p: Policy) -> Set<Seq<char>> {
    Set::new(|a: Seq<char>| exists|i: int| 0 <= i < p.leaves().len() && authority_of(#[trigger] p.leaves()[i]) == Some(a))
}

/// Splits `aid:name` at its first colon into the authority and the name.
pub fn parse_authority_attr(attr: &str) -> (r: Option<(&str, &str)>)
    ensures
        match r {
            Some((aid, name)) => split_authority(attr@) == Some((aid@, name@)),
            None => split_authority(attr@) is None,
        },
{
    let n = attr.unicode_len();
    let mut i: usize = 0;
    while i < n
        invariant
            n == attr@.len(),
            i <= n,
            forall|j: int| 0 <= j < i ==> attr@[j] != ':',
        decreases n - i,
    {
        if attr.get_char(i) == ':' {
            let aid = attr.substring_char(0, i);
            let name = attr.substring_char(i + 1, n);
            proof {
                attr@.index_of_first_ensures(':');
                assert(attr@[i as int] == ':');
                assert(attr@.contains(':'));
                let k = attr@.index_of_first(':')->0;
                assert(!(k < i)) by {
                    if k < i {
                        assert(attr@[k] != ':');
                    }
                }
                assert(!(i < k));
                assert(aid@ =~= attr@.take(i as int));
                assert(name@ =~= attr@.skip(i + 1));
            }
            return Some((aid, name));
        }
        i = i + 1;
    }
    proof {
        attr@.index_of_first_ensures(':');
        assert(!attr@.contains(':')) by {
            if attr@.contains(':') {
                let k = choose|k: int| 0 <= k < attr@.len() && attr@[k] == ':';
                assert(attr@[k] != ':');
            }
        }
    }
    None
}

/// The authority of an attribute, as a string.
pub fn get_authority(attr: &str) -> (r: Option<String>)
    ensures
        match r {
            Some(aid) => authority_of(attr@) == Some(aid@),
            None => authority_of(attr@) is None,
        },
{
    match parse_authority_attr(attr) {
        Some((aid, _)) => Some(String::from_str(aid)),
        None => None,
    }
}

/// A set of authority names, each kept once.
pub struct AuthoritySet {
    members: Vec<String>,
}

impl View for AuthoritySet {
    type V = Set<Seq<char>>;

    closed spec fn view(&self) -> Set<Seq<char>> {
        names(self.members@).to_set()
    }
}

impl AuthoritySet {
    #[verifier::type_invariant]
    closed spec fn each_once(self) -> bool {
        names(self.members@).no_duplicates()
    }

    /// An authority set is finite.
    pub proof fn lemma_finite(&self)
        ensures
            self@.finite(),
    {
    }

    /// The empty set.
    pub fn new() -> (s: Self)
        ensures
            s@ == Set::<Seq<char>>::empty(),
    {
        let s = AuthoritySet { members: Vec::new() };
        assert(names(s.members@) =~= Seq::<Seq<char>>::empty());
        s
    }

    /// Whether `aid` is in the set.
    pub fn contains(&self, aid: &str) -> (b: bool)
        ensures
            b == self@.contains(aid@),
    {
        let mut i: usize = 0;
        while i < self.members.len()
            invariant
                i <= self.members@.len(),
                forall|j: int| 0 <= j < i ==> names(self.members@)[j] != aid@,
            decreases self.members@.len() - i,
        {
            if str_eq(self.members[i].as_str(), aid) {
                assert(names(self.members@)[i as int] == aid@);
                return true;
            }
            i = i + 1;
        }
        false
    }

    /// Adds `aid`; adding a member changes nothing.
    pub fn insert(&mut self, aid: &str)
        ensures
            final(self)@ == old(self)@.insert(aid@),
    {
        proof { use_type_invariant(&*self); }
        if self.contains(aid) {
            assert(self@ =~= self@.insert(aid@));
        } else {
            let ghost before = names(self.members@);
            let mut v: Vec<String> = Vec::new();
            std::mem::swap(&mut v, &mut self.members);
            v.push(String::from_str(aid));
            assert(names(v@) =~= before.push(aid@));
            assert(before.push(aid@).no_duplicates()) by {
                let after = before.push(aid@);
                assert forall|a: int, b: int| 0 <= a < after.len() && 0 <= b < after.len() && a != b
                    implies after[a] != after[b] by {
                    if a < before.len() && b < before.len() {
                        assert(after[a] == before[a] && after[b] == before[b]);
                    } else if a < before.len() {
                        assert(after[a] == before[a]);
                    } else {
                        assert(after[b] == before[b]);
                    }
                }
            }
            proof { before.lemma_push_to_set_commute(aid@); }
            self.members = v;
        }
    }

    /// The members, each once, in the order they were added.
    pub fn members(&self) -> (r: Vec<String>)
        ensures
            names(r@).no_duplicates(),
            names(r@).to_set() == self@,
    {
        proof { use_type_invariant(self); }
        let mut r: Vec<String> = Vec::new();
        let mut i: usize = 0;
        while i < self.members.len()
            invariant
                i <= self.members@.len(),
                names(r@) == names(self.members@).take(i as int),
            decreases self.members@.len() - i,
        {
            let u = self.members[i].clone();
            proof {
                assert(names(r@.push(u)) =~= names(r@).push(u@));
                assert(names(self.members@).take(i + 1) =~= names(self.members@).take(i as int).push(u@));
            }
            r.push(u);
            i = i + 1;
        }
        assert(names(self.members@).take(self.members@.len() as int) =~= names(self.members@));
        r
    }

    /// Adds every member of `other`.
    pub fn extend_with(&mut self, other: &AuthoritySet)
        ensures
            final(self)@ == old(self)@.union(other@),
    {
        proof { use_type_invariant(other); }
        let mut i: usize = 0;
        while i < other.members.len()
            invariant
                i <= other.members@.len(),
                self@ == old(self)@.union(names(other.members@).take(i as int).to_set()),
            decreases other.members@.len() - i,
        {
            self.insert(other.members[i].as_str());
            proof {
                let s = names(other.members@);
                assert(s.take(i + 1) =~= s.take(i as int).push(s[i as int]));
                s.take(i as int).lemma_push_to_set_commute(s[i as int]);
            }
            i = i + 1;
        }
        assert(names(other.members@).take(other.members@.len() as int) =~= names(other.members@));
    }

    /// Whether every member is a member of `other`.
    pub fn is_subset(&self, other: &AuthoritySet) -> (b: bool)
        ensures
            b == self@.subset_of(other@),
    {
        let mut i: usize = 0;
        while i < self.members.len()
            invariant
                i <= self.members@.len(),
                forall|j: int| 0 <= j < i ==> other@.contains(#[trigger] names(self.members@)[j]),
            decreases self.members@.len() - i,
        {
            if !other.contains(self.members[i].as_str()) {
                assert(self@.contains(names(self.members@)[i as int]));
                return false;
            }
            i = i + 1;
        }
        assert forall|a: Seq<char>| self@.contains(a) implies other@.contains(a) by {
            let j = choose|j: int| 0 <= j < names(self.members@).len() && names(self.members@)[j] == a;
        }
        true
    }

    /// Whether the two sets have the same members.
    pub fn same_as(&self, other: &AuthoritySet) -> (b: bool)
        ensures
            b == (self@ == other@),
    {
        let b = self.is_subset(other) && other.is_subset(self);
        proof {
            if b {
                assert(self@ =~= other@);
            }
        }
        b
    }

    /// The number of members.
    pub fn len(&self) -> (n: usize)
        ensures
            n == self@.len(),
    {
        proof {
            use_type_invariant(self);
            names(self.members@).unique_seq_to_set();
        }
        self.members.len()
    }

    /// A copy of the set.
    pub fn copy(&self) -> (r: AuthoritySet)
        ensures
            r@ == self@,
    {
        let members = self.members();
        AuthoritySet { members }
    }
}

impl Clone for AuthoritySet {
    fn clone(&self) -> (r: Self)
        ensures
            r@ == self@,
    {
        self.copy()
    }
}

/// The authorities of a policy's attributes, each once, in the order their
/// attributes first appear.
pub fn collect_authorities(policy: &PolicyNode) -> (r: AuthoritySet)
    ensures
        r@ == policy_authorities(policy@),
{
    let attrs = policy.get_attrs();
    let ghost leaves = policy@.leaves();
    let mut set = AuthoritySet::new();
    let mut i: usize = 0;
    while i < attrs.len()
        invariant
            names(attrs@) == leaves,
            i <= attrs@.len(),
            forall|a: Seq<char>| set@.contains(a) <==> exists|j: int| 0 <= j < i && authority_of(#[trigger] leaves[j]) == Some(a),
        decreases attrs@.len() - i,
    {
        assert(attrs[i as int]@ == leaves[i as int]);
        match get_authority(attrs[i].as_str()) {
            Some(aid) => {
                set.insert(aid.as_str());
                assert forall|a: Seq<char>| set@.contains(a) <==> exists|j: int| 0 <= j < i + 1 && authority_of(#[trigger] leaves[j]) == Some(a) by {
                    if a == aid@ {
                        assert(authority_of(leaves[i as int]) == Some(a));
                    }
                }
            },
            None => {
                assert forall|a: Seq<char>| set@.contains(a) <==> exists|j: int| 0 <= j < i + 1 && authority_of(#[trigger] leaves[j]) == Some(a) by {
                    if exists|j: int| 0 <= j < i + 1 && authority_of(#[trigger] leaves[j]) == Some(a) {
                        let j = choose|j: int| 0 <= j < i + 1 && authority_of(#[trigger] leaves[j]) == Some(a);
                        assert(j != i);
                    }
                }
            },
        }
        i = i + 1;
    }
    assert(set@ =~= policy_authorities(policy@));
    set
}

/// Whether the children of an AND gate draw on different authorities: at
/// least two children, and some child's authorities differ from the
/// first's.
pub open spec fn cross_authority(cs: Seq<Policy>) -> bool {
    cs.len() >= 2 && exists|i: int| 1 <= i < cs.len() && policy_authorities(#[trigger] cs[i]) != policy_authorities(cs[0])
}

/// An AND gate is cross-authority exactly when two of its children, any
/// two, draw on different sets of authorities.
pub proof fn lemma_cross_authority_any_pair(cs: Seq<Policy>)
    ensures
        cross_authority(cs) <==> exists|i: int, j: int|
            0 <= i < cs.len() && 0 <= j < cs.len() && policy_authorities(#[trigger] cs[i]) != policy_authorities(#[trigger] cs[j]),
{
    if cross_authority(cs) {
        let i = choose|i: int| 1 <= i < cs.len() && policy_authorities(#[trigger] cs[i]) != policy_authorities(cs[0]);
        assert(policy_authorities(cs[i]) != policy_authorities(cs[0]));
    }
    if exists|i: int, j: int|
        0 <= i < cs.len() && 0 <= j < cs.len() && policy_authorities(#[trigger] cs[i]) != policy_authorities(#[trigger] cs[j]) {
        let (i, j) = choose|i: int, j: int|
            0 <= i < cs.len() && 0 <= j < cs.len() && policy_authorities(#[trigger] cs[i]) != policy_authorities(#[trigger] cs[j]);
        assert(i != j);
        if policy_authorities(cs[i]) != policy_authorities(cs[0]) {
            assert(i != 0);
            assert(1 <= i < cs.len() && policy_authorities(cs[i]) != policy_authorities(cs[0]));
        } else {
            assert(j != 0);
            assert(1 <= j < cs.len() && policy_authorities(cs[j]) != policy_authorities(cs[0]));
        }
    }
}

/// Whether an AND gate is cross-authority does not depend on the order of
/// its children.
pub proof fn lemma_cross_authority_ignores_order(cs: Seq<Policy>, ds: Seq<Policy>)
    requires
        cs.to_multiset() == ds.to_multiset(),
    ensures
        cross_authority(cs) == cross_authority(ds),
{
    lemma_cross_authority_pair_moves(cs, ds);
    lemma_cross_authority_pair_moves(ds, cs);
}

proof fn lemma_cross_authority_pair_moves(cs: Seq<Policy>, ds: Seq<Policy>)
    requires
        cs.to_multiset() == ds.to_multiset(),
    ensures
        cross_authority(cs) ==> cross_authority(ds),
{
    broadcast use vstd::seq_lib::group_to_multiset_ensures;

    lemma_cross_authority_any_pair(cs);
    lemma_cross_authority_any_pair(ds);
    if cross_authority(cs) {
        let (i, j) = choose|i: int, j: int|
            0 <= i < cs.len() && 0 <= j < cs.len() && policy_authorities(#[trigger] cs[i]) != policy_authorities(#[trigger] cs[j]);
        assert(cs.contains(cs[i]) && cs.contains(cs[j]));
        assert(ds.to_multiset().count(cs[i]) > 0 && ds.to_multiset().count(cs[j]) > 0);
        assert(ds.contains(cs[i]) && ds.contains(cs[j]));
        let a = choose|a: int| 0 <= a < ds.len() && ds[a] == cs[i];
        let b = choose|b: int| 0 <= b < ds.len() && ds[b] == cs[j];
        assert(policy_authorities(ds[a]) != policy_authorities(ds[b]));
    }
}

/// Whether an AND gate with these children spans several authorities.
pub fn is_cross_authority_and(children: &[PolicyNode]) -> (b: bool)
    ensures
        b == cross_authority(crate::lsss::policy_views(children@)),
{
    let ghost cs = crate::lsss::policy_views(children@);
    proof { crate::lsss::lemma_views_map(children@); }
    if children.len() < 2 {
        return false;
    }
    let first = collect_authorities(&children[0]);
    let mut i: usize = 1;
    while i < children.len()
        invariant
            cs == crate::lsss::policy_views(children@),
            cs.len() == children@.len(),
            forall|j: int| 0 <= j < children@.len() ==> cs[j] == children@[j]@,
            1 <= i <= children@.len(),
            first@ == policy_authorities(cs[0]),
            forall|j: int| 1 <= j < i ==> policy_authorities(#[trigger] cs[j]) == policy_authorities(cs[0]),
        decreases children@.len() - i,
    {
        let child = collect_authorities(&children[i]);
        if !child.same_as(&first) {
            assert(policy_authorities(cs[i as int]) != policy_authorities(cs[0]));
            return true;
        }
        i = i + 1;
    }
    false
}

/// A family of authority sets.
pub type Family = Set<Set<Seq<char>>>;

/// The sets of a list of authority sets.
pub open spec fn family_view(v: Seq<AuthoritySet>) -> Seq<Set<Seq<char>>> {
    v.map_values(|s: AuthoritySet| s@)
}

/// The family of an attribute: the single set of its authority, or no set
/// for an attribute without one.
pub open spec fn leaf_family(a: Seq<char>) -> Family {
    match authority_of(a) {
        Some(x) => Set::empty().insert(Set::empty().insert(x)),
        None => Set::empty(),
    }
}

/// Every union of a set of `f` with a set of `g`.
pub open spec fn product(f: Family, g: Family) -> Family {
    Set::new(|s: Set<Seq<char>>| exists|x: Set<Seq<char>>, y: Set<Seq<char>>| #[trigger] f.contains(x) && #[trigger] g.contains(y) && s == x.union(y))
}

/// Every union of one set from each family, in turn.
pub open spec fn product_seq(fs: Seq<Family>) -> Family
    decreases fs.len(),
{
    if fs.len() == 0 {
        Set::empty().insert(Set::empty())
    } else {
        product(product_seq(fs.drop_last()), fs.last())
    }
}

/// Every set of some family of the list.
pub open spec fn union_seq(fs: Seq<Family>) -> Family
    decreases fs.len(),
{
    if fs.len() == 0 {
        Set::empty()
    } else {
        union_seq(fs.drop_last()).union(fs.last())
    }
}

/// The sets of `f` that have no proper subset in `f`.
pub open spec fn minimal(f: Family) -> Family {
    Set::new(|s: Set<Seq<char>>| f.contains(s) && !exists|r: Set<Seq<char>>| #[trigger] f.contains(r) && r.subset_of(s) && r != s)
}

/// Whether `c` lists `k` of the indices below `n`, increasing.
pub open spec fn is_combination(c: Seq<int>, n: int, k: int) -> bool {
    &&& c.len() == k
    &&& forall|i: int| 0 <= i < c.len() ==> 0 <= #[trigger] c[i] < n
    &&& forall|i: int, j: int| 0 <= i < j < c.len() ==> #[trigger] c[i] < #[trigger] c[j]
}

/// The families at the indices listed in `c`.
pub open spec fn select(fs: Seq<Family>, c: Seq<int>) -> Seq<Family> {
    c.map_values(|i: int| fs[i])
}

/// The sets obtained from some `k` of the families, one set from each.
pub open spec fn threshold_family(fs: Seq<Family>, k: int) -> Family {
    Set::new(|s: Set<Seq<char>>| exists|c: Seq<int>| is_combination(c, fs.len() as int, k) && #[trigger] product_seq(select(fs, c)).contains(s))
}

/// The authority sets of a policy: for an attribute, its authority; for an
/// AND, the minimal unions of one set from each child; for an OR, the
/// minimal sets of the children; for a k-of-n gate, the minimal unions of
/// one set from each of some `k` children.
pub open spec fn family(p: Policy) -> Family
    decreases p,
{
    match p {
        Policy::Attr(a) => leaf_family(a),
        Policy::And(cs) => minimal(product_seq(families(cs))),
        Policy::Or(cs) => minimal(union_seq(families(cs))),
        Policy::Threshold(k, cs) => minimal(threshold_family(families(cs), k as int)),
    }
}

/// The families of a list of policies.
pub open spec fn families(cs: Seq<Policy>) -> Seq<Family>
    decreases cs,
{
    if cs.len() == 0 {
        Seq::empty()
    } else {
        families(cs.drop_last()).push(family(cs.last()))
    }
}

/// Every union of a set of `a` with a set of `b`, each union once.
fn product_families(a: &Vec<AuthoritySet>, b: &Vec<AuthoritySet>) -> (r: Vec<AuthoritySet>)
    ensures
        family_view(r@).to_set() == product(family_view(a@).to_set(), family_view(b@).to_set()),
{
    let ghost fa = family_view(a@);
    let ghost fb = family_view(b@);
    let mut r: Vec<AuthoritySet> = Vec::new();
    let mut i: usize = 0;
    while i < a.len()
        invariant
            fa == family_view(a@),
            fb == family_view(b@),
            i <= a@.len(),
            forall|s: Set<Seq<char>>| family_view(r@).to_set().contains(s) <==> exists|x: int, y: int|
                0 <= x < i && 0 <= y < fb.len() && s == #[trigger] fa[x].union(#[trigger] fb[y]),
        decreases a@.len() - i,
    {
        let mut j: usize = 0;
        while j < b.len()
            invariant
                fa == family_view(a@),
                fb == family_view(b@),
                i < a@.len(),
                j <= b@.len(),
                forall|s: Set<Seq<char>>| family_view(r@).to_set().contains(s) <==> (exists|x: int, y: int|
                    0 <= x < i && 0 <= y < fb.len() && s == #[trigger] fa[x].union(#[trigger] fb[y]))
                    || (exists|y: int| 0 <= y < j && s == fa[i as int].union(#[trigger] fb[y])),
            decreases b@.len() - j,
        {
            let mut combined = a[i].copy();
            combined.extend_with(&b[j]);
            let ghost before = family_view(r@);
            r.push(combined);
            proof {
                assert(family_view(r@) =~= before.push(fa[i as int].union(fb[j as int])));
                before.lemma_push_to_set_commute(fa[i as int].union(fb[j as int]));
                assert forall|s: Set<Seq<char>>| family_view(r@).to_set().contains(s) <==> (exists|x: int, y: int|
                    0 <= x < i && 0 <= y < fb.len() && s == #[trigger] fa[x].union(#[trigger] fb[y]))
                    || (exists|y: int| 0 <= y < j + 1 && s == fa[i as int].union(#[trigger] fb[y])) by {
                    if s == fa[i as int].union(fb[j as int]) {
                        assert(exists|y: int| 0 <= y < j + 1 && s == fa[i as int].union(#[trigger] fb[y]));
                    }
                    if exists|y: int| 0 <= y < j + 1 && s == fa[i as int].union(#[trigger] fb[y]) {
                        let y = choose|y: int| 0 <= y < j + 1 && s == fa[i as int].union(#[trigger] fb[y]);
                        if y < j {
                            assert(exists|y: int| 0 <= y < j && s == fa[i as int].union(#[trigger] fb[y]));
                        }
                    }
                }
            }
            j = j + 1;
        }
        proof {
            assert forall|s: Set<Seq<char>>| family_view(r@).to_set().contains(s) <==> exists|x: int, y: int|
                0 <= x < i + 1 && 0 <= y < fb.len() && s == #[trigger] fa[x].union(#[trigger] fb[y]) by {
                if exists|y: int| 0 <= y < fb.len() && s == fa[i as int].union(#[trigger] fb[y]) {
                    let y = choose|y: int| 0 <= y < fb.len() && s == fa[i as int].union(#[trigger] fb[y]);
                    assert(s == fa[i as int].union(fb[y]));
                }
                if exists|x: int, y: int| 0 <= x < i + 1 && 0 <= y < fb.len() && s == #[trigger] fa[x].union(#[trigger] fb[y]) {
                    let (x, y) = choose|x: int, y: int| 0 <= x < i + 1 && 0 <= y < fb.len() && s == #[trigger] fa[x].union(#[trigger] fb[y]);
                    if x == i {
                        assert(exists|y: int| 0 <= y < fb.len() && s == fa[i as int].union(#[trigger] fb[y]));
                    }
                }
            }
        }
        i = i + 1;
    }
    proof {
        let lhs = family_view(r@).to_set();
        let rhs = product(fa.to_set(), fb.to_set());
        assert forall|s: Set<Seq<char>>| lhs.contains(s) <==> rhs.contains(s) by {
            if lhs.contains(s) {
                let (x, y) = choose|x: int, y: int| 0 <= x < a@.len() && 0 <= y < fb.len() && s == #[trigger] fa[x].union(#[trigger] fb[y]);
                assert(fa.to_set().contains(fa[x]));
                assert(fb.to_set().contains(fb[y]));
            }
            if rhs.contains(s) {
                let (x, y) = choose|x: Set<Seq<char>>, y: Set<Seq<char>>| #[trigger] fa.to_set().contains(x) && #[trigger] fb.to_set().contains(y) && s == x.union(y);
                let xi = choose|xi: int| 0 <= xi < fa.len() && fa[xi] == x;
                let yi = choose|yi: int| 0 <= yi < fb.len() && fb[yi] == y;
                assert(s == fa[xi].union(fb[yi]));
            }
        }
        assert(lhs =~= rhs);
    }
    r
}

/// Every member of a family of authority sets is finite.
pub open spec fn finite_members(f: Family) -> bool {
    forall|x: Set<Seq<char>>| #[trigger] f.contains(x) ==> x.finite()
}

/// The sets of a list of authority sets are finite.
proof fn lemma_views_finite(v: Seq<AuthoritySet>)
    ensures
        finite_members(family_view(v).to_set()),
{
    assert forall|x: Set<Seq<char>>| #[trigger] family_view(v).to_set().contains(x) implies x.finite() by {
        let j = choose|j: int| 0 <= j < family_view(v).len() && family_view(v)[j] == x;
        v[j].lemma_finite();
    }
}

/// A proper subset of a finite set is smaller.
proof fn lemma_proper_subset_smaller(r: Set<Seq<char>>, s: Set<Seq<char>>)
    requires
        s.finite(),
        r.subset_of(s),
        r != s,
    ensures
        r.len() < s.len(),
{
    assert(exists|e: Seq<char>| s.contains(e) && !r.contains(e)) by {
        if !exists|e: Seq<char>| s.contains(e) && !r.contains(e) {
            assert(r =~= s);
        }
    }
    let e = choose|e: Seq<char>| s.contains(e) && !r.contains(e);
    assert(r.subset_of(s.remove(e)));
    vstd::set_lib::lemma_len_subset(r, s.remove(e));
}

/// Below every set of a family with finite members lies a minimal set of
/// the family.
proof fn lemma_minimal_below(f: Family, s: Set<Seq<char>>)
    requires
        f.contains(s),
        finite_members(f),
    ensures
        exists|m: Set<Seq<char>>| #[trigger] minimal(f).contains(m) && m.subset_of(s),
    decreases s.len(),
{
    if minimal(f).contains(s) {
        assert(s.subset_of(s));
    } else {
        let r = choose|r: Set<Seq<char>>| #[trigger] f.contains(r) && r.subset_of(s) && r != s;
        lemma_proper_subset_smaller(r, s);
        lemma_minimal_below(f, r);
        let m = choose|m: Set<Seq<char>>| #[trigger] minimal(f).contains(m) && m.subset_of(r);
        assert(m.subset_of(s));
    }
}

/// Adding a set that has a proper subset among the minimal sets changes
/// no minimal set.
proof fn lemma_minimal_insert_dominated(p: Family, x: Set<Seq<char>>, r0: Set<Seq<char>>)
    requires
        minimal(p).contains(r0),
        r0.subset_of(x),
        r0 != x,
    ensures
        minimal(p.insert(x)) == minimal(p),
{
    assert forall|s: Set<Seq<char>>| minimal(p.insert(x)).contains(s) <==> minimal(p).contains(s) by {
        if minimal(p.insert(x)).contains(s) {
            assert(s != x) by {
                if s == x {
                    assert(p.insert(x).contains(r0));
                }
            }
            assert(p.contains(s));
            assert forall|r: Set<Seq<char>>| #[trigger] p.contains(r) && r.subset_of(s) implies r == s by {
                assert(p.insert(x).contains(r));
            }
        }
        if minimal(p).contains(s) {
            assert forall|r: Set<Seq<char>>| #[trigger] p.insert(x).contains(r) && r.subset_of(s) implies r == s by {
                if r == x {
                    assert(r0.subset_of(s));
                    assert(r0 == s);
                    assert(x =~= r0);
                }
            }
        }
    }
    assert(minimal(p.insert(x)) =~= minimal(p));
}

/// Adding a set that has no proper subset among the minimal sets makes it
/// minimal and removes from the minimal sets exactly its proper supersets.
proof fn lemma_minimal_insert_undominated(p: Family, x: Set<Seq<char>>)
    requires
        finite_members(p),
        forall|r: Set<Seq<char>>| #[trigger] minimal(p).contains(r) && r.subset_of(x) ==> r == x,
    ensures
        forall|s: Set<Seq<char>>| #[trigger] minimal(p.insert(x)).contains(s) <==> (s == x || (minimal(p).contains(s)
            && !(x.subset_of(s) && x != s))),
{
    assert forall|s: Set<Seq<char>>| #[trigger] minimal(p.insert(x)).contains(s) <==> (s == x || (minimal(p).contains(s)
        && !(x.subset_of(s) && x != s))) by {
        if s == x {
            assert forall|y: Set<Seq<char>>| #[trigger] p.insert(x).contains(y) && y.subset_of(x) implies y == x by {
                if y != x {
                    assert(p.contains(y));
                    lemma_minimal_below(p, y);
                    let m = choose|m: Set<Seq<char>>| #[trigger] minimal(p).contains(m) && m.subset_of(y);
                    assert(m.subset_of(x));
                    assert(m == x);
                    assert(y =~= x);
                }
            }
        } else {
            if minimal(p.insert(x)).contains(s) {
                assert(p.contains(s));
                assert forall|r: Set<Seq<char>>| #[trigger] p.contains(r) && r.subset_of(s) implies r == s by {
                    assert(p.insert(x).contains(r));
                }
                assert(p.insert(x).contains(x));
            }
            if minimal(p).contains(s) && !(x.subset_of(s) && x != s) {
                assert forall|r: Set<Seq<char>>| #[trigger] p.insert(x).contains(r) && r.subset_of(s) implies r == s by {
                    if r != x {
                        assert(p.contains(r));
                    }
                }
            }
        }
    }
}

/// The position of the first occurrence of `a` in `s`, for `a` in `s`.
pub open spec fn first_at(s: Seq<Set<Seq<char>>>, a: Set<Seq<char>>) -> int
    decreases s.len(),
{
    if s.len() == 0 {
        0
    } else if s.drop_last().contains(a) {
        first_at(s.drop_last(), a)
    } else {
        s.len() - 1
    }
}

/// The first occurrence is an occurrence.
proof fn lemma_first_at(s: Seq<Set<Seq<char>>>, a: Set<Seq<char>>)
    requires
        s.contains(a),
    ensures
        0 <= first_at(s, a) < s.len(),
        s[first_at(s, a)] == a,
    decreases s.len(),
{
    if s.drop_last().contains(a) {
        lemma_first_at(s.drop_last(), a);
    } else {
        let k = choose|k: int| 0 <= k < s.len() && s[k] == a;
        if k < s.len() - 1 {
            assert(s.drop_last()[k] == a);
        }
    }
}

/// Appending keeps the first occurrences of what was there, and puts that
/// of a new element at the end.
proof fn lemma_first_at_push(s: Seq<Set<Seq<char>>>, x: Set<Seq<char>>, a: Set<Seq<char>>)
    ensures
        s.contains(a) ==> first_at(s.push(x), a) == first_at(s, a),
        !s.contains(a) && a == x ==> first_at(s.push(x), a) == s.len(),
{
    assert(s.push(x).drop_last() =~= s);
}

/// The sets that have no proper subset in the list, each once, in the
/// order they first appear; every set of the list contains one of them.
pub fn minimize_sets(sets: Vec<AuthoritySet>) -> (r: Vec<AuthoritySet>)
    ensures
        forall|a: int, b: int| 0 <= a < b < family_view(r@).len() ==> first_at(family_view(sets@), #[trigger] family_view(r@)[a])
            < first_at(family_view(sets@), #[trigger] family_view(r@)[b]),
        family_view(r@).no_duplicates(),
        family_view(r@).to_set() == minimal(family_view(sets@).to_set()),
        forall|s: Set<Seq<char>>| #[trigger] family_view(sets@).contains(s) ==> exists|e: Set<Seq<char>>|
            #[trigger] family_view(r@).contains(e) && e.subset_of(s),
{
    let ghost all = family_view(sets@);
    let mut result: Vec<AuthoritySet> = Vec::new();
    let mut i: usize = 0;
    proof {
        assert(all.take(0).to_set() =~= Set::<Set<Seq<char>>>::empty());
        assert(family_view(result@).to_set() =~= minimal(all.take(0).to_set()));
    }
    while i < sets.len()
        invariant
            all == family_view(sets@),
            i <= sets@.len(),
            family_view(result@).no_duplicates(),
            family_view(result@).to_set() == minimal(all.take(i as int).to_set()),
            forall|a: int, b: int| 0 <= a < b < family_view(result@).len() ==> first_at(all.take(i as int), #[trigger] family_view(result@)[a])
                < first_at(all.take(i as int), #[trigger] family_view(result@)[b]),
        decreases sets@.len() - i,
    {
        let set = &sets[i];
        let ghost x = set@;
        let ghost ps = all.take(i as int);
        let ghost p = ps.to_set();
        let ghost rv = family_view(result@);
        proof {
            assert(all.take(i + 1) =~= all.take(i as int).push(x));
            all.take(i as int).lemma_push_to_set_commute(x);
            lemma_views_finite(sets@.take(i as int));
            assert(family_view(sets@.take(i as int)) =~= all.take(i as int));
        }
        // Is some kept set a proper subset of this one?
        let mut dominated = false;
        let mut j: usize = 0;
        while j < result.len()
            invariant
                rv == family_view(result@),
                x == set@,
                j <= result@.len(),
                dominated == exists|t: int| 0 <= t < j && (#[trigger] rv[t]).subset_of(x) && rv[t] != x,
            decreases result@.len() - j,
        {
            let sub = result[j].is_subset(set);
            let same = result[j].same_as(set);
            proof {
                assert(rv[j as int] == result@[j as int]@);
                if sub && !same {
                    assert((rv[j as int]).subset_of(x) && rv[j as int] != x);
                }
                assert(dominated || (sub && !same) <==> exists|t: int| 0 <= t < j + 1 && (#[trigger] rv[t]).subset_of(x) && rv[t] != x) by {
                    if exists|t: int| 0 <= t < j + 1 && (#[trigger] rv[t]).subset_of(x) && rv[t] != x {
                        let t = choose|t: int| 0 <= t < j + 1 && (#[trigger] rv[t]).subset_of(x) && rv[t] != x;
                        if t < j {
                            assert(dominated);
                        }
                    }
                }
            }
            if sub && !same {
                dominated = true;
            }
            j = j + 1;
        }
        if dominated {
            proof {
                let t = choose|t: int| 0 <= t < result@.len() && (#[trigger] rv[t]).subset_of(x) && rv[t] != x;
                assert(rv.to_set().contains(rv[t]));
                lemma_minimal_insert_dominated(p, x, rv[t]);
                assert forall|a: int| 0 <= a < rv.len() implies first_at(ps.push(x), #[trigger] rv[a]) == first_at(ps, rv[a]) by {
                    assert(rv.to_set().contains(rv[a]));
                    assert(p.contains(rv[a]));
                    lemma_first_at_push(ps, x, rv[a]);
                }
                assert(all.take(i + 1) =~= ps.push(x));
            }
        } else {
            // Drop the kept sets this one is a proper subset of.
            let mut kept: Vec<AuthoritySet> = Vec::new();
            let mut present = false;
            let mut j: usize = 0;
            while j < result.len()
                invariant
                    rv == family_view(result@),
                    x == set@,
                    rv.no_duplicates(),
                    j <= result@.len(),
                    family_view(kept@).no_duplicates(),
                    forall|s: Set<Seq<char>>| family_view(kept@).contains(s) <==> exists|t: int| 0 <= t < j && s == #[trigger] rv[t]
                        && !(x.subset_of(rv[t]) && x != rv[t]),
                    present == family_view(kept@).contains(x),
                    forall|a: int, b: int| 0 <= a < b < rv.len() ==> first_at(ps, #[trigger] rv[a]) < first_at(ps, #[trigger] rv[b]),
                    forall|a: int, b: int| 0 <= a < b < family_view(kept@).len() ==> first_at(ps, #[trigger] family_view(kept@)[a])
                        < first_at(ps, #[trigger] family_view(kept@)[b]),
                decreases result@.len() - j,
            {
                let keep = !(set.is_subset(&result[j]) && !set.same_as(&result[j]));
                proof { assert(rv[j as int] == result@[j as int]@); }
                if keep {
                    let same = set.same_as(&result[j]);
                    let ghost before = family_view(kept@);
                    kept.push(result[j].copy());
                    proof {
                        assert(family_view(kept@) =~= before.push(rv[j as int]));
                        assert(!before.contains(rv[j as int])) by {
                            if before.contains(rv[j as int]) {
                                let k = choose|k: int| 0 <= k < before.len() && before[k] == rv[j as int];
                                let t = choose|t: int| 0 <= t < j && before[k] == #[trigger] rv[t] && !(x.subset_of(rv[t]) && x != rv[t]);
                            }
                        }
                        assert(family_view(kept@).no_duplicates()) by {
                            let after = family_view(kept@);
                            assert forall|a: int, b: int| 0 <= a < after.len() && 0 <= b < after.len() && a != b
                                implies after[a] != after[b] by {
                                if a < before.len() && b < before.len() {
                                    assert(after[a] == before[a] && after[b] == before[b]);
                                } else if a < before.len() {
                                    assert(after[a] == before[a]);
                                } else {
                                    assert(after[b] == before[b]);
                                }
                            }
                        }
                        assert forall|a: int, b: int| 0 <= a < b < family_view(kept@).len() implies first_at(ps, #[trigger] family_view(kept@)[a])
                            < first_at(ps, #[trigger] family_view(kept@)[b]) by {
                            if b < before.len() {
                                assert(family_view(kept@)[a] == before[a] && family_view(kept@)[b] == before[b]);
                            } else {
                                assert(family_view(kept@)[a] == before[a]);
                                assert(before.contains(before[a]));
                                let t = choose|t: int| 0 <= t < j && before[a] == #[trigger] rv[t] && !(x.subset_of(rv[t]) && x != rv[t]);
                                assert(family_view(kept@)[b] == rv[j as int]);
                            }
                        }
                        assert forall|s: Set<Seq<char>>| family_view(kept@).contains(s) <==> exists|t: int| 0 <= t < j + 1 && s == #[trigger] rv[t]
                            && !(x.subset_of(rv[t]) && x != rv[t]) by {
                            if s == rv[j as int] {
                                assert(family_view(kept@)[before.len() as int] == s);
                            }
                            if family_view(kept@).contains(s) && s != rv[j as int] {
                                assert(before.contains(s)) by {
                                    let k = choose|k: int| 0 <= k < family_view(kept@).len() && family_view(kept@)[k] == s;
                                    assert(k < before.len());
                                    assert(before[k] == s);
                                }
                            }
                            if exists|t: int| 0 <= t < j + 1 && s == #[trigger] rv[t] && !(x.subset_of(rv[t]) && x != rv[t]) {
                                let t = choose|t: int| 0 <= t < j + 1 && s == #[trigger] rv[t] && !(x.subset_of(rv[t]) && x != rv[t]);
                                if t < j {
                                    assert(before.contains(s));
                                    let k = choose|k: int| 0 <= k < before.len() && before[k] == s;
                                    assert(family_view(kept@)[k] == s);
                                } else {
                                    assert(family_view(kept@)[before.len() as int] == s);
                                }
                            }
                        }
                    }
                    if same {
                        present = true;
                    }
                    proof {
                        if !same {
                            assert(family_view(kept@).contains(x) == before.contains(x)) by {
                                if family_view(kept@).contains(x) {
                                    let k = choose|k: int| 0 <= k < family_view(kept@).len() && family_view(kept@)[k] == x;
                                    assert(k < before.len());
                                    assert(before[k] == x);
                                }
                                if before.contains(x) {
                                    let k = choose|k: int| 0 <= k < before.len() && before[k] == x;
                                    assert(family_view(kept@)[k] == x);
                                }
                            }
                        } else {
                            assert(family_view(kept@)[before.len() as int] == x);
                        }
                    }
                } else {
                    proof {
                        assert forall|s: Set<Seq<char>>| family_view(kept@).contains(s) <==> exists|t: int| 0 <= t < j + 1 && s == #[trigger] rv[t]
                            && !(x.subset_of(rv[t]) && x != rv[t]) by {
                            if exists|t: int| 0 <= t < j + 1 && s == #[trigger] rv[t] && !(x.subset_of(rv[t]) && x != rv[t]) {
                                let t = choose|t: int| 0 <= t < j + 1 && s == #[trigger] rv[t] && !(x.subset_of(rv[t]) && x != rv[t]);
                                assert(t != j);
                            }
                        }
                    }
                }
                j = j + 1;
            }
            let ghost kb = family_view(kept@);
            proof {
                assert forall|a: int| 0 <= a < kb.len() implies ps.contains(#[trigger] kb[a]) && first_at(ps.push(x), kb[a]) == first_at(ps, kb[a])
                    && first_at(ps, kb[a]) < ps.len() by {
                    assert(kb.contains(kb[a]));
                    let t = choose|t: int| 0 <= t < rv.len() && kb[a] == #[trigger] rv[t] && !(x.subset_of(rv[t]) && x != rv[t]);
                    assert(rv.to_set().contains(rv[t]));
                    assert(p.contains(rv[t]));
                    lemma_first_at_push(ps, x, kb[a]);
                    lemma_first_at(ps, kb[a]);
                }
                if !present {
                    assert(!ps.contains(x)) by {
                        if ps.contains(x) {
                            lemma_views_finite(sets@.take(i as int));
                            assert(p.contains(x));
                            lemma_minimal_below(p, x);
                            let m = choose|m: Set<Seq<char>>| #[trigger] minimal(p).contains(m) && m.subset_of(x);
                            assert(rv.to_set().contains(m));
                            let t = choose|t: int| 0 <= t < rv.len() && rv[t] == m;
                            if m == x {
                                assert(!(x.subset_of(rv[t]) && x != rv[t]));
                                assert(kb.contains(x));
                            } else {
                                assert(rv[t].subset_of(x) && rv[t] != x);
                            }
                        }
                    }
                    lemma_first_at_push(ps, x, x);
                }
                assert(all.take(i + 1) =~= ps.push(x));
            }
            if !present {
                let ghost before = family_view(kept@);
                kept.push(set.copy());
                proof {
                    assert(family_view(kept@) =~= before.push(x));
                    assert forall|a: int, b: int| 0 <= a < b < family_view(kept@).len() implies first_at(ps.push(x), #[trigger] family_view(kept@)[a])
                        < first_at(ps.push(x), #[trigger] family_view(kept@)[b]) by {
                        assert(family_view(kept@)[a] == before[a]);
                        if b < before.len() {
                            assert(family_view(kept@)[b] == before[b]);
                        } else {
                            assert(family_view(kept@)[b] == x);
                        }
                    }
                    assert(family_view(kept@).no_duplicates()) by {
                        let after = family_view(kept@);
                        assert forall|a: int, b: int| 0 <= a < after.len() && 0 <= b < after.len() && a != b
                            implies after[a] != after[b] by {
                            if a < before.len() && b < before.len() {
                                assert(after[a] == before[a] && after[b] == before[b]);
                            } else if a < before.len() {
                                assert(after[a] == before[a]);
                            } else {
                                assert(after[b] == before[b]);
                            }
                        }
                    }
                    before.lemma_push_to_set_commute(x);
                    assert(family_view(kept@)[before.len() as int] == x);
                }
            }
            proof {
                assert forall|r: Set<Seq<char>>| #[trigger] minimal(p).contains(r) && r.subset_of(x) implies r == x by {
                    assert(rv.to_set().contains(r));
                    let t = choose|t: int| 0 <= t < rv.len() && rv[t] == r;
                }
                lemma_minimal_insert_undominated(p, x);
                let kv = family_view(kept@).to_set();
                assert forall|s: Set<Seq<char>>| kv.contains(s) <==> minimal(p.insert(x)).contains(s) by {
                    if s != x {
                        if kv.contains(s) {
                            assert(family_view(kept@).contains(s));
                            let t = choose|t: int| 0 <= t < rv.len() && s == #[trigger] rv[t]
                                && !(x.subset_of(rv[t]) && x != rv[t]);
                            assert(rv.to_set().contains(rv[t]));
                        }
                        if minimal(p.insert(x)).contains(s) {
                            assert(rv.to_set().contains(s));
                            let t = choose|t: int| 0 <= t < rv.len() && rv[t] == s;
                            assert(family_view(kept@).contains(s));
                        }
                    } else {
                        assert(family_view(kept@).contains(x));
                    }
                }
                assert(kv =~= minimal(p.insert(x)));
            }
            result = kept;
        }
        i = i + 1;
    }
    assert(all.take(sets@.len() as int) =~= all);
    proof {
        lemma_views_finite(sets@);
        assert forall|s: Set<Seq<char>>| #[trigger] all.contains(s) implies exists|e: Set<Seq<char>>|
            #[trigger] family_view(result@).contains(e) && e.subset_of(s) by {
            assert(all.to_set().contains(s));
            lemma_minimal_below(all.to_set(), s);
            let m = choose|m: Set<Seq<char>>| #[trigger] minimal(all.to_set()).contains(m) && m.subset_of(s);
            assert(family_view(result@).to_set().contains(m));
        }
    }
    result
}

/// Index lists as integer sequences.
pub open spec fn combo_view(v: Seq<Vec<usize>>) -> Seq<Seq<int>> {
    v.map_values(|c: Vec<usize>| c@.map_values(|x: usize| x as int))
}

/// `i` followed by the indices of `s` moved past `i`.
pub open spec fn shift_combo(i: int, s: Seq<int>) -> Seq<int> {
    seq![i] + s.map_values(|x: int| x + i + 1)
}

/// Every entry of a combination is at least its position past the first.
proof fn lemma_combination_spread(c: Seq<int>, n: int, k: int, j: int)
    requires
        is_combination(c, n, k),
        0 <= j < k,
    ensures
        c[j] >= c[0] + j,
    decreases j,
{
    if j > 0 {
        lemma_combination_spread(c, n, k, j - 1);
        assert(c[j - 1] < c[j]);
    }
}

/// Combinations starting with `i` are exactly the shifted combinations of
/// the indices past `i`.
proof fn lemma_shift_combo(i: int, n: int, k: int, c: Seq<int>)
    requires
        0 <= i < n,
        k >= 1,
    ensures
        is_combination(c, n, k) && c[0] == i ==> is_combination(c.drop_first().map_values(|x: int| x - i - 1), n - i - 1, k - 1)
            && shift_combo(i, c.drop_first().map_values(|x: int| x - i - 1)) == c,
        forall|s: Seq<int>| is_combination(s, n - i - 1, k - 1) ==> #[trigger] is_combination(shift_combo(i, s), n, k)
            && shift_combo(i, s)[0] == i,
{
    if is_combination(c, n, k) && c[0] == i {
        let t = c.drop_first().map_values(|x: int| x - i - 1);
        assert forall|a: int| 0 <= a < t.len() implies 0 <= #[trigger] t[a] < n - i - 1 by {
            assert(c[0] < c[a + 1]);
        }
        assert forall|a: int, b: int| 0 <= a < b < t.len() implies #[trigger] t[a] < #[trigger] t[b] by {
            assert(c[a + 1] < c[b + 1]);
        }
        assert(shift_combo(i, t) =~= c);
    }
    assert forall|s: Seq<int>| is_combination(s, n - i - 1, k - 1) implies #[trigger] is_combination(shift_combo(i, s), n, k)
        && shift_combo(i, s)[0] == i by {
        let c2 = shift_combo(i, s);
        assert forall|a: int| 0 <= a < c2.len() implies 0 <= #[trigger] c2[a] < n by {
            if a > 0 {
                assert(c2[a] == s[a - 1] + i + 1);
            }
        }
        assert forall|a: int, b: int| 0 <= a < b < c2.len() implies #[trigger] c2[a] < #[trigger] c2[b] by {
            if a > 0 {
                assert(s[a - 1] < s[b - 1]);
            }
            assert(c2[b] == s[b - 1] + i + 1);
        }
    }
}

/// All ways to pick `k` of the indices `0..n`, each as an increasing list
/// and each once: the lists starting with 0 first, then those starting with
/// 1, and so on.
pub fn combinations(n: usize, k: usize) -> (r: Vec<Vec<usize>>)
    ensures
        forall|c: Seq<int>| is_combination(c, n as int, k as int) <==> #[trigger] combo_view(r@).contains(c),
        combo_view(r@).no_duplicates(),
    decreases k,
{
    if k == 0 {
        let r: Vec<Vec<usize>> = vec![Vec::new()];
        proof {
            assert forall|c: Seq<int>| is_combination(c, n as int, k as int) <==> #[trigger] combo_view(r@).contains(c) by {
                if is_combination(c, n as int, k as int) {
                    assert(c =~= combo_view(r@)[0]);
                }
            }
        }
        return r;
    }
    if k > n {
        let r: Vec<Vec<usize>> = Vec::new();
        proof {
            assert forall|c: Seq<int>| is_combination(c, n as int, k as int) <==> #[trigger] combo_view(r@).contains(c) by {
                if is_combination(c, n as int, k as int) {
                    lemma_combination_spread(c, n as int, k as int, k - 1);
                }
            }
        }
        return r;
    }
    let mut result: Vec<Vec<usize>> = Vec::new();
    let mut i: usize = 0;
    while i <= n - k
        invariant
            1 <= k <= n,
            i <= n - k + 1,
            combo_view(result@).no_duplicates(),
            forall|c: Seq<int>| #[trigger] combo_view(result@).contains(c) <==> is_combination(c, n as int, k as int) && c[0] < i,
        decreases n - k + 1 - i,
    {
        let sub = combinations(n - i - 1, k - 1);
        let ghost sv = combo_view(sub@);
        let mut t: usize = 0;
        while t < sub.len()
            invariant
                1 <= k <= n,
                i <= n - k,
                sv == combo_view(sub@),
                sv.no_duplicates(),
                forall|c: Seq<int>| is_combination(c, n - i - 1, k - 1) <==> #[trigger] sv.contains(c),
                t <= sub@.len(),
                combo_view(result@).no_duplicates(),
                forall|c: Seq<int>| #[trigger] combo_view(result@).contains(c) <==> (is_combination(c, n as int, k as int) && c[0] < i)
                    || exists|u: int| 0 <= u < t && c == shift_combo(i as int, #[trigger] sv[u]),
            decreases sub@.len() - t,
        {
            let src = &sub[t];
            let mut c: Vec<usize> = Vec::new();
            c.push(i);
            let mut m: usize = 0;
            proof {
                assert(sv.contains(sv[t as int]));
            }
            while m < src.len()
                invariant
                    i <= n - k,
                    sv == combo_view(sub@),
                    t < sub@.len(),
                    src@ == sub@[t as int]@,
                    is_combination(sv[t as int], n - i - 1, k - 1),
                    m <= src@.len(),
                    c@.map_values(|x: usize| x as int) == shift_combo(i as int, sv[t as int]).take(m + 1),
                decreases src@.len() - m,
            {
                assert(sv[t as int][m as int] == src@[m as int] as int);
                let x = src[m] + i + 1;
                let ghost sc = shift_combo(i as int, sv[t as int]);
                let ghost prev = c@;
                c.push(x);
                proof {
                    assert(sc[m + 1] == x as int);
                    assert(c@.map_values(|x: usize| x as int) =~= prev.map_values(|x: usize| x as int).push(x as int));
                    assert(sc.take(m + 2) =~= sc.take(m + 1).push(sc[m + 1]));
                }
                m = m + 1;
            }
            let ghost new_c = shift_combo(i as int, sv[t as int]);
            let ghost before = combo_view(result@);
            proof {
                assert(c@.map_values(|x: usize| x as int) =~= new_c);
                lemma_shift_combo(i as int, n as int, k as int, new_c);
            }
            result.push(c);
            proof {
                assert(combo_view(result@) =~= before.push(new_c));
                assert(!before.contains(new_c)) by {
                    if before.contains(new_c) {
                        if !(is_combination(new_c, n as int, k as int) && new_c[0] < i) {
                            let u = choose|u: int| 0 <= u < t && new_c == shift_combo(i as int, #[trigger] sv[u]);
                            assert(sv[u] =~= sv[t as int]) by {
                                assert forall|a: int| 0 <= a < sv[u].len() implies sv[u][a] == sv[t as int][a] by {
                                    assert(shift_combo(i as int, sv[u])[a + 1] == shift_combo(i as int, sv[t as int])[a + 1]);
                                }
                                assert(sv[u].len() + 1 == new_c.len());
                            }
                        }
                    }
                }
                assert(combo_view(result@).no_duplicates()) by {
                    let after = combo_view(result@);
                    assert forall|a: int, b: int| 0 <= a < after.len() && 0 <= b < after.len() && a != b
                        implies after[a] != after[b] by {
                        if a < before.len() && b < before.len() {
                            assert(after[a] == before[a] && after[b] == before[b]);
                        } else if a < before.len() {
                            assert(after[a] == before[a]);
                        } else {
                            assert(after[b] == before[b]);
                        }
                    }
                }
                assert forall|c: Seq<int>| #[trigger] combo_view(result@).contains(c) <==> (is_combination(c, n as int, k as int) && c[0] < i)
                    || exists|u: int| 0 <= u < t + 1 && c == shift_combo(i as int, #[trigger] sv[u]) by {
                    if combo_view(result@).contains(c) {
                        let q = choose|q: int| 0 <= q < combo_view(result@).len() && combo_view(result@)[q] == c;
                        if q < before.len() {
                            assert(before[q] == c);
                            assert(before.contains(c));
                        } else {
                            assert(c == shift_combo(i as int, sv[t as int]));
                        }
                    }
                    if exists|u: int| 0 <= u < t + 1 && c == shift_combo(i as int, #[trigger] sv[u]) {
                        let u = choose|u: int| 0 <= u < t + 1 && c == shift_combo(i as int, #[trigger] sv[u]);
                        if u < t {
                            assert(before.contains(c));
                            let q = choose|q: int| 0 <= q < before.len() && before[q] == c;
                            assert(combo_view(result@)[q] == c);
                        } else {
                            assert(combo_view(result@)[before.len() as int] == c);
                        }
                    }
                    if is_combination(c, n as int, k as int) && c[0] < i {
                        assert(before.contains(c));
                        let q = choose|q: int| 0 <= q < before.len() && before[q] == c;
                        assert(combo_view(result@)[q] == c);
                    }
                }
            }
            t = t + 1;
        }
        proof {
            assert forall|c: Seq<int>| #[trigger] combo_view(result@).contains(c) <==> is_combination(c, n as int, k as int) && c[0] < i + 1 by {
                if combo_view(result@).contains(c) {
                    if exists|u: int| 0 <= u < sub@.len() && c == shift_combo(i as int, #[trigger] sv[u]) {
                        let u = choose|u: int| 0 <= u < sub@.len() && c == shift_combo(i as int, #[trigger] sv[u]);
                        assert(sv.contains(sv[u]));
                        lemma_shift_combo(i as int, n as int, k as int, c);
                    }
                }
                if is_combination(c, n as int, k as int) && c[0] < i + 1 && c[0] == i {
                    lemma_shift_combo(i as int, n as int, k as int, c);
                    let tl = c.drop_first().map_values(|x: int| x - i - 1);
                    assert(sv.contains(tl));
                    let u = choose|u: int| 0 <= u < sv.len() && sv[u] == tl;
                    assert(c == shift_combo(i as int, sv[u]));
                }
            }
        }
        i = i + 1;
    }
    proof {
        assert forall|c: Seq<int>| is_combination(c, n as int, k as int) implies c[0] < i by {
            lemma_combination_spread(c, n as int, k as int, k - 1);
        }
    }
    result
}

/// The set of a concatenation is the union of the sets.
proof fn lemma_to_set_concat<A>(a: Seq<A>, b: Seq<A>)
    ensures
        (a + b).to_set() == a.to_set().union(b.to_set()),
{
    assert forall|x: A| (a + b).to_set().contains(x) <==> a.to_set().union(b.to_set()).contains(x) by {
        if (a + b).to_set().contains(x) {
            let j = choose|j: int| 0 <= j < (a + b).len() && (a + b)[j] == x;
            if j < a.len() {
                assert(a[j] == x);
            } else {
                assert(b[j - a.len()] == x);
            }
        }
        if a.to_set().contains(x) {
            let j = choose|j: int| 0 <= j < a.len() && a[j] == x;
            assert((a + b)[j] == x);
        }
        if b.to_set().contains(x) {
            let j = choose|j: int| 0 <= j < b.len() && b[j] == x;
            assert((a + b)[a.len() + j] == x);
        }
    }
    assert((a + b).to_set() =~= a.to_set().union(b.to_set()));
}

/// The families of a list are the family of each policy, in order.
proof fn lemma_families(cs: Seq<Policy>)
    ensures
        families(cs).len() == cs.len(),
        forall|j: int| 0 <= j < cs.len() ==> #[trigger] families(cs)[j] == family(cs[j]),
    decreases cs.len(),
{
    if cs.len() > 0 {
        lemma_families(cs.drop_last());
        assert forall|j: int| 0 <= j < cs.len() implies #[trigger] families(cs)[j] == family(cs[j]) by {
            if j < cs.len() - 1 {
                assert(cs.drop_last()[j] == cs[j]);
            }
        }
    }
}

/// Whether keys from the authorities in `a` alone can satisfy the policy:
/// an attribute when its authority is in `a`, an AND gate when every
/// child can be, an OR gate when one can be, a k-of-n gate when some `k`
/// children can be.
pub open spec fn authorities_suffice(p: Policy, a: Set<Seq<char>>) -> bool
    decreases p,
{
    match p {
        Policy::Attr(x) => authority_of(x) matches Some(y) && a.contains(y),
        Policy::And(cs) => forall|i: int| 0 <= i < cs.len() ==> authorities_suffice(#[trigger] cs[i], a),
        Policy::Or(cs) => exists|i: int| 0 <= i < cs.len() && authorities_suffice(#[trigger] cs[i], a),
        Policy::Threshold(k, cs) => exists|c: Seq<int>|
            is_combination(c, cs.len() as int, k as int) && forall|i: int| 0 <= i < c.len() ==> authorities_suffice(#[trigger] cs[c[i]], a),
    }
}

/// More authorities suffice wherever fewer do.
pub proof fn lemma_suffice_monotone(p: Policy, a: Set<Seq<char>>, b: Set<Seq<char>>)
    requires
        authorities_suffice(p, a),
        a.subset_of(b),
    ensures
        authorities_suffice(p, b),
    decreases p,
{
    match p {
        Policy::Attr(_) => {},
        Policy::And(cs) => {
            assert forall|i: int| 0 <= i < cs.len() implies authorities_suffice(#[trigger] cs[i], b) by {
                lemma_suffice_monotone(cs[i], a, b);
            }
        },
        Policy::Or(cs) => {
            let i = choose|i: int| 0 <= i < cs.len() && authorities_suffice(#[trigger] cs[i], a);
            lemma_suffice_monotone(cs[i], a, b);
        },
        Policy::Threshold(k, cs) => {
            let c = choose|c: Seq<int>|
                is_combination(c, cs.len() as int, k as int) && forall|i: int| 0 <= i < c.len() ==> authorities_suffice(#[trigger] cs[c[i]], a);
            assert forall|i: int| 0 <= i < c.len() implies authorities_suffice(#[trigger] cs[c[i]], b) by {
                lemma_suffice_monotone(cs[c[i]], a, b);
            }
        },
    }
}

/// Whether some set of `f` lies within `s`.
pub open spec fn has_below(f: Family, s: Set<Seq<char>>) -> bool {
    exists|x: Set<Seq<char>>| #[trigger] f.contains(x) && x.subset_of(s)
}

/// A set of a product holds a set of each family.
proof fn lemma_product_parts(fs: Seq<Family>, s: Set<Seq<char>>)
    requires
        product_seq(fs).contains(s),
    ensures
        forall|i: int| 0 <= i < fs.len() ==> #[trigger] has_below(fs[i], s),
    decreases fs.len(),
{
    if fs.len() > 0 {
        let d = fs.drop_last();
        let (x, y) = choose|x: Set<Seq<char>>, y: Set<Seq<char>>| #[trigger] product_seq(d).contains(x) && #[trigger] fs.last().contains(y) && s == x.union(y);
        lemma_product_parts(d, x);
        assert forall|i: int| 0 <= i < fs.len() implies #[trigger] has_below(fs[i], s) by {
            if i < d.len() {
                assert(d[i] == fs[i]);
                assert(has_below(d[i], x));
                let z = choose|z: Set<Seq<char>>| d[i].contains(z) && z.subset_of(x);
                assert(z.subset_of(s)) by {
                    assert forall|t: Seq<char>| z.contains(t) implies s.contains(t) by {
                        assert(x.contains(t));
                    }
                }
                assert(fs[i].contains(z) && z.subset_of(s));
            } else {
                assert(fs[i] == fs.last());
                assert(y.subset_of(s)) by {
                    assert forall|t: Seq<char>| y.contains(t) implies s.contains(t) by {}
                }
                assert(fs[i].contains(y) && y.subset_of(s));
            }
        }
    }
}

/// A set of each family, all within `a`, give a set of the product within
/// `a`.
proof fn lemma_product_below(fs: Seq<Family>, a: Set<Seq<char>>)
    requires
        forall|i: int| 0 <= i < fs.len() ==> #[trigger] has_below(fs[i], a),
    ensures
        exists|s: Set<Seq<char>>| #[trigger] product_seq(fs).contains(s) && s.subset_of(a),
    decreases fs.len(),
{
    if fs.len() == 0 {
        let e = Set::<Seq<char>>::empty();
        assert(product_seq(fs).contains(e) && e.subset_of(a));
    } else {
        let d = fs.drop_last();
        assert forall|i: int| 0 <= i < d.len() implies #[trigger] has_below(d[i], a) by {
            assert(d[i] == fs[i]);
            assert(has_below(fs[i], a));
            let x = choose|x: Set<Seq<char>>| fs[i].contains(x) && x.subset_of(a);
            assert(d[i].contains(x));
        }
        lemma_product_below(d, a);
        let s0 = choose|s: Set<Seq<char>>| #[trigger] product_seq(d).contains(s) && s.subset_of(a);
        assert(fs[fs.len() - 1] == fs.last());
        assert(has_below(fs[fs.len() - 1], a));
        let x = choose|x: Set<Seq<char>>| fs[fs.len() - 1].contains(x) && x.subset_of(a);
        let s = s0.union(x);
        assert(product_seq(d).contains(s0) && fs.last().contains(x) && s == s0.union(x));
        assert(s.subset_of(a)) by {
            assert forall|t: Seq<char>| s.contains(t) implies a.contains(t) by {
                if s0.contains(t) {
                } else {
                    assert(x.contains(t));
                }
            }
        }
        assert(product_seq(fs).contains(s) && s.subset_of(a));
    }
}

/// A product of families with finite members has finite members.
proof fn lemma_product_finite(fs: Seq<Family>)
    requires
        forall|i: int| 0 <= i < fs.len() ==> finite_members(#[trigger] fs[i]),
    ensures
        finite_members(product_seq(fs)),
    decreases fs.len(),
{
    if fs.len() > 0 {
        let d = fs.drop_last();
        assert forall|i: int| 0 <= i < d.len() implies finite_members(#[trigger] d[i]) by {
            assert(d[i] == fs[i]);
        }
        lemma_product_finite(d);
        assert(finite_members(fs[fs.len() - 1]));
        assert forall|s: Set<Seq<char>>| #[trigger] product_seq(fs).contains(s) implies s.finite() by {
            let (x, y) = choose|x: Set<Seq<char>>, y: Set<Seq<char>>| #[trigger] product_seq(d).contains(x) && #[trigger] fs.last().contains(y) && s == x.union(y);
            vstd::set::axiom_set_union_finite(x, y);
        }
    }
}

/// The sets of a union of families are the sets of its families.
proof fn lemma_union_members(fs: Seq<Family>)
    ensures
        forall|s: Set<Seq<char>>| #[trigger] union_seq(fs).contains(s) <==> exists|i: int| 0 <= i < fs.len() && #[trigger] fs[i].contains(s),
    decreases fs.len(),
{
    if fs.len() > 0 {
        let d = fs.drop_last();
        lemma_union_members(d);
        assert forall|s: Set<Seq<char>>| #[trigger] union_seq(fs).contains(s) <==> exists|i: int| 0 <= i < fs.len() && #[trigger] fs[i].contains(s) by {
            if union_seq(d).contains(s) {
                let i = choose|i: int| 0 <= i < d.len() && #[trigger] d[i].contains(s);
                assert(fs[i] == d[i]);
            }
            if exists|i: int| 0 <= i < fs.len() && #[trigger] fs[i].contains(s) {
                let i = choose|i: int| 0 <= i < fs.len() && #[trigger] fs[i].contains(s);
                if i < d.len() {
                    assert(d[i] == fs[i]);
                }
            }
        }
    }
}

/// The authority sets of a policy suffice for it and have finite members,
/// and below every set of authorities that suffices lies one of them.
proof fn lemma_family_suffices(p: Policy)
    ensures
        finite_members(family(p)),
        forall|e: Set<Seq<char>>| #[trigger] family(p).contains(e) ==> authorities_suffice(p, e),
        forall|a: Set<Seq<char>>| authorities_suffice(p, a) ==> exists|e: Set<Seq<char>>| #[trigger] family(p).contains(e) && e.subset_of(a),
    decreases p,
{
    match p {
        Policy::Attr(x) => {
            assert forall|a: Set<Seq<char>>| authorities_suffice(p, a) implies exists|e: Set<Seq<char>>| #[trigger] family(p).contains(e) && e.subset_of(a) by {
                let y = authority_of(x)->Some_0;
                let e = Set::<Seq<char>>::empty().insert(y);
                assert(family(p).contains(e) && e.subset_of(a));
            }
        },
        Policy::And(cs) => {
            let fs = families(cs);
            lemma_families(cs);
            assert forall|i: int| 0 <= i < fs.len() implies finite_members(#[trigger] fs[i]) by {
                lemma_family_suffices(cs[i]);
            }
            lemma_product_finite(fs);
            assert forall|e: Set<Seq<char>>| #[trigger] family(p).contains(e) implies authorities_suffice(p, e) by {
                lemma_product_parts(fs, e);
                assert forall|i: int| 0 <= i < cs.len() implies authorities_suffice(#[trigger] cs[i], e) by {
                    assert(fs[i] == family(cs[i]));
                    assert(has_below(fs[i], e));
                    let z = choose|z: Set<Seq<char>>| fs[i].contains(z) && z.subset_of(e);
                    lemma_family_suffices(cs[i]);
                    lemma_suffice_monotone(cs[i], z, e);
                }
            }
            assert forall|a: Set<Seq<char>>| authorities_suffice(p, a) implies exists|e: Set<Seq<char>>| #[trigger] family(p).contains(e) && e.subset_of(a) by {
                assert forall|i: int| 0 <= i < fs.len() implies #[trigger] has_below(fs[i], a) by {
                    lemma_family_suffices(cs[i]);
                    assert(authorities_suffice(cs[i], a));
                    assert(fs[i] == family(cs[i]));
                    let x = choose|x: Set<Seq<char>>| #[trigger] family(cs[i]).contains(x) && x.subset_of(a);
                    assert(fs[i].contains(x));
                }
                lemma_product_below(fs, a);
                let s = choose|s: Set<Seq<char>>| #[trigger] product_seq(fs).contains(s) && s.subset_of(a);
                lemma_minimal_below(product_seq(fs), s);
                let m = choose|m: Set<Seq<char>>| #[trigger] minimal(product_seq(fs)).contains(m) && m.subset_of(s);
                assert(family(p).contains(m) && m.subset_of(a));
            }
        },
        Policy::Or(cs) => {
            let fs = families(cs);
            lemma_families(cs);
            lemma_union_members(fs);
            assert forall|s: Set<Seq<char>>| #[trigger] union_seq(fs).contains(s) implies s.finite() by {
                let i = choose|i: int| 0 <= i < fs.len() && #[trigger] fs[i].contains(s);
                lemma_family_suffices(cs[i]);
            }
            assert forall|e: Set<Seq<char>>| #[trigger] family(p).contains(e) implies authorities_suffice(p, e) by {
                let i = choose|i: int| 0 <= i < fs.len() && #[trigger] fs[i].contains(e);
                lemma_family_suffices(cs[i]);
                assert(authorities_suffice(cs[i], e));
            }
            assert forall|a: Set<Seq<char>>| authorities_suffice(p, a) implies exists|e: Set<Seq<char>>| #[trigger] family(p).contains(e) && e.subset_of(a) by {
                let i = choose|i: int| 0 <= i < cs.len() && authorities_suffice(#[trigger] cs[i], a);
                lemma_family_suffices(cs[i]);
                let x = choose|x: Set<Seq<char>>| #[trigger] family(cs[i]).contains(x) && x.subset_of(a);
                assert(fs[i].contains(x));
                assert(union_seq(fs).contains(x));
                lemma_minimal_below(union_seq(fs), x);
                let m = choose|m: Set<Seq<char>>| #[trigger] minimal(union_seq(fs)).contains(m) && m.subset_of(x);
                assert(family(p).contains(m) && m.subset_of(a));
            }
        },
        Policy::Threshold(k, cs) => {
            let fs = families(cs);
            lemma_families(cs);
            let tf = threshold_family(fs, k as int);
            assert forall|s: Set<Seq<char>>| #[trigger] tf.contains(s) implies s.finite() by {
                let c = choose|c: Seq<int>| is_combination(c, fs.len() as int, k as int) && #[trigger] product_seq(select(fs, c)).contains(s);
                let sel = select(fs, c);
                assert forall|i: int| 0 <= i < sel.len() implies finite_members(#[trigger] sel[i]) by {
                    assert(sel[i] == fs[c[i]]);
                    lemma_family_suffices(cs[c[i]]);
                }
                lemma_product_finite(sel);
            }
            assert forall|e: Set<Seq<char>>| #[trigger] family(p).contains(e) implies authorities_suffice(p, e) by {
                let c = choose|c: Seq<int>| is_combination(c, fs.len() as int, k as int) && #[trigger] product_seq(select(fs, c)).contains(e);
                let sel = select(fs, c);
                lemma_product_parts(sel, e);
                assert forall|i: int| 0 <= i < c.len() implies authorities_suffice(#[trigger] cs[c[i]], e) by {
                    assert(sel[i] == fs[c[i]]);
                    assert(fs[c[i]] == family(cs[c[i]]));
                    assert(has_below(sel[i], e));
                    let z = choose|z: Set<Seq<char>>| sel[i].contains(z) && z.subset_of(e);
                    lemma_family_suffices(cs[c[i]]);
                    lemma_suffice_monotone(cs[c[i]], z, e);
                }
            }
            assert forall|a: Set<Seq<char>>| authorities_suffice(p, a) implies exists|e: Set<Seq<char>>| #[trigger] family(p).contains(e) && e.subset_of(a) by {
                let c = choose|c: Seq<int>|
                    is_combination(c, cs.len() as int, k as int) && forall|i: int| 0 <= i < c.len() ==> authorities_suffice(#[trigger] cs[c[i]], a);
                let sel = select(fs, c);
                assert forall|i: int| 0 <= i < sel.len() implies #[trigger] has_below(sel[i], a) by {
                    assert(sel[i] == fs[c[i]]);
                    assert(fs[c[i]] == family(cs[c[i]]));
                    assert(authorities_suffice(cs[c[i]], a));
                    lemma_family_suffices(cs[c[i]]);
                    let x = choose|x: Set<Seq<char>>| #[trigger] family(cs[c[i]]).contains(x) && x.subset_of(a);
                    assert(sel[i].contains(x));
                }
                lemma_product_below(sel, a);
                let s = choose|s: Set<Seq<char>>| #[trigger] product_seq(sel).contains(s) && s.subset_of(a);
                assert(tf.contains(s));
                lemma_minimal_below(tf, s);
                let m = choose|m: Set<Seq<char>>| #[trigger] minimal(tf).contains(m) && m.subset_of(s);
                assert(family(p).contains(m) && m.subset_of(a));
            }
        },
    }
}

/// The authority sets of a policy are exactly the sets of authorities
/// that suffice for it while no proper subset of them does; and every set
/// of authorities that suffices contains one of them.
pub proof fn lemma_family_minimal_sufficient(p: Policy, a: Set<Seq<char>>)
    ensures
        family(p).contains(a) <==> (authorities_suffice(p, a) && forall|b: Set<Seq<char>>|
            b.subset_of(a) && b != a ==> !#[trigger] authorities_suffice(p, b)),
        authorities_suffice(p, a) ==> exists|e: Set<Seq<char>>| #[trigger] family(p).contains(e) && e.subset_of(a),
{
    lemma_family_suffices(p);
    if family(p).contains(a) {
        assert forall|b: Set<Seq<char>>| b.subset_of(a) && b != a implies !#[trigger] authorities_suffice(p, b) by {
            if authorities_suffice(p, b) {
                let e = choose|e: Set<Seq<char>>| #[trigger] family(p).contains(e) && e.subset_of(b);
                assert(e.subset_of(a));
                lemma_family_antichain(p, e, a);
                assert(b =~= a);
            }
        }
    }
    if authorities_suffice(p, a) && forall|b: Set<Seq<char>>| b.subset_of(a) && b != a ==> !#[trigger] authorities_suffice(p, b) {
        let e = choose|e: Set<Seq<char>>| #[trigger] family(p).contains(e) && e.subset_of(a);
        assert(authorities_suffice(p, e));
        assert(e =~= a);
    }
}

/// No authority set of a policy lies strictly inside another.
proof fn lemma_family_antichain(p: Policy, e: Set<Seq<char>>, a: Set<Seq<char>>)
    requires
        family(p).contains(e),
        family(p).contains(a),
        e.subset_of(a),
    ensures
        e == a,
{
    match p {
        Policy::Attr(_) => {
            assert(e =~= a);
        },
        _ => {},
    }
}

/// The sets of authorities whose keys together can satisfy the policy, as
/// `family` describes them, each once.
pub fn find_minimal_authority_sets(policy: &PolicyNode) -> (r: Vec<AuthoritySet>)
    ensures
        family_view(r@).no_duplicates(),
        family_view(r@).to_set() == family(policy@),
    decreases policy,
{
    match policy {
        PolicyNode::Attr(attr) => {
            match parse_authority_attr(attr.as_str()) {
                Some((aid, _)) => {
                    let mut set = AuthoritySet::new();
                    set.insert(aid);
                    let r = vec![set];
                    proof {
                        assert(family_view(r@) =~= seq![Set::<Seq<char>>::empty().insert(aid@)]);
                        assert(family_view(r@).to_set() =~= leaf_family(attr@)) by {
                            assert forall|x: Set<Seq<char>>| family_view(r@).to_set().contains(x) <==> leaf_family(attr@).contains(x) by {
                                if x == Set::<Seq<char>>::empty().insert(aid@) {
                                    assert(family_view(r@)[0] == x);
                                }
                            }
                        }
                    }
                    r
                },
                None => {
                    let r: Vec<AuthoritySet> = Vec::new();
                    proof {
                        assert(family_view(r@).to_set() =~= leaf_family(attr@));
                    }
                    r
                },
            }
        },
        PolicyNode::And(children) => {
            let ghost cs = crate::lsss::policy_views(children@);
            let ghost fs = families(cs);
            proof {
                crate::lsss::lemma_views_map(children@);
                lemma_families(cs);
            }
            let child_sets = child_families(children);
            let mut result: Vec<AuthoritySet> = vec![AuthoritySet::new()];
            proof {
                assert(fs.take(0) =~= Seq::<Family>::empty());
                assert(family_view(result@).to_set() =~= product_seq(fs.take(0))) by {
                    assert forall|x: Set<Seq<char>>| family_view(result@).to_set().contains(x) <==> product_seq(fs.take(0)).contains(x) by {
                        if x == Set::<Seq<char>>::empty() {
                            assert(family_view(result@)[0] == x);
                        }
                    }
                }
            }
            let mut i: usize = 0;
            while i < children.len()
                invariant
                    cs == crate::lsss::policy_views(children@),
                    fs == families(cs),
                    cs.len() == children@.len(),
                    fs.len() == cs.len(),
                    forall|j: int| 0 <= j < cs.len() ==> #[trigger] cs[j] == children@[j]@,
                    forall|j: int| 0 <= j < cs.len() ==> #[trigger] fs[j] == family(cs[j]),
                    i <= children@.len(),
                    child_sets@.len() == children@.len(),
                    forall|j: int| 0 <= j < fs.len() ==> family_view(#[trigger] child_sets@[j]@).to_set() == fs[j],
                    family_view(result@).to_set() == product_seq(fs.take(i as int)),
                decreases children@.len() - i,
            {
                result = product_families(&result, &child_sets[i]);
                proof {
                    assert(fs.take(i + 1).drop_last() =~= fs.take(i as int));
                }
                i = i + 1;
            }
            proof {
                assert(fs.take(children@.len() as int) =~= fs);
            }
            minimize_sets(result)
        },
        PolicyNode::Or(children) => {
            let ghost cs = crate::lsss::policy_views(children@);
            let ghost fs = families(cs);
            proof {
                crate::lsss::lemma_views_map(children@);
                lemma_families(cs);
            }
            let child_sets = child_families(children);
            let mut result: Vec<AuthoritySet> = Vec::new();
            proof {
                assert(family_view(result@).to_set() =~= union_seq(fs.take(0)));
            }
            let mut i: usize = 0;
            while i < children.len()
                invariant
                    cs == crate::lsss::policy_views(children@),
                    fs == families(cs),
                    cs.len() == children@.len(),
                    fs.len() == cs.len(),
                    forall|j: int| 0 <= j < cs.len() ==> #[trigger] cs[j] == children@[j]@,
                    forall|j: int| 0 <= j < cs.len() ==> #[trigger] fs[j] == family(cs[j]),
                    i <= children@.len(),
                    child_sets@.len() == children@.len(),
                    forall|j: int| 0 <= j < fs.len() ==> family_view(#[trigger] child_sets@[j]@).to_set() == fs[j],
                    family_view(result@).to_set() == union_seq(fs.take(i as int)),
                decreases children@.len() - i,
            {
                let ghost before = result@;
                let ghost added = child_sets@[i as int]@;
                extend_copies(&mut result, &child_sets[i]);
                proof {
                    assert(family_view(result@) =~= family_view(before) + family_view(added));
                    lemma_to_set_concat(family_view(before), family_view(added));
                    assert(fs.take(i + 1).drop_last() =~= fs.take(i as int));
                }
                i = i + 1;
            }
            proof {
                assert(fs.take(children@.len() as int) =~= fs);
            }
            minimize_sets(result)
        },
        PolicyNode::Threshold(k, children) => {
            let ghost cs = crate::lsss::policy_views(children@);
            let ghost fs = families(cs);
            proof {
                crate::lsss::lemma_views_map(children@);
                lemma_families(cs);
            }
            let child_sets = child_families(children);
            assert forall|j: int| 0 <= j < fs.len() implies family_view(#[trigger] child_sets@[j]@).to_set() == fs[j] by {
                assert(fs[j] == family(cs[j]));
            }
            let combos = combinations(children.len(), *k);
            let ghost cv = combo_view(combos@);
            let mut result: Vec<AuthoritySet> = Vec::new();
            let mut t: usize = 0;
            while t < combos.len()
                invariant
                    fs.len() == children@.len(),
                    child_sets@.len() == children@.len(),
                    forall|j: int| 0 <= j < fs.len() ==> family_view(#[trigger] child_sets@[j]@).to_set() == fs[j],
                    cv == combo_view(combos@),
                    forall|c: Seq<int>| is_combination(c, children@.len() as int, *k as int) <==> #[trigger] cv.contains(c),
                    t <= combos@.len(),
                    forall|s: Set<Seq<char>>| family_view(result@).to_set().contains(s) <==> exists|u: int| 0 <= u < t
                        && #[trigger] product_seq(select(fs, cv[u])).contains(s),
                decreases combos@.len() - t,
            {
                let combo = &combos[t];
                let ghost c = cv[t as int];
                proof {
                    assert(cv.contains(c));
                }
                let mut options: Vec<AuthoritySet> = vec![AuthoritySet::new()];
                proof {
                    assert(select(fs, c.take(0)) =~= Seq::<Family>::empty());
                    assert(family_view(options@).to_set() =~= product_seq(select(fs, c.take(0)))) by {
                        assert forall|x: Set<Seq<char>>| family_view(options@).to_set().contains(x) <==> product_seq(select(fs, c.take(0))).contains(x) by {
                            if x == Set::<Seq<char>>::empty() {
                                assert(family_view(options@)[0] == x);
                            }
                        }
                    }
                }
                let mut m: usize = 0;
                while m < combo.len()
                    invariant
                        fs.len() == children@.len(),
                        child_sets@.len() == children@.len(),
                        forall|j: int| 0 <= j < fs.len() ==> family_view(#[trigger] child_sets@[j]@).to_set() == fs[j],
                        is_combination(c, children@.len() as int, *k as int),
                        c == combo@.map_values(|x: usize| x as int),
                        m <= combo@.len(),
                        family_view(options@).to_set() == product_seq(select(fs, c.take(m as int))),
                    decreases combo@.len() - m,
                {
                    let idx = combo[m];
                    proof {
                        assert(c[m as int] == idx as int);
                    }
                    options = product_families(&options, &child_sets[idx]);
                    proof {
                        assert(select(fs, c.take(m + 1)).drop_last() =~= select(fs, c.take(m as int)));
                        assert(select(fs, c.take(m + 1)).last() == fs[idx as int]);
                    }
                    m = m + 1;
                }
                proof {
                    assert(c.take(combo@.len() as int) =~= c);
                }
                let ghost before = result@;
                let ghost added = options@;
                result.append(&mut options);
                proof {
                    assert(family_view(result@) =~= family_view(before) + family_view(added));
                    lemma_to_set_concat(family_view(before), family_view(added));
                    assert forall|s: Set<Seq<char>>| family_view(result@).to_set().contains(s) <==> exists|u: int| 0 <= u < t + 1
                        && #[trigger] product_seq(select(fs, cv[u])).contains(s) by {
                        if exists|u: int| 0 <= u < t + 1 && #[trigger] product_seq(select(fs, cv[u])).contains(s) {
                            let u = choose|u: int| 0 <= u < t + 1 && #[trigger] product_seq(select(fs, cv[u])).contains(s);
                            if u < t {
                                assert(family_view(before).to_set().contains(s));
                            }
                        }
                    }
                }
                t = t + 1;
            }
            proof {
                let lhs = family_view(result@).to_set();
                let rhs = threshold_family(fs, *k as int);
                assert forall|s: Set<Seq<char>>| lhs.contains(s) <==> rhs.contains(s) by {
                    if lhs.contains(s) {
                        let u = choose|u: int| 0 <= u < combos@.len() && #[trigger] product_seq(select(fs, cv[u])).contains(s);
                        assert(cv.contains(cv[u]));
                    }
                    if rhs.contains(s) {
                        let c = choose|c: Seq<int>| is_combination(c, fs.len() as int, *k as int) && #[trigger] product_seq(select(fs, c)).contains(s);
                        assert(cv.contains(c));
                        let u = choose|u: int| 0 <= u < cv.len() && cv[u] == c;
                    }
                }
                assert(lhs =~= rhs);
            }
            minimize_sets(result)
        },
    }
}

/// Appends copies of the sets of `src` to `dst`.
fn extend_copies(dst: &mut Vec<AuthoritySet>, src: &Vec<AuthoritySet>)
    ensures
        family_view(final(dst)@) == family_view(old(dst)@) + family_view(src@),
{
    let mut i: usize = 0;
    while i < src.len()
        invariant
            i <= src@.len(),
            family_view(dst@) == family_view(old(dst)@) + family_view(src@).take(i as int),
        decreases src@.len() - i,
    {
        let ghost before = dst@;
        dst.push(src[i].copy());
        assert(family_view(dst@) =~= family_view(before).push(src@[i as int]@));
        assert(family_view(src@).take(i + 1) =~= family_view(src@).take(i as int).push(src@[i as int]@));
        i = i + 1;
    }
    assert(family_view(src@).take(src@.len() as int) =~= family_view(src@));
}

/// The authority sets of each child, in order.
fn child_families(cs: &Vec<PolicyNode>) -> (r: Vec<Vec<AuthoritySet>>)
    ensures
        r@.len() == cs@.len(),
        forall|j: int| 0 <= j < cs@.len() ==> family_view(#[trigger] r@[j]@).to_set() == family(cs@[j]@),
    decreases cs,
{
    let mut r: Vec<Vec<AuthoritySet>> = Vec::new();
    let mut i: usize = 0;
    while i < cs.len()
        invariant
            i <= cs@.len(),
            r@.len() == i,
            forall|j: int| 0 <= j < i ==> family_view(#[trigger] r@[j]@).to_set() == family(cs@[j]@),
        decreases cs@.len() - i,
    {
        r.push(find_minimal_authority_sets(&cs[i]));
        i = i + 1;
    }
    r
}

/// An assignment: attributes with their reconstruction coefficients.
pub type Assignment = Seq<(Seq<char>, int)>;

/// The inverse of `d` that `Fr::inverse` finds, or 1 where it finds none.
pub open spec fn inverse_or_one(d: int) -> int {
    if (d * inverse_candidate(d)) % modulus() == 1 {
        inverse_candidate(d)
    } else {
        1
    }
}

/// The Lagrange coefficient at 0 of the point `xs[i]` among the first `n`
/// points: the product over the other points `x_j` of `-x_j / (x_i - x_j)`,
/// in the field.
pub open spec fn lagrange_upto(xs: Seq<int>, i: int, n: nat) -> int
    decreases n,
{
    if n == 0 {
        1
    } else {
        let j = n - 1;
        let prev = lagrange_upto(xs, i, (n - 1) as nat);
        if j == i {
            prev
        } else {
            (((prev * ((0 - xs[j]) % modulus())) % modulus()) * inverse_or_one((xs[i] - xs[j]) % modulus()))
                % modulus()
        }
    }
}

/// The values of a list of field elements.
pub open spec fn field_view(v: Seq<Fr>) -> Seq<int> {
    v.map_values(|x: Fr| x@)
}

/// The Lagrange coefficient at 0 of `points[idx]` among `points`.
pub fn lagrange_coefficient(points: &[Fr], idx: usize) -> (r: Fr)
    requires
        idx < points@.len(),
    ensures
        r@ == lagrange_upto(field_view(points@), idx as int, points@.len()),
{
    let ghost xs = field_view(points@);
    let x_i = points[idx];
    let mut result = Fr::one();
    let mut j: usize = 0;
    while j < points.len()
        invariant
            xs == field_view(points@),
            idx < points@.len(),
            x_i == points@[idx as int],
            j <= points@.len(),
            result@ == lagrange_upto(xs, idx as int, j as nat),
        decreases points@.len() - j,
    {
        if j != idx {
            let x_j = points[j];
            let num = Fr::zero().sub(&x_j);
            let denom = x_i.sub(&x_j);
            let inv = match denom.inverse() {
                Some(t) => t,
                None => Fr::one(),
            };
            result = result.mul(&num).mul(&inv);
            proof {
                assert(xs[j as int] == x_j@);
                assert(xs[idx as int] == x_i@);
                assert(inv@ == inverse_or_one(denom@));
            }
        }
        j = j + 1;
    }
    result
}

/// The product of a list of values, in the field.
pub open spec fn product_mod(s: Seq<int>) -> int
    decreases s.len(),
{
    if s.len() == 0 {
        1
    } else {
        (product_mod(s.drop_last()) * s.last()) % modulus()
    }
}

/// Whether `d` has an inverse in the field that `Fr::inverse` finds.
pub open spec fn invertible(d: int) -> bool {
    (d * inverse_candidate(d)) % modulus() == 1
}

/// The factor the point `xj` contributes to the Lagrange coefficient at 0
/// of the point `xi`: `-xj / (xi - xj)`, in the field.
spec fn lagrange_factor(xi: int, xj: int) -> int {
    (((0 - xj) % modulus()) * inverse_or_one((xi - xj) % modulus())) % modulus()
}

/// The points other than the `i`-th among the first `n`.
spec fn other_points(xs: Seq<int>, i: int, n: nat) -> Seq<int> {
    if 0 <= i < n {
        xs.take(n as int).remove(i)
    } else {
        xs.take(n as int)
    }
}

/// `((a * b) % r * c) % r == (a * (b * c)) % r`.
proof fn lemma_mod_mul_assoc(a: int, b: int, c: int)
    ensures
        (((a * b) % modulus()) * c) % modulus() == (a * (b * c)) % modulus(),
        (a * ((b * c) % modulus())) % modulus() == (a * (b * c)) % modulus(),
{
    let r = modulus();
    vstd::arithmetic::div_mod::lemma_mul_mod_noop_left(a * b, c, r);
    vstd::arithmetic::div_mod::lemma_mul_mod_noop_right(a, b * c, r);
    assert((a * b) * c == a * (b * c)) by (nonlinear_arith);
}

/// The Lagrange coefficient is the product of the factors of the other
/// points.
proof fn lemma_lagrange_product(xs: Seq<int>, i: int, n: nat)
    requires
        n <= xs.len(),
    ensures
        lagrange_upto(xs, i, n) == product_mod(other_points(xs, i, n).map_values(|x: int| lagrange_factor(xs[i], x))),
    decreases n,
{
    let f = |x: int| lagrange_factor(xs[i], x);
    if n == 0 {
        assert(other_points(xs, i, n) =~= Seq::<int>::empty());
        assert(other_points(xs, i, n).map_values(f) =~= Seq::<int>::empty());
    } else {
        let m = (n - 1) as nat;
        lemma_lagrange_product(xs, i, m);
        let j = n - 1;
        if j == i {
            assert(other_points(xs, i, n) =~= other_points(xs, i, m));
        } else {
            assert(other_points(xs, i, n) =~= other_points(xs, i, m).push(xs[j]));
            assert(other_points(xs, i, n).map_values(f) =~= other_points(xs, i, m).map_values(f).push(f(xs[j])));
            let prev = lagrange_upto(xs, i, m);
            let a = (0 - xs[j]) % modulus();
            let b = inverse_or_one((xs[i] - xs[j]) % modulus());
            lemma_mod_mul_assoc(prev, a, b);
            assert(lagrange_upto(xs, i, n) == (((prev * a) % modulus()) * b) % modulus());
            assert(f(xs[j]) == (a * b) % modulus());
            let po = other_points(xs, i, m).map_values(f);
            assert(product_mod(po.push(f(xs[j]))) == (product_mod(po) * f(xs[j])) % modulus()) by {
                assert(po.push(f(xs[j])).drop_last() =~= po);
            }
        }
    }
}

/// The product of two lists that agree as sets of elements, each as
/// often, is the same.
proof fn lemma_product_permutation(s: Seq<int>, t: Seq<int>)
    requires
        s.to_multiset() == t.to_multiset(),
    ensures
        product_mod(s) == product_mod(t),
    decreases s.len(),
{
    broadcast use vstd::seq_lib::group_to_multiset_ensures;

    if s.len() == 0 {
        assert(t.to_multiset().len() == t.len());
        assert(t =~= s);
    } else {
        let x = s.last();
        let d = s.drop_last();
        assert(s =~= d.push(x));
        assert(t.to_multiset().count(x) > 0);
        assert(t.contains(x));
        let k = choose|k: int| 0 <= k < t.len() && t[k] == x;
        assert(t.remove(k).to_multiset() =~= d.to_multiset());
        lemma_product_permutation(d, t.remove(k));
        lemma_product_remove(t, k);
    }
}

/// Taking an element out of a product and multiplying it back in.
proof fn lemma_product_remove(t: Seq<int>, k: int)
    requires
        0 <= k < t.len(),
    ensures
        product_mod(t) == (product_mod(t.remove(k)) * t[k]) % modulus(),
    decreases t.len(),
{
    if k == t.len() - 1 {
        assert(t.remove(k) =~= t.drop_last());
    } else {
        let d = t.drop_last();
        lemma_product_remove(d, k);
        assert(t.remove(k).drop_last() =~= d.remove(k));
        assert(t.remove(k).last() == t.last());
        let p = product_mod(d.remove(k));
        lemma_mod_mul_assoc(p, t[k], t.last());
        lemma_mod_mul_assoc(p, t.last(), t[k]);
        assert(t[k] * t.last() == t.last() * t[k]) by (nonlinear_arith);
    }
}

/// Products multiply pairwise: where each `f[j] * d[j]` is `g[j]` in the
/// field, the product of `f` times that of `d` is that of `g`.
proof fn lemma_product_pairs(f: Seq<int>, d: Seq<int>, g: Seq<int>)
    requires
        f.len() == d.len(),
        d.len() == g.len(),
        forall|j: int| 0 <= j < f.len() ==> (#[trigger] f[j] * d[j]) % modulus() == g[j] % modulus(),
    ensures
        (product_mod(f) * product_mod(d)) % modulus() == product_mod(g) % modulus(),
    decreases f.len(),
{
    let r = modulus();
    if f.len() == 0 {
    } else {
        let n = f.len() - 1;
        lemma_product_pairs(f.drop_last(), d.drop_last(), g.drop_last());
        let pf = product_mod(f.drop_last());
        let pd = product_mod(d.drop_last());
        let pg = product_mod(g.drop_last());
        let a = f[n];
        let b = d[n];
        let c = g[n];
        assert((a * b) % r == c % r);
        vstd::arithmetic::div_mod::lemma_mul_mod_noop(pf * a, pd * b, r);
        assert((pf * a) * (pd * b) == (pf * pd) * (a * b)) by (nonlinear_arith);
        vstd::arithmetic::div_mod::lemma_mul_mod_noop(pf * pd, a * b, r);
        vstd::arithmetic::div_mod::lemma_mul_mod_noop(pg, c, r);
        vstd::arithmetic::div_mod::lemma_mod_twice(pg * c, r);
    }
}

/// The Lagrange coefficient at 0 of a point does not depend on the order
/// in which the other points are listed.
pub proof fn lemma_lagrange_ignores_order(xs: Seq<int>, ys: Seq<int>, i: int, k: int)
    requires
        0 <= i < xs.len(),
        0 <= k < ys.len(),
        xs[i] == ys[k],
        xs.remove(i).to_multiset() == ys.remove(k).to_multiset(),
    ensures
        lagrange_upto(xs, i, xs.len()) == lagrange_upto(ys, k, ys.len()),
{
    lemma_lagrange_product(xs, i, xs.len());
    lemma_lagrange_product(ys, k, ys.len());
    assert(xs.take(xs.len() as int) =~= xs);
    assert(ys.take(ys.len() as int) =~= ys);
    let f = |x: int| lagrange_factor(xs[i], x);
    let g = |x: int| lagrange_factor(ys[k], x);
    assert(f == g);
    crate::text::lemma_map_multiset(xs.remove(i), ys.remove(k), f);
    lemma_product_permutation(xs.remove(i).map_values(f), ys.remove(k).map_values(f));
}

/// The Lagrange coefficient `c` at 0 of the point `xs[i]` solves
/// `c * prod(xs[i] - x_j) = prod(-x_j)` over the other points `x_j`, in
/// the field, wherever each difference is invertible: it is
/// `prod(-x_j / (xs[i] - x_j))`.
pub proof fn lemma_lagrange_equation(xs: Seq<int>, i: int)
    requires
        0 <= i < xs.len(),
        forall|j: int| 0 <= j < xs.len() && j != i ==> invertible(#[trigger] ((xs[i] - xs[j]) % modulus())),
    ensures
        (lagrange_upto(xs, i, xs.len()) * product_mod(xs.remove(i).map_values(|x: int| xs[i] - x))) % modulus()
            == product_mod(xs.remove(i).map_values(|x: int| 0 - x)) % modulus(),
{
    let r = modulus();
    lemma_lagrange_product(xs, i, xs.len());
    assert(xs.take(xs.len() as int) =~= xs);
    let o = xs.remove(i);
    let fs = o.map_values(|x: int| lagrange_factor(xs[i], x));
    let ds = o.map_values(|x: int| xs[i] - x);
    let gs = o.map_values(|x: int| 0 - x);
    assert forall|j: int| 0 <= j < fs.len() implies (#[trigger] fs[j] * ds[j]) % r == gs[j] % r by {
        let x = o[j];
        let jj = if j < i { j } else { j + 1 };
        assert(o[j] == xs[jj]);
        let e = xs[i] - x;
        let d = e % r;
        assert(invertible(d));
        let inv = inverse_candidate(d);
        assert(inverse_or_one(d) == inv);
        let a = (0 - x) % r;
        assert(fs[j] == (a * inv) % r);
        assert(ds[j] == e);
        assert(gs[j] == 0 - x);
        lemma_mod_mul_assoc(a, inv, e);
        vstd::arithmetic::div_mod::lemma_mul_mod_noop_right(inv, e, r);
        assert(inv * e % r == (d * inv) % r) by {
            assert(inv * d == d * inv) by (nonlinear_arith);
        }
        vstd::arithmetic::div_mod::lemma_mul_mod_noop_right(a, inv * e, r);
        assert((inv * e) % r == 1);
        assert(a * ((inv * e) % r) == a) by {
            assert(a * 1 == a) by (nonlinear_arith);
        }
        assert((a * ((inv * e) % r)) % r == a % r);
        vstd::arithmetic::div_mod::lemma_mod_twice(0 - x, r);
        assert((fs[j] * ds[j]) % r == a % r);
    }
    lemma_product_pairs(fs, ds, gs);
}

/// The assignments as pairs of character sequences and values.
pub open spec fn assignment_view(v: Seq<(String, Fr)>) -> Assignment {
    v.map_values(|e: (String, Fr)| (e.0@, e.1@))
}

/// Every coefficient of an assignment multiplied by `c`, in the field.
pub open spec fn scale(a: Assignment, c: int) -> Assignment {
    a.map_values(|e: (Seq<char>, int)| (e.0, (e.1 * c) % modulus()))
}

/// Whether a run of satisfied children is complete for a `k`-of-n gate: it
/// stops at `k` children, and at the first one when `k` is 0.
pub open spec fn scan_done(found: nat, k: nat) -> bool {
    found >= k && found >= 1
}

/// The assignment that lets holders of `attrs` reconstruct a policy's
/// secret: for an attribute they hold, coefficient 1; for an OR, that of the
/// first satisfiable child; for an AND, all children's together; for a
/// k-of-n gate, those of the first `k` satisfiable children, each scaled by
/// its Lagrange coefficient at the children's positions plus one. `None`
/// where the attributes do not satisfy the policy.
pub open spec fn assignment(p: Policy, attrs: Set<Seq<char>>) -> Option<Assignment>
    decreases p,
{
    match p {
        Policy::Attr(a) => if attrs.contains(a) {
            Some(seq![(a, 1int)])
        } else {
            None
        },
        Policy::Or(cs) => first_assignment(cs, attrs),
        Policy::And(cs) => all_assignments(cs, attrs),
        Policy::Threshold(k, cs) => {
            let found = satisfied_children(cs, attrs, k);
            if found.len() < k {
                None
            } else {
                Some(threshold_assignment(found, found.len()))
            }
        },
    }
}

/// The assignment of the first child that has one.
pub open spec fn first_assignment(cs: Seq<Policy>, attrs: Set<Seq<char>>) -> Option<Assignment>
    decreases cs,
{
    if cs.len() == 0 {
        None
    } else {
        match first_assignment(cs.drop_last(), attrs) {
            Some(a) => Some(a),
            None => assignment(cs.last(), attrs),
        }
    }
}

/// The assignments of all children, concatenated, if each has one.
pub open spec fn all_assignments(cs: Seq<Policy>, attrs: Set<Seq<char>>) -> Option<Assignment>
    decreases cs,
{
    if cs.len() == 0 {
        Some(Seq::empty())
    } else {
        match (all_assignments(cs.drop_last(), attrs), assignment(cs.last(), attrs)) {
            (Some(a), Some(b)) => Some(a + b),
            _ => None,
        }
    }
}

/// The satisfiable children of a `k`-of-n gate met in order, with their
/// positions and assignments, up to the run's end.
pub open spec fn satisfied_children(cs: Seq<Policy>, attrs: Set<Seq<char>>, k: nat) -> Seq<(int, Assignment)>
    decreases cs,
{
    if cs.len() == 0 {
        Seq::empty()
    } else {
        let prev = satisfied_children(cs.drop_last(), attrs, k);
        if scan_done(prev.len(), k) {
            prev
        } else {
            match assignment(cs.last(), attrs) {
                Some(a) => prev.push((cs.len() - 1, a)),
                None => prev,
            }
        }
    }
}

/// The evaluation points of the satisfied children: positions plus one.
pub open spec fn found_points(found: Seq<(int, Assignment)>) -> Seq<int> {
    found.map_values(|f: (int, Assignment)| f.0 + 1)
}

/// The first `t` satisfied children's assignments, each scaled by its
/// Lagrange coefficient among all of them, concatenated.
pub open spec fn threshold_assignment(found: Seq<(int, Assignment)>, t: nat) -> Assignment
    decreases t,
{
    if t == 0 {
        Seq::empty()
    } else {
        threshold_assignment(found, (t - 1) as nat) + scale(
            found[t - 1].1,
            lagrange_upto(found_points(found), t - 1, found.len()),
        )
    }
}

/// Once a prefix of the children has an assignment for an OR, the whole
/// list has that one.
proof fn lemma_first_assignment_prefix(cs: Seq<Policy>, attrs: Set<Seq<char>>, j: int)
    requires
        0 <= j <= cs.len(),
        first_assignment(cs.take(j), attrs) is Some,
    ensures
        first_assignment(cs, attrs) == first_assignment(cs.take(j), attrs),
    decreases cs.len() - j,
{
    if j < cs.len() {
        assert(cs.take(j + 1).drop_last() =~= cs.take(j));
        lemma_first_assignment_prefix(cs, attrs, j + 1);
    } else {
        assert(cs.take(j) =~= cs);
    }
}

/// Once a prefix of the children of an AND lacks an assignment, the whole
/// list lacks one.
proof fn lemma_all_assignments_prefix(cs: Seq<Policy>, attrs: Set<Seq<char>>, j: int)
    requires
        0 <= j <= cs.len(),
        all_assignments(cs.take(j), attrs) is None,
    ensures
        all_assignments(cs, attrs) is None,
    decreases cs.len() - j,
{
    if j < cs.len() {
        assert(cs.take(j + 1).drop_last() =~= cs.take(j));
        lemma_all_assignments_prefix(cs, attrs, j + 1);
    } else {
        assert(cs.take(j) =~= cs);
    }
}

/// Once the run of satisfied children is complete, later children change
/// nothing.
proof fn lemma_satisfied_children_done(cs: Seq<Policy>, attrs: Set<Seq<char>>, k: nat, j: int)
    requires
        0 <= j <= cs.len(),
        scan_done(satisfied_children(cs.take(j), attrs, k).len(), k),
    ensures
        satisfied_children(cs, attrs, k) == satisfied_children(cs.take(j), attrs, k),
    decreases cs.len() - j,
{
    if j < cs.len() {
        assert(cs.take(j + 1).drop_last() =~= cs.take(j));
        lemma_satisfied_children_done(cs, attrs, k, j + 1);
    } else {
        assert(cs.take(j) =~= cs);
    }
}

/// The satisfied children found, with positions as integers.
pub open spec fn found_view(v: Seq<(usize, Vec<(String, Fr)>)>) -> Seq<(int, Assignment)> {
    v.map_values(|f: (usize, Vec<(String, Fr)>)| (f.0 as int, assignment_view(f.1@)))
}

/// The set of attributes a user holds.
pub open spec fn attr_set(attrs: Seq<String>) -> Set<Seq<char>> {
    attrs_view(attrs).to_set()
}

/// The assignment of the first child that has one.
fn first_child_assignment(cs: &Vec<PolicyNode>, user_attrs: &[String]) -> (r: Option<Vec<(String, Fr)>>)
    ensures
        match r {
            Some(v) => first_assignment(crate::lsss::policy_views(cs@), attr_set(user_attrs@)) == Some(assignment_view(v@)),
            None => first_assignment(crate::lsss::policy_views(cs@), attr_set(user_attrs@)) is None,
        },
    decreases cs,
{
    let ghost vs = crate::lsss::policy_views(cs@);
    let ghost a = attr_set(user_attrs@);
    proof {
        crate::lsss::lemma_views_map(cs@);
        assert(vs.take(0) =~= Seq::<Policy>::empty());
    }
    let mut i: usize = 0;
    while i < cs.len()
        invariant
            vs == crate::lsss::policy_views(cs@),
            vs == cs@.map_values(|p: PolicyNode| crate::lsss::policy_view(p)),
            a == attr_set(user_attrs@),
            i <= cs@.len(),
            first_assignment(vs.take(i as int), a) is None,
        decreases cs@.len() - i,
    {
        let found = find_satisfying_assignment(&cs[i], user_attrs);
        proof {
            assert(vs.take(i + 1).drop_last() =~= vs.take(i as int));
            assert(vs.take(i + 1).last() == cs@[i as int]@);
        }
        if found.is_some() {
            proof {
                lemma_first_assignment_prefix(vs, a, i + 1);
            }
            return found;
        }
        i = i + 1;
    }
    assert(vs.take(cs@.len() as int) =~= vs);
    None
}

/// The assignments of all children, concatenated, if each has one.
fn all_child_assignments(cs: &Vec<PolicyNode>, user_attrs: &[String]) -> (r: Option<Vec<(String, Fr)>>)
    ensures
        match r {
            Some(v) => all_assignments(crate::lsss::policy_views(cs@), attr_set(user_attrs@)) == Some(assignment_view(v@)),
            None => all_assignments(crate::lsss::policy_views(cs@), attr_set(user_attrs@)) is None,
        },
    decreases cs,
{
    let ghost vs = crate::lsss::policy_views(cs@);
    let ghost a = attr_set(user_attrs@);
    proof {
        crate::lsss::lemma_views_map(cs@);
        assert(vs.take(0) =~= Seq::<Policy>::empty());
    }
    let mut all: Vec<(String, Fr)> = Vec::new();
    proof {
        assert(assignment_view(all@) =~= Seq::<(Seq<char>, int)>::empty());
    }
    let mut i: usize = 0;
    while i < cs.len()
        invariant
            vs == crate::lsss::policy_views(cs@),
            vs == cs@.map_values(|p: PolicyNode| crate::lsss::policy_view(p)),
            a == attr_set(user_attrs@),
            i <= cs@.len(),
            all_assignments(vs.take(i as int), a) == Some(assignment_view(all@)),
        decreases cs@.len() - i,
    {
        let found = find_satisfying_assignment(&cs[i], user_attrs);
        proof {
            assert(vs.take(i + 1).drop_last() =~= vs.take(i as int));
            assert(vs.take(i + 1).last() == cs@[i as int]@);
        }
        match found {
            Some(mut more) => {
                let ghost before = all@;
                let ghost m = more@;
                all.append(&mut more);
                proof {
                    assert(assignment_view(all@) =~= assignment_view(before) + assignment_view(m));
                }
            },
            None => {
                proof {
                    lemma_all_assignments_prefix(vs, a, i + 1);
                }
                return None;
            },
        }
        i = i + 1;
    }
    assert(vs.take(cs@.len() as int) =~= vs);
    Some(all)
}

/// The satisfiable children of a `k`-of-n gate met in order, with their
/// positions and assignments, up to the run's end.
fn satisfied_child_assignments(cs: &Vec<PolicyNode>, user_attrs: &[String], k: usize) -> (r: Vec<(usize, Vec<(String, Fr)>)>)
    ensures
        found_view(r@) == satisfied_children(crate::lsss::policy_views(cs@), attr_set(user_attrs@), k as nat),
        forall|t: int| 0 <= t < r@.len() ==> (#[trigger] r@[t]).0 < cs@.len(),
    decreases cs,
{
    let ghost vs = crate::lsss::policy_views(cs@);
    let ghost a = attr_set(user_attrs@);
    proof {
        crate::lsss::lemma_views_map(cs@);
        assert(vs.take(0) =~= Seq::<Policy>::empty());
    }
    let mut found: Vec<(usize, Vec<(String, Fr)>)> = Vec::new();
    proof {
        assert(found_view(found@) =~= Seq::<(int, Assignment)>::empty());
    }
    let mut i: usize = 0;
    while i < cs.len()
        invariant
            vs == crate::lsss::policy_views(cs@),
            vs == cs@.map_values(|p: PolicyNode| crate::lsss::policy_view(p)),
            a == attr_set(user_attrs@),
            i <= cs@.len(),
            found_view(found@) == satisfied_children(vs.take(i as int), a, k as nat),
            !scan_done(found@.len(), k as nat),
            forall|t: int| 0 <= t < found@.len() ==> (#[trigger] found@[t]).0 < i,
        decreases cs@.len() - i,
    {
        let child = find_satisfying_assignment(&cs[i], user_attrs);
        proof {
            assert(vs.take(i + 1).drop_last() =~= vs.take(i as int));
            assert(vs.take(i + 1).last() == cs@[i as int]@);
            assert(found_view(found@).len() == found@.len());
        }
        match child {
            Some(assignment) => {
                let ghost before = found@;
                found.push((i, assignment));
                proof {
                    assert(found_view(found@) =~= found_view(before).push((i as int, assignment_view(assignment@))));
                }
                if found.len() >= k {
                    proof {
                        lemma_satisfied_children_done(vs, a, k as nat, i + 1);
                    }
                    return found;
                }
            },
            None => {},
        }
        i = i + 1;
    }
    assert(vs.take(cs@.len() as int) =~= vs);
    found
}

/// The attributes and coefficients that let a holder of `user_attrs`
/// reconstruct the policy's secret, as `assignment` describes them, or
/// `None` where the attributes do not satisfy the policy.
pub fn find_satisfying_assignment(policy: &PolicyNode, user_attrs: &[String]) -> (r: Option<Vec<(String, Fr)>>)
    ensures
        match r {
            Some(v) => assignment(policy@, attr_set(user_attrs@)) == Some(assignment_view(v@)),
            None => assignment(policy@, attr_set(user_attrs@)) is None,
        },
    decreases policy,
{
    match policy {
        PolicyNode::Attr(attr) => {
            if contains_attr(user_attrs, attr.as_str()) {
                let v = vec![(attr.clone(), Fr::one())];
                assert(assignment_view(v@) =~= seq![(attr@, 1int)]);
                Some(v)
            } else {
                None
            }
        },
        PolicyNode::Or(children) => first_child_assignment(children, user_attrs),
        PolicyNode::And(children) => all_child_assignments(children, user_attrs),
        PolicyNode::Threshold(k, children) => {
            let found = satisfied_child_assignments(children, user_attrs, *k);
            let ghost fv = found_view(found@);
            if found.len() < *k {
                return None;
            }
            let n_children = children.len();
            let mut points: Vec<Fr> = Vec::new();
            let mut t: usize = 0;
            while t < found.len()
                invariant
                    n_children == children@.len(),
                    fv == found_view(found@),
                    forall|u: int| 0 <= u < found@.len() ==> (#[trigger] found@[u]).0 < children@.len(),
                    t <= found@.len(),
                    field_view(points@) == found_points(fv).take(t as int),
                decreases found@.len() - t,
            {
                let pos = found[t].0;
                assert(found@[t as int].0 < children@.len());
                let ghost before = points@;
                let next = pos + 1;
                points.push(Fr::from_u64(next as u64));
                proof {
                    assert(fv[t as int].0 == pos as int);
                    assert(found_points(fv)[t as int] == pos + 1);
                    assert(field_view(points@) =~= field_view(before).push(next as int));
                    assert(found_points(fv).take(t + 1) =~= found_points(fv).take(t as int).push(pos + 1));
                }
                t = t + 1;
            }
            assert(found_points(fv).take(found@.len() as int) =~= found_points(fv));
            let mut all: Vec<(String, Fr)> = Vec::new();
            assert(assignment_view(all@) =~= threshold_assignment(fv, 0));
            let mut t: usize = 0;
            while t < found.len()
                invariant
                    fv == found_view(found@),
                    field_view(points@) == found_points(fv),
                    points@.len() == found@.len(),
                    t <= found@.len(),
                    assignment_view(all@) == threshold_assignment(fv, t as nat),
                decreases found@.len() - t,
            {
                let coeff = lagrange_coefficient(points.as_slice(), t);
                let part = &found[t].1;
                let ghost base = all@;
                let mut m: usize = 0;
                while m < part.len()
                    invariant
                        fv == found_view(found@),
                        t < found@.len(),
                        part@ == found@[t as int].1@,
                        m <= part@.len(),
                        assignment_view(all@) == assignment_view(base) + scale(assignment_view(part@), coeff@).take(m as int),
                    decreases part@.len() - m,
                {
                    let entry = &part[m];
                    let ghost prev = all@;
                    all.push((entry.0.clone(), entry.1.mul(&coeff)));
                    proof {
                        assert(assignment_view(all@) =~= assignment_view(prev).push((entry.0@, (entry.1@ * coeff@) % modulus())));
                        assert(scale(assignment_view(part@), coeff@).take(m + 1) =~= scale(assignment_view(part@), coeff@).take(m as int).push(
                            (entry.0@, (entry.1@ * coeff@) % modulus())));
                    }
                    m = m + 1;
                }
                proof {
                    assert(scale(assignment_view(part@), coeff@).take(part@.len() as int) =~= scale(assignment_view(part@), coeff@));
                    assert(fv[t as int].1 == assignment_view(part@));
                    assert(found_points(fv).len() == fv.len());
                }
                t = t + 1;
            }
            Some(all)
        },
    }
}

/// A share of the secret for one attribute, issued by authority `aid`.
#[derive(Clone, Debug)]
pub struct AttributeShare {
    /// The attribute.
    pub attr: String,
    /// The authority that issues it.
    pub aid: String,
    /// The share.
    pub share: Fr,
}

/// A share as attribute, authority and value.
pub type ShareView = (Seq<char>, Seq<char>, int);

/// The shares as plain values.
pub open spec fn shares_view(v: Seq<AttributeShare>) -> Seq<ShareView> {
    v.map_values(|s: AttributeShare| (s.attr@, s.aid@, s.share@))
}

/// Whether a k-of-n gate draws on more than one authority.
pub open spec fn cross_authority_gate(p: Policy) -> bool {
    policy_authorities(p).len() > 1
}

/// The number of random field elements sharing a secret over `p` draws.
pub open spec fn draws_needed(p: Policy) -> nat
    decreases p,
{
    match p {
        Policy::Attr(_) => 0,
        Policy::Or(cs) => draws_all(cs),
        Policy::And(cs) => if cross_authority(cs) || cs.len() <= 1 {
            draws_all(cs)
        } else {
            (cs.len() - 1) as nat + draws_all(cs)
        },
        Policy::Threshold(k, cs) => if cross_authority_gate(p) {
            draws_all(cs)
        } else if k == 0 || cs.len() == 0 {
            0
        } else {
            (k - 1) as nat + draws_all(cs)
        },
    }
}

/// The draws of a list of policies, together.
pub open spec fn draws_all(cs: Seq<Policy>) -> nat
    decreases cs,
{
    if cs.len() == 0 {
        0
    } else {
        draws_all(cs.drop_last()) + draws_needed(cs.last())
    }
}

/// The sum of a list of field elements, in the field.
pub open spec fn field_sum(r: Seq<int>) -> int
    decreases r.len(),
{
    if r.len() == 0 {
        0
    } else {
        (field_sum(r.drop_last()) + r.last()) % modulus()
    }
}

/// The secrets of the children of a same-authority AND: the random values,
/// then the secret minus their sum, so that they add up to the secret.
pub open spec fn and_secrets(s: int, r: Seq<int>) -> Seq<int> {
    r.push((s - field_sum(r)) % modulus())
}

/// `x^t` in the field.
pub open spec fn field_pow(x: int, t: nat) -> int
    decreases t,
{
    if t == 0 {
        1
    } else {
        (field_pow(x, (t - 1) as nat) * x) % modulus()
    }
}

/// The polynomial with the first `t` coefficients of `c`, lowest degree
/// first, evaluated at `x` in the field.
pub open spec fn poly_upto(c: Seq<int>, x: int, t: nat) -> int
    decreases t,
{
    if t == 0 {
        0
    } else {
        (poly_upto(c, x, (t - 1) as nat) + (c[t - 1] * field_pow(x, (t - 1) as nat)) % modulus()) % modulus()
    }
}

/// The shares of a secret `s` over the policy `p`, given the random field
/// elements `d` drawn for it in order: an attribute with an authority gets
/// the secret itself; the children of an OR, of a cross-authority AND and of
/// a cross-authority k-of-n gate all share the secret itself; the children
/// of a same-authority AND share random values and the secret minus their
/// sum; the children of a same-authority k-of-n gate share the values at
/// their positions plus one of a polynomial of degree below `k` whose
/// constant term is the secret and whose other coefficients are random.
pub open spec fn shares_of(p: Policy, s: int, d: Seq<int>) -> Seq<ShareView>
    decreases p,
{
    match p {
        Policy::Attr(a) => match authority_of(a) {
            Some(aid) => seq![(a, aid, s)],
            None => Seq::empty(),
        },
        Policy::Or(cs) => shares_same(cs, s, d),
        Policy::And(cs) => if cross_authority(cs) {
            shares_same(cs, s, d)
        } else if cs.len() == 0 {
            Seq::empty()
        } else if cs.len() == 1 {
            shares_of(cs[0], s, d)
        } else {
            shares_each(cs, and_secrets(s, d.take(cs.len() - 1)), d.skip(cs.len() - 1))
        },
        Policy::Threshold(k, cs) => if cross_authority_gate(p) {
            shares_same(cs, s, d)
        } else if k == 0 || cs.len() == 0 {
            Seq::empty()
        } else {
            shares_each(
                cs,
                Seq::new(cs.len(), |i: int| poly_upto(seq![s] + d.take(k - 1), i + 1, k)),
                d.skip(k - 1),
            )
        },
    }
}

/// The shares of the same secret over each of a list of policies, with
/// the draws split among them in order.
pub open spec fn shares_same(cs: Seq<Policy>, s: int, d: Seq<int>) -> Seq<ShareView>
    decreases cs,
{
    if cs.len() == 0 {
        Seq::empty()
    } else {
        let n = d.len() - draws_needed(cs.last());
        shares_same(cs.drop_last(), s, d.take(n)) + shares_of(cs.last(), s, d.skip(n))
    }
}

/// The shares of each secret over the policy at the same position, with
/// the draws split among them in order.
pub open spec fn shares_each(cs: Seq<Policy>, secrets: Seq<int>, d: Seq<int>) -> Seq<ShareView>
    decreases cs,
{
    if cs.len() == 0 {
        Seq::empty()
    } else {
        let n = d.len() - draws_needed(cs.last());
        shares_each(cs.drop_last(), secrets.drop_last(), d.take(n)) + shares_of(cs.last(), secrets.last(), d.skip(n))
    }
}

/// Whether every value lies in the field.
pub open spec fn in_field(d: Seq<int>) -> bool {
    forall|i: int| 0 <= i < d.len() ==> 0 <= #[trigger] d[i] < modulus()
}

/// Shares `secret` over `policy`, drawing random field elements from `rng`
/// as needed; the shares are appended to `shares`.
pub fn create_shares<R: RngCore>(rng: &mut R, policy: &PolicyNode, secret: Fr, shares: &mut Vec<AttributeShare>)
    ensures
        exists|d: Seq<int>| #![auto] d.len() == draws_needed(policy@) && in_field(d)
            && shares_view(final(shares)@) == shares_view(old(shares)@) + shares_of(policy@, secret@, d),
{
    let d = share_node(rng, policy, secret, shares);
    assert(d@.len() == draws_needed(policy@) && in_field(d@));
}

/// Appends the shares of `secret` over `policy` and gives back the draws
/// it made.
fn share_node<R: RngCore>(rng: &mut R, policy: &PolicyNode, secret: Fr, shares: &mut Vec<AttributeShare>) -> (d: Ghost<Seq<int>>)
    ensures
        d@.len() == draws_needed(policy@),
        in_field(d@),
        shares_view(final(shares)@) == shares_view(old(shares)@) + shares_of(policy@, secret@, d@),
    decreases policy,
{
    match policy {
        PolicyNode::Attr(attr) => {
            let ghost before = shares@;
            match get_authority(attr.as_str()) {
                Some(aid) => {
                    shares.push(AttributeShare { attr: attr.clone(), aid, share: secret });
                    assert(shares_view(shares@) =~= shares_view(before) + seq![(attr@, aid@, secret@)]);
                },
                None => {
                    assert(shares_view(shares@) =~= shares_view(before) + Seq::<ShareView>::empty());
                },
            }
            Ghost(Seq::empty())
        },
        PolicyNode::Or(children) => share_children_same(rng, children, secret, shares),
        PolicyNode::And(children) => {
            let ghost cs = crate::lsss::policy_views(children@);
            proof {
                crate::lsss::lemma_views_map(children@);
            }
            if is_cross_authority_and(children.as_slice()) {
                return share_children_same(rng, children, secret, shares);
            }
            if children.len() == 0 {
                assert(shares_view(shares@) =~= shares_view(old(shares)@) + Seq::<ShareView>::empty());
                return Ghost(Seq::empty());
            }
            if children.len() == 1 {
                let d = share_node(rng, &children[0], secret, shares);
                proof {
                    assert(cs[0] == children@[0]@);
                    assert(draws_all(cs) == draws_needed(cs[0])) by {
                        assert(cs.drop_last() =~= Seq::<Policy>::empty());
                        assert(draws_all(cs.drop_last()) == 0);
                        assert(cs.last() == cs[0]);
                    }
                }
                return d;
            }
            let n = children.len();
            let mut child_secrets: Vec<Fr> = Vec::new();
            let mut sum = Fr::zero();
            let mut t: usize = 0;
            while t < n - 1
                invariant
                    n == children@.len(),
                    n >= 2,
                    t <= n - 1,
                    child_secrets@.len() == t,
                    in_field(field_view(child_secrets@)),
                    sum@ == field_sum(field_view(child_secrets@)),
                decreases n - 1 - t,
            {
                let r = Fr::random(rng);
                let ghost before = child_secrets@;
                child_secrets.push(r);
                sum = sum.add(&r);
                proof {
                    assert(field_view(child_secrets@) =~= field_view(before).push(r@));
                    assert(field_view(child_secrets@).drop_last() =~= field_view(before));
                }
                t = t + 1;
            }
            let ghost r_view = field_view(child_secrets@);
            let last = secret.sub(&sum);
            child_secrets.push(last);
            proof {
                assert(field_view(child_secrets@) =~= and_secrets(secret@, r_view));
            }
            let dc = share_children_each(rng, children, &child_secrets, shares);
            proof {
                let d = r_view + dc@;
                assert(d.take(n - 1) =~= r_view);
                assert(d.skip(n - 1) =~= dc@);
                assert(field_view(child_secrets@).drop_last() =~= r_view);
                assert(in_field(d)) by {
                    assert forall|j: int| 0 <= j < d.len() implies 0 <= #[trigger] d[j] < modulus() by {
                        if j < r_view.len() {
                            assert(d[j] == r_view[j]);
                        } else {
                            assert(d[j] == dc@[j - r_view.len()]);
                        }
                    }
                }
                assert(!cross_authority(cs));
                assert(shares_of(policy@, secret@, d) == shares_each(cs, and_secrets(secret@, d.take(cs.len() - 1)), d.skip(cs.len() - 1)));
            }
            Ghost(field_view(child_secrets@).drop_last() + dc@)
        },
        PolicyNode::Threshold(k, children) => {
            let ghost cs = crate::lsss::policy_views(children@);
            proof {
                crate::lsss::lemma_views_map(children@);
            }
            let auths = collect_authorities(policy);
            if auths.len() > 1 {
                return share_children_same(rng, children, secret, shares);
            }
            let k = *k;
            if k == 0 || children.len() == 0 {
                assert(shares_view(shares@) =~= shares_view(old(shares)@) + Seq::<ShareView>::empty());
                return Ghost(Seq::empty());
            }
            let mut coeffs: Vec<Fr> = vec![secret];
            let mut t: usize = 1;
            while t < k
                invariant
                    1 <= t <= k,
                    coeffs@.len() == t,
                    coeffs@[0] == secret,
                    in_field(field_view(coeffs@).skip(1)),
                decreases k - t,
            {
                let r = Fr::random(rng);
                let ghost before = coeffs@;
                coeffs.push(r);
                proof {
                    assert(field_view(coeffs@).skip(1) =~= field_view(before).skip(1).push(r@));
                }
                t = t + 1;
            }
            let ghost c = field_view(coeffs@);
            let ghost r_view = c.skip(1);
            proof {
                assert(c =~= seq![secret@] + r_view);
            }
            let n = children.len();
            let mut child_secrets: Vec<Fr> = Vec::new();
            let mut i: usize = 0;
            while i < n
                invariant
                    n == children@.len(),
                    c == field_view(coeffs@),
                    coeffs@.len() == k,
                    i <= n,
                    child_secrets@.len() == i,
                    forall|j: int| 0 <= j < i ==> #[trigger] child_secrets@[j]@ == poly_upto(c, j + 1, k as nat),
                decreases n - i,
            {
                let x = Fr::from_u64((i + 1) as u64);
                let mut share = Fr::zero();
                let mut x_pow = Fr::one();
                let mut m: usize = 0;
                while m < coeffs.len()
                    invariant
                        c == field_view(coeffs@),
                        x@ == i + 1,
                        m <= coeffs@.len(),
                        share@ == poly_upto(c, i + 1, m as nat),
                        x_pow@ == field_pow(i + 1, m as nat),
                    decreases coeffs@.len() - m,
                {
                    share = share.add(&coeffs[m].mul(&x_pow));
                    x_pow = x_pow.mul(&x);
                    m = m + 1;
                }
                child_secrets.push(share);
                i = i + 1;
            }
            let dc = share_children_each(rng, children, &child_secrets, shares);
            proof {
                let secrets = Seq::new(cs.len(), |j: int| poly_upto(seq![secret@] + r_view.take(k - 1), j + 1, k as nat));
                assert(r_view.len() == k - 1);
                assert(r_view.take(k - 1) =~= r_view);
                assert(field_view(child_secrets@) =~= secrets);
                let d = r_view + dc@;
                assert(d.take(k - 1) =~= r_view);
                assert(d.skip(k - 1) =~= dc@);
                assert(policy_authorities(policy@).len() <= 1);
                assert(in_field(d)) by {
                    assert forall|j: int| 0 <= j < d.len() implies 0 <= #[trigger] d[j] < modulus() by {
                        if j < r_view.len() {
                            assert(d[j] == r_view[j]);
                        } else {
                            assert(d[j] == dc@[j - r_view.len()]);
                        }
                    }
                }
                assert(!cross_authority_gate(policy@));
                assert(shares_of(policy@, secret@, d) == shares_each(cs, secrets, d.skip(k - 1)));
            }
            Ghost(r_view + dc@)
        },
    }
}

/// Appends the shares of the same secret over each child, in order.
fn share_children_same<R: RngCore>(rng: &mut R, cs: &Vec<PolicyNode>, secret: Fr, shares: &mut Vec<AttributeShare>) -> (d: Ghost<Seq<int>>)
    ensures
        d@.len() == draws_all(crate::lsss::policy_views(cs@)),
        in_field(d@),
        shares_view(final(shares)@) == shares_view(old(shares)@) + shares_same(crate::lsss::policy_views(cs@), secret@, d@),
    decreases cs,
{
    let ghost vs = crate::lsss::policy_views(cs@);
    proof {
        crate::lsss::lemma_views_map(cs@);
        assert(vs.take(0) =~= Seq::<Policy>::empty());
        assert(shares_view(shares@) =~= shares_view(old(shares)@) + Seq::<ShareView>::empty());
    }
    let ghost mut d: Seq<int> = Seq::empty();
    let mut i: usize = 0;
    while i < cs.len()
        invariant
            vs == crate::lsss::policy_views(cs@),
            vs == cs@.map_values(|p: PolicyNode| crate::lsss::policy_view(p)),
            i <= cs@.len(),
            d.len() == draws_all(vs.take(i as int)),
            in_field(d),
            shares_view(shares@) == shares_view(old(shares)@) + shares_same(vs.take(i as int), secret@, d),
        decreases cs@.len() - i,
    {
        let ghost before = shares@;
        let dn = share_node(rng, &cs[i], secret, shares);
        proof {
            let t1 = vs.take(i + 1);
            assert(t1.drop_last() =~= vs.take(i as int));
            assert(t1.last() == cs@[i as int]@);
            let nd = d + dn@;
            assert(nd.take(d.len() as int) =~= d);
            assert(nd.skip(d.len() as int) =~= dn@);
            d = nd;
        }
        i = i + 1;
    }
    assert(vs.take(cs@.len() as int) =~= vs);
    Ghost(d)
}

/// Appends the shares of each secret over the child at the same position.
fn share_children_each<R: RngCore>(rng: &mut R, cs: &Vec<PolicyNode>, secrets: &Vec<Fr>, shares: &mut Vec<AttributeShare>) -> (d: Ghost<Seq<int>>)
    requires
        secrets@.len() == cs@.len(),
    ensures
        d@.len() == draws_all(crate::lsss::policy_views(cs@)),
        in_field(d@),
        shares_view(final(shares)@) == shares_view(old(shares)@) + shares_each(crate::lsss::policy_views(cs@), field_view(secrets@), d@),
    decreases cs,
{
    let ghost vs = crate::lsss::policy_views(cs@);
    let ghost sv = field_view(secrets@);
    proof {
        crate::lsss::lemma_views_map(cs@);
        assert(vs.take(0) =~= Seq::<Policy>::empty());
        assert(shares_view(shares@) =~= shares_view(old(shares)@) + Seq::<ShareView>::empty());
    }
    let ghost mut d: Seq<int> = Seq::empty();
    let mut i: usize = 0;
    while i < cs.len()
        invariant
            vs == crate::lsss::policy_views(cs@),
            vs == cs@.map_values(|p: PolicyNode| crate::lsss::policy_view(p)),
            sv == field_view(secrets@),
            secrets@.len() == cs@.len(),
            i <= cs@.len(),
            d.len() == draws_all(vs.take(i as int)),
            in_field(d),
            shares_view(shares@) == shares_view(old(shares)@) + shares_each(vs.take(i as int), sv.take(i as int), d),
        decreases cs@.len() - i,
    {
        let dn = share_node(rng, &cs[i], secrets[i], shares);
        proof {
            let t1 = vs.take(i + 1);
            assert(t1.drop_last() =~= vs.take(i as int));
            assert(t1.last() == cs@[i as int]@);
            assert(sv.take(i + 1).drop_last() =~= sv.take(i as int));
            assert(sv.take(i + 1).last() == secrets@[i as int]@);
            let nd = d + dn@;
            assert(nd.take(d.len() as int) =~= d);
            assert(nd.skip(d.len() as int) =~= dn@);
            d = nd;
        }
        i = i + 1;
    }
    assert(vs.take(cs@.len() as int) =~= vs);
    assert(sv.take(cs@.len() as int) =~= sv);
    Ghost(d)
}


/// Labels of ciphertext rows, (attribute, authority), as character sequences.
pub open spec fn labels_view(v: Seq<(String, String)>) -> Seq<(Seq<char>, Seq<char>)> {
    v.map_values(|e: (String, String)| (e.0@, e.1@))
}

/// The first position whose entry has key `k`, if any.
pub open spec fn first_key<B>(s: Seq<(Seq<char>, B)>, k: Seq<char>) -> Option<int>
    decreases s.len(),
{
    if s.len() == 0 {
        None
    } else {
        match first_key(s.drop_last(), k) {
            Some(i) => Some(i),
            None => if s.last().0 == k {
                Some(s.len() - 1)
            } else {
                None
            },
        }
    }
}

/// Each assigned attribute's first row, with its coefficient, in order of
/// the assignment; or the first assigned attribute that labels no row.
pub open spec fn assigned_rows(a: Assignment, labels: Seq<(Seq<char>, Seq<char>)>) -> Result<Seq<(int, int)>, Seq<char>>
    decreases a.len(),
{
    if a.len() == 0 {
        Ok(Seq::empty())
    } else {
        match assigned_rows(a.drop_last(), labels) {
            Err(x) => Err(x),
            Ok(rs) => match first_key(labels, a.last().0) {
                Some(i) => Ok(rs.push((i, a.last().1))),
                None => Err(a.last().0),
            },
        }
    }
}

/// The rows among `rs` whose authority is `aid`, in order.
pub open spec fn rows_of(rs: Seq<(int, int)>, labels: Seq<(Seq<char>, Seq<char>)>, aid: Seq<char>) -> Seq<(int, int)>
    decreases rs.len(),
{
    if rs.len() == 0 {
        Seq::empty()
    } else {
        let before = rows_of(rs.drop_last(), labels, aid);
        if labels[rs.last().0].1 == aid {
            before.push(rs.last())
        } else {
            before
        }
    }
}

/// The authorities of the rows `rs`, each once, in order of first occurrence.
pub open spec fn row_authorities(rs: Seq<(int, int)>, labels: Seq<(Seq<char>, Seq<char>)>) -> Seq<Seq<char>> {
    dedup_first(rs.map_values(|r: (int, int)| labels[r.0].1))
}

/// The rows `rs` grouped by authority: one group per authority, in order of
/// first occurrence, holding that authority's rows in order.
pub open spec fn grouped(rs: Seq<(int, int)>, labels: Seq<(Seq<char>, Seq<char>)>) -> Seq<(Seq<char>, Seq<(int, int)>)> {
    row_authorities(rs, labels).map_values(|aid: Seq<char>| (aid, rows_of(rs, labels, aid)))
}

/// Groups as character sequences and integers.
pub open spec fn groups_view(v: Seq<(String, Vec<(usize, Fr)>)>) -> Seq<(Seq<char>, Seq<(int, int)>)> {
    v.map_values(|g: (String, Vec<(usize, Fr)>)| (g.0@, plan_view(g.1@)))
}

/// The first row labelled `attr`.
fn first_row_index(labels: &[(String, String)], attr: &str) -> (r: Option<usize>)
    ensures
        match r {
            Some(i) => first_key(labels_view(labels@), attr@) == Some(i as int) && i < labels@.len(),
            None => first_key(labels_view(labels@), attr@) is None,
        },
{
    let ghost lv = labels_view(labels@);
    let mut found: Option<usize> = None;
    let mut i: usize = 0;
    while i < labels.len()
        invariant
            i <= labels@.len(),
            lv == labels_view(labels@),
            match found {
                Some(j) => first_key(lv.take(i as int), attr@) == Some(j as int) && j < labels@.len(),
                None => first_key(lv.take(i as int), attr@) is None,
            },
        decreases labels@.len() - i,
    {
        proof {
            assert(lv.take(i + 1).drop_last() =~= lv.take(i as int));
            assert(lv.take(i + 1).last() == lv[i as int]);
        }
        if found.is_none() && str_eq(labels[i].0.as_str(), attr) {
            found = Some(i);
        }
        i = i + 1;
    }
    assert(lv.take(labels@.len() as int) =~= lv);
    found
}

/// Once a prefix of the assignment meets an attribute without a row, so
/// does the whole assignment.
proof fn lemma_assigned_rows_err(a: Assignment, lv: Seq<(Seq<char>, Seq<char>)>, n: int)
    requires
        0 <= n <= a.len(),
        assigned_rows(a.take(n), lv) is Err,
    ensures
        assigned_rows(a, lv) == assigned_rows(a.take(n), lv),
    decreases a.len() - n,
{
    if n < a.len() {
        assert(a.take(n + 1).drop_last() =~= a.take(n));
        lemma_assigned_rows_err(a, lv, n + 1);
    } else {
        assert(a.take(n) =~= a);
    }
}

/// Groups the rows that an assignment needs by the authorities that issued
/// them. Each assigned attribute is matched to the first ciphertext row it
/// labels; the groups come in order of their authorities' first occurrence,
/// each with its rows (position, coefficient) in assignment order. An
/// assigned attribute that labels no row is returned as the error.
pub fn group_by_authority(assignment: &[(String, Fr)], labels: &[(String, String)]) -> (r: Result<Vec<(String, Vec<(usize, Fr)>)>, String>)
    ensures
        match assigned_rows(assignment_view(assignment@), labels_view(labels@)) {
            Err(a) => r is Err && r->Err_0@ == a,
            Ok(rs) => r is Ok && groups_view(r->Ok_0@) == grouped(rs, labels_view(labels@)),
        },
        r matches Ok(g) ==> forall|i: int, j: int| 0 <= i < g@.len() && 0 <= j < g@[i].1@.len() ==> #[trigger] g@[i].1@[j].0 < labels@.len(),
{
    let ghost av = assignment_view(assignment@);
    let ghost lv = labels_view(labels@);
    let mut rows: Vec<(usize, Fr)> = Vec::new();
    proof {
        assert(av.take(0) =~= Seq::<(Seq<char>, int)>::empty());
        assert(plan_view(rows@) =~= Seq::<(int, int)>::empty());
    }
    let mut i: usize = 0;
    while i < assignment.len()
        invariant
            i <= assignment@.len(),
            av == assignment_view(assignment@),
            lv == labels_view(labels@),
            assigned_rows(av.take(i as int), lv) == Ok::<Seq<(int, int)>, Seq<char>>(plan_view(rows@)),
            forall|k: int| 0 <= k < rows@.len() ==> #[trigger] rows@[k].0 < labels@.len(),
        decreases assignment@.len() - i,
    {
        proof {
            assert(av.take(i + 1).drop_last() =~= av.take(i as int));
            assert(av.take(i + 1).last() == av[i as int]);
        }
        match first_row_index(labels, assignment[i].0.as_str()) {
            None => {
                proof {
                    lemma_assigned_rows_err(av, lv, i + 1);
                }
                return Err(assignment[i].0.clone());
            },
            Some(j) => {
                let ghost old_rows = rows@;
                rows.push((j, assignment[i].1));
                proof {
                    assert(plan_view(rows@) =~= plan_view(old_rows).push((j as int, av[i as int].1)));
                }
            },
        }
        i = i + 1;
    }
    proof {
        assert(av.take(assignment@.len() as int) =~= av);
    }
    let ghost rs = plan_view(rows@);
    let ghost auth = rs.map_values(|r: (int, int)| lv[r.0].1);
    let mut aids: Vec<String> = Vec::new();
    let mut k: usize = 0;
    while k < rows.len()
        invariant
            k <= rows@.len(),
            lv == labels_view(labels@),
            rs == plan_view(rows@),
            auth == rs.map_values(|r: (int, int)| lv[r.0].1),
            forall|q: int| 0 <= q < rows@.len() ==> #[trigger] rows@[q].0 < labels@.len(),
            attrs_view(aids@) == dedup_first(auth.take(k as int)),
        decreases rows@.len() - k,
    {
        let (p, _w) = rows[k];
        let aid = &labels[p].1;
        proof {
            assert(auth.take(k + 1).drop_last() =~= auth.take(k as int));
            assert(auth.take(k + 1).last() == aid@);
        }
        if !contains_attr(aids.as_slice(), aid.as_str()) {
            let ghost old_aids = aids@;
            aids.push(aid.clone());
            proof {
                assert(attrs_view(aids@) =~= attrs_view(old_aids).push(aid@));
            }
        }
        k = k + 1;
    }
    proof {
        assert(auth.take(rows@.len() as int) =~= auth);
    }
    let ghost ra = row_authorities(rs, lv);
    let mut groups: Vec<(String, Vec<(usize, Fr)>)> = Vec::new();
    let mut g: usize = 0;
    while g < aids.len()
        invariant
            g <= aids@.len(),
            lv == labels_view(labels@),
            rs == plan_view(rows@),
            attrs_view(aids@) == ra,
            ra == row_authorities(rs, lv),
            forall|q: int| 0 <= q < rows@.len() ==> #[trigger] rows@[q].0 < labels@.len(),
            groups_view(groups@) == grouped(rs, lv).take(g as int),
            forall|a: int, b: int| 0 <= a < groups@.len() && 0 <= b < groups@[a].1@.len() ==> #[trigger] groups@[a].1@[b].0 < labels@.len(),
        decreases aids@.len() - g,
    {
        let aid = &aids[g];
        let mut mine: Vec<(usize, Fr)> = Vec::new();
        let mut k: usize = 0;
        while k < rows.len()
            invariant
                k <= rows@.len(),
                lv == labels_view(labels@),
                rs == plan_view(rows@),
                forall|q: int| 0 <= q < rows@.len() ==> #[trigger] rows@[q].0 < labels@.len(),
                plan_view(mine@) == rows_of(rs.take(k as int), lv, aid@),
                forall|b: int| 0 <= b < mine@.len() ==> #[trigger] mine@[b].0 < labels@.len(),
            decreases rows@.len() - k,
        {
            let (p, w) = rows[k];
            proof {
                assert(rs.take(k + 1).drop_last() =~= rs.take(k as int));
                assert(rs.take(k + 1).last() == (p as int, w@));
            }
            if str_eq(labels[p].1.as_str(), aid.as_str()) {
                let ghost old_mine = mine@;
                mine.push((p, w));
                proof {
                    assert(plan_view(mine@) =~= plan_view(old_mine).push((p as int, w@)));
                }
            }
            k = k + 1;
        }
        proof {
            assert(rs.take(rows@.len() as int) =~= rs);
        }
        let ghost old_groups = groups@;
        groups.push((aid.clone(), mine));
        proof {
            assert(grouped(rs, lv)[g as int] == (ra[g as int], rows_of(rs, lv, ra[g as int])));
            assert(grouped(rs, lv).take(g + 1) =~= grouped(rs, lv).take(g as int).push(grouped(rs, lv)[g as int]));
            assert(groups_view(groups@) =~= groups_view(old_groups).push((aid@, plan_view(mine@))));
            assert forall|a: int, b: int| 0 <= a < groups@.len() && 0 <= b < groups@[a].1@.len() implies #[trigger] groups@[a].1@[b].0 < labels@.len() by {
                if a < old_groups.len() {
                    assert(groups@[a] == old_groups[a]);
                }
            }
        }
        g = g + 1;
    }
    proof {
        assert(grouped(rs, lv).take(aids@.len() as int) =~= grouped(rs, lv));
    }
    Ok(groups)
}


/// A key's components, (authority, attributes held), as character sequences.
pub open spec fn holdings_view(v: Seq<(String, Vec<String>)>) -> Seq<(Seq<char>, Seq<Seq<char>>)> {
    v.map_values(|h: (String, Vec<String>)| (h.0@, attrs_view(h.1@)))
}

/// The attribute of the first row among `items` whose attribute is not
/// among `held`.
pub open spec fn first_unheld(items: Seq<(int, int)>, labels: Seq<(Seq<char>, Seq<char>)>, held: Seq<Seq<char>>) -> Option<Seq<char>>
    decreases items.len(),
{
    if items.len() == 0 {
        None
    } else {
        match first_unheld(items.drop_last(), labels, held) {
            Some(a) => Some(a),
            None => {
                let a = labels[items.last().0].0;
                if held.contains(a) {
                    None
                } else {
                    Some(a)
                }
            },
        }
    }
}

/// What a key lacks for one group: no component from the group's
/// authority (`(true, authority)`), or, in the first component from it, the
/// attribute of one of the group's rows (`(false, attribute)`).
pub open spec fn group_gap(g: (Seq<char>, Seq<(int, int)>), labels: Seq<(Seq<char>, Seq<char>)>, key: Seq<(Seq<char>, Seq<Seq<char>>)>) -> Option<(bool, Seq<char>)> {
    match first_key(key, g.0) {
        None => Some((true, g.0)),
        Some(k) => match first_unheld(g.1, labels, key[k].1) {
            Some(a) => Some((false, a)),
            None => None,
        },
    }
}

/// The first gap of the key over the groups, in order.
pub open spec fn key_gap(gs: Seq<(Seq<char>, Seq<(int, int)>)>, labels: Seq<(Seq<char>, Seq<char>)>, key: Seq<(Seq<char>, Seq<Seq<char>>)>) -> Option<(bool, Seq<char>)>
    decreases gs.len(),
{
    if gs.len() == 0 {
        None
    } else {
        match key_gap(gs.drop_last(), labels, key) {
            Some(x) => Some(x),
            None => group_gap(gs.last(), labels, key),
        }
    }
}

/// What a key lacks for a grouped plan.
#[derive(Debug)]
pub enum KeyGap {
    /// No component from this authority.
    Authority(String),
    /// The authority's component lacks this attribute.
    Attribute(String),
}

/// A gap as a flag (an authority is missing) and a name.
pub open spec fn gap_view(g: Option<KeyGap>) -> Option<(bool, Seq<char>)> {
    match g {
        None => None,
        Some(KeyGap::Authority(a)) => Some((true, a@)),
        Some(KeyGap::Attribute(a)) => Some((false, a@)),
    }
}

/// The first component of `key` from authority `aid`.
fn holding_index(key: &[(String, Vec<String>)], aid: &str) -> (r: Option<usize>)
    ensures
        match r {
            Some(i) => first_key(holdings_view(key@), aid@) == Some(i as int) && i < key@.len(),
            None => first_key(holdings_view(key@), aid@) is None,
        },
{
    let ghost kv = holdings_view(key@);
    let mut found: Option<usize> = None;
    let mut i: usize = 0;
    while i < key.len()
        invariant
            i <= key@.len(),
            kv == holdings_view(key@),
            match found {
                Some(j) => first_key(kv.take(i as int), aid@) == Some(j as int) && j < key@.len(),
                None => first_key(kv.take(i as int), aid@) is None,
            },
        decreases key@.len() - i,
    {
        proof {
            assert(kv.take(i + 1).drop_last() =~= kv.take(i as int));
            assert(kv.take(i + 1).last() == kv[i as int]);
        }
        if found.is_none() && str_eq(key[i].0.as_str(), aid) {
            found = Some(i);
        }
        i = i + 1;
    }
    assert(kv.take(key@.len() as int) =~= kv);
    found
}

/// Checks a key against grouped rows, group by group in order: for each
/// group the key needs a component from its authority, and that component
/// needs the attribute of each of the group's rows. Returns the first gap.
pub fn missing_key(groups: &[(String, Vec<(usize, Fr)>)], labels: &[(String, String)], key: &[(String, Vec<String>)]) -> (r: Option<KeyGap>)
    requires
        forall|i: int, j: int| 0 <= i < groups@.len() && 0 <= j < groups@[i].1@.len() ==> #[trigger] groups@[i].1@[j].0 < labels@.len(),
    ensures
        gap_view(r) == key_gap(groups_view(groups@), labels_view(labels@), holdings_view(key@)),
{
    let ghost gv = groups_view(groups@);
    let ghost lv = labels_view(labels@);
    let ghost kv = holdings_view(key@);
    let mut found: Option<KeyGap> = None;
    let mut g: usize = 0;
    while g < groups.len()
        invariant
            g <= groups@.len(),
            gv == groups_view(groups@),
            lv == labels_view(labels@),
            kv == holdings_view(key@),
            forall|i: int, j: int| 0 <= i < groups@.len() && 0 <= j < groups@[i].1@.len() ==> #[trigger] groups@[i].1@[j].0 < labels@.len(),
            gap_view(found) == key_gap(gv.take(g as int), lv, kv),
        decreases groups@.len() - g,
    {
        proof {
            assert(gv.take(g + 1).drop_last() =~= gv.take(g as int));
            assert(gv.take(g + 1).last() == gv[g as int]);
        }
        if found.is_none() {
            let aid = &groups[g].0;
            match holding_index(key, aid.as_str()) {
                None => {
                    found = Some(KeyGap::Authority(aid.clone()));
                },
                Some(h) => {
                    let held = &key[h].1;
                    let items = &groups[g].1;
                    let ghost iv = plan_view(items@);
                    let mut missing: Option<String> = None;
                    let mut j: usize = 0;
                    while j < items.len()
                        invariant
                            j <= items@.len(),
                            iv == plan_view(items@),
                            lv == labels_view(labels@),
                            forall|q: int| 0 <= q < items@.len() ==> #[trigger] items@[q].0 < labels@.len(),
                            match missing {
                                Some(a) => first_unheld(iv.take(j as int), lv, attrs_view(held@)) == Some(a@),
                                None => first_unheld(iv.take(j as int), lv, attrs_view(held@)) is None,
                            },
                        decreases items@.len() - j,
                    {
                        proof {
                            assert(iv.take(j + 1).drop_last() =~= iv.take(j as int));
                            assert(iv.take(j + 1).last() == iv[j as int]);
                        }
                        let (p, _w) = items[j];
                        if missing.is_none() && !contains_attr(held.as_slice(), labels[p].0.as_str()) {
                            missing = Some(labels[p].0.clone());
                        }
                        j = j + 1;
                    }
                    proof {
                        assert(iv.take(items@.len() as int) =~= iv);
                        assert(gv[g as int] == (aid@, iv));
                        assert(kv[h as int].1 == attrs_view(held@));
                    }
                    match missing {
                        Some(a) => {
                            found = Some(KeyGap::Attribute(a));
                        },
                        None => {},
                    }
                },
            }
        }
        g = g + 1;
    }
    proof {
        assert(gv.take(groups@.len() as int) =~= gv);
    }
    found
}


/// All attributes a key holds, component by component.
pub open spec fn held_attributes(key: Seq<(Seq<char>, Seq<Seq<char>>)>) -> Seq<Seq<char>>
    decreases key.len(),
{
    if key.len() == 0 {
        Seq::empty()
    } else {
        held_attributes(key.drop_last()) + key.last().1
    }
}

/// The attributes of every component of a key, in order.
pub fn all_held_attributes(key: &[(String, Vec<String>)]) -> (r: Vec<String>)
    ensures
        attrs_view(r@) == held_attributes(holdings_view(key@)),
{
    let ghost kv = holdings_view(key@);
    let mut all: Vec<String> = Vec::new();
    let mut i: usize = 0;
    proof {
        assert(kv.take(0) =~= Seq::<(Seq<char>, Seq<Seq<char>>)>::empty());
        assert(attrs_view(all@) =~= Seq::<Seq<char>>::empty());
    }
    while i < key.len()
        invariant
            i <= key@.len(),
            kv == holdings_view(key@),
            attrs_view(all@) == held_attributes(kv.take(i as int)),
        decreases key@.len() - i,
    {
        let held = &key[i].1;
        let ghost start = attrs_view(all@);
        let mut j: usize = 0;
        proof {
            assert(start =~= start + attrs_view(held@).take(0));
        }
        while j < held.len()
            invariant
                j <= held@.len(),
                attrs_view(all@) == start + attrs_view(held@).take(j as int),
            decreases held@.len() - j,
        {
            let ghost before = all@;
            all.push(held[j].clone());
            proof {
                assert(attrs_view(all@) =~= attrs_view(before).push(held@[j as int]@));
                assert(attrs_view(held@).take(j + 1) =~= attrs_view(held@).take(j as int).push(held@[j as int]@));
            }
            j = j + 1;
        }
        proof {
            assert(attrs_view(held@).take(held@.len() as int) =~= attrs_view(held@));
            assert(kv.take(i + 1).drop_last() =~= kv.take(i as int));
            assert(kv.take(i + 1).last() == kv[i as int]);
            assert(kv[i as int].1 == attrs_view(held@));
        }
        i = i + 1;
    }
    proof {
        assert(kv.take(key@.len() as int) =~= kv);
    }
    all
}

/// Whether two lists hold the same names, ignoring order and repetition.
pub fn same_members(a: &[String], b: &[String]) -> (r: bool)
    ensures
        r == (attrs_view(a@).to_set() == attrs_view(b@).to_set()),
{
    let mut i: usize = 0;
    while i < a.len()
        invariant
            i <= a@.len(),
            forall|k: int| 0 <= k < i ==> attrs_view(b@).contains(#[trigger] attrs_view(a@)[k]),
        decreases a@.len() - i,
    {
        if !contains_attr(b, a[i].as_str()) {
            proof {
                assert(attrs_view(a@).to_set().contains(attrs_view(a@)[i as int]));
            }
            return false;
        }
        i = i + 1;
    }
    let mut j: usize = 0;
    while j < b.len()
        invariant
            j <= b@.len(),
            forall|k: int| 0 <= k < j ==> attrs_view(a@).contains(#[trigger] attrs_view(b@)[k]),
        decreases b@.len() - j,
    {
        if !contains_attr(a, b[j].as_str()) {
            proof {
                assert(attrs_view(b@).to_set().contains(attrs_view(b@)[j as int]));
            }
            return false;
        }
        j = j + 1;
    }
    proof {
        assert forall|x: Seq<char>| attrs_view(a@).contains(x) implies attrs_view(b@).contains(x) by {
            let k = choose|k: int| 0 <= k < attrs_view(a@).len() && attrs_view(a@)[k] == x;
        }
        assert forall|x: Seq<char>| attrs_view(b@).contains(x) implies attrs_view(a@).contains(x) by {
            let k = choose|k: int| 0 <= k < attrs_view(b@).len() && attrs_view(b@)[k] == x;
        }
        assert(attrs_view(a@).to_set() =~= attrs_view(b@).to_set());
    }
    true
}

/// The authority sets of blindings as lists of names.
pub open spec fn blinding_sets(v: Seq<Vec<String>>) -> Seq<Seq<Seq<char>>> {
    v.map_values(|b: Vec<String>| attrs_view(b@))
}

/// Whether some blinding is for exactly the set of `authorities`.
pub open spec fn blinding_for(blindings: Seq<Seq<Seq<char>>>, authorities: Seq<Seq<char>>) -> bool {
    exists|b: int| 0 <= b < blindings.len() && #[trigger] blindings[b].to_set() == authorities.to_set()
}

/// Whether some blinding is for exactly the set of `authorities`.
pub fn has_blinding(blindings: &[Vec<String>], authorities: &[String]) -> (r: bool)
    ensures
        r == blinding_for(blinding_sets(blindings@), attrs_view(authorities@)),
{
    let ghost bs = blinding_sets(blindings@);
    let mut i: usize = 0;
    while i < blindings.len()
        invariant
            i <= blindings@.len(),
            bs == blinding_sets(blindings@),
            forall|k: int| 0 <= k < i ==> #[trigger] bs[k].to_set() != attrs_view(authorities@).to_set(),
        decreases blindings@.len() - i,
    {
        if same_members(blindings[i].as_slice(), authorities) {
            assert(bs[i as int] == attrs_view(blindings@[i as int]@));
            return true;
        }
        i = i + 1;
    }
    false
}

/// Why a plan is refused: the policy is not satisfied, or the operation
/// fails for the reason given.
pub enum Refusal {
    NotSatisfied,
    Failed(Seq<char>),
}

/// What decryption plans for a user key, ciphertext rows and blindings: the
/// key's attributes must satisfy the policy; the assignment's rows are
/// grouped by authority; some blinding must be for exactly the groups'
/// authorities; and the key must hold, for each group, a component from its
/// authority with the attribute of each of its rows.
pub open spec fn decryption_outcome(
    p: Policy,
    key: Seq<(Seq<char>, Seq<Seq<char>>)>,
    labels: Seq<(Seq<char>, Seq<char>)>,
    blindings: Seq<Seq<Seq<char>>>,
) -> Result<Seq<(Seq<char>, Seq<(int, int)>)>, Refusal> {
    match assignment(p, held_attributes(key).to_set()) {
        None => Err(Refusal::NotSatisfied),
        Some(a) => match assigned_rows(a, labels) {
            Err(_) => Err(Refusal::Failed("Missing ciphertext component"@)),
            Ok(rs) => if !blinding_for(blindings, row_authorities(rs, labels)) {
                Err(Refusal::NotSatisfied)
            } else {
                match key_gap(grouped(rs, labels), labels, key) {
                    Some((true, _)) => Err(Refusal::NotSatisfied),
                    Some((false, x)) => Err(Refusal::Failed("Missing key for attribute "@ + x)),
                    None => Ok(grouped(rs, labels)),
                }
            },
        },
    }
}

/// The authorities of a list of groups, in order.
fn group_authorities(groups: &Vec<(String, Vec<(usize, Fr)>)>) -> (r: Vec<String>)
    ensures
        attrs_view(r@) == groups_view(groups@).map_values(|g: (Seq<char>, Seq<(int, int)>)| g.0),
{
    let mut r: Vec<String> = Vec::new();
    let mut i: usize = 0;
    while i < groups.len()
        invariant
            i <= groups@.len(),
            attrs_view(r@) == groups_view(groups@).map_values(|g: (Seq<char>, Seq<(int, int)>)| g.0).take(i as int),
        decreases groups@.len() - i,
    {
        let ghost before = r@;
        r.push(groups[i].0.clone());
        proof {
            assert(attrs_view(r@) =~= attrs_view(before).push(groups@[i as int].0@));
            assert(groups_view(groups@).map_values(|g: (Seq<char>, Seq<(int, int)>)| g.0).take(i + 1) =~= groups_view(groups@).map_values(|g: (Seq<char>, Seq<(int, int)>)| g.0).take(i as int).push(groups@[i as int].0@));
        }
        i = i + 1;
    }
    assert(groups_view(groups@).map_values(|g: (Seq<char>, Seq<(int, int)>)| g.0).take(groups@.len() as int) =~= groups_view(groups@).map_values(|g: (Seq<char>, Seq<(int, int)>)| g.0));
    r
}

/// The decisions of decryption under a user key: which ciphertext rows to
/// combine, grouped by the authority whose component decrypts them, with
/// their coefficients; or why the key cannot decrypt. The key is given as
/// its components' authorities and attributes, the ciphertext as its rows'
/// labels (attribute, authority) and its blindings' authority sets.
/// `decryption_outcome` states the result.
pub fn decryption_plan(
    policy: &PolicyNode,
    key: &[(String, Vec<String>)],
    labels: &[(String, String)],
    blindings: &[Vec<String>],
) -> (r: Result<Vec<(String, Vec<(usize, Fr)>)>, AbeError>)
    ensures
        match decryption_outcome(policy@, holdings_view(key@), labels_view(labels@), blinding_sets(blindings@)) {
            Ok(gs) => r is Ok && groups_view(r->Ok_0@) == gs,
            Err(Refusal::NotSatisfied) => r matches Err(AbeError::PolicyNotSatisfied),
            Err(Refusal::Failed(m)) => r matches Err(AbeError::DecryptError(x)) && x@ == m,
        },
{
    let ghost kv = holdings_view(key@);
    let ghost lv = labels_view(labels@);
    let all = all_held_attributes(key);
    let assignment = match find_satisfying_assignment(policy, all.as_slice()) {
        None => {
            return Err(AbeError::PolicyNotSatisfied);
        },
        Some(a) => a,
    };
    let ghost av = assignment_view(assignment@);
    let groups = match group_by_authority(assignment.as_slice(), labels) {
        Err(_) => {
            return Err(AbeError::DecryptError(String::from_str("Missing ciphertext component")));
        },
        Ok(g) => g,
    };
    let ghost rs = match assigned_rows(av, lv) {
        Ok(rs) => rs,
        Err(_) => Seq::empty(),
    };
    let used = group_authorities(&groups);
    proof {
        assert(groups_view(groups@) == grouped(rs, lv));
        assert(attrs_view(used@) =~= row_authorities(rs, lv));
    }
    if !has_blinding(blindings, used.as_slice()) {
        return Err(AbeError::PolicyNotSatisfied);
    }
    match missing_key(groups.as_slice(), labels, key) {
        Some(KeyGap::Authority(_)) => Err(AbeError::PolicyNotSatisfied),
        Some(KeyGap::Attribute(a)) => {
            let mut m = String::from_str("Missing key for attribute ");
            m.append(a.as_str());
            Err(AbeError::DecryptError(m))
        },
        None => Ok(groups),
    }
}


/// What proxy re-encryption plans for a re-encryption key, given as its
/// per-authority components with their attributes, and ciphertext rows:
/// the key's attributes must satisfy the policy; each assigned attribute
/// needs a row; the rows are grouped by authority; and the key must hold,
/// for each group, a component from its authority with the attribute of
/// each of its rows. A missing attribute is reported after
/// `rekey_missing`.
pub open spec fn proxy_outcome(
    p: Policy,
    rk: Seq<(Seq<char>, Seq<Seq<char>>)>,
    labels: Seq<(Seq<char>, Seq<char>)>,
    rekey_missing: Seq<char>,
) -> Result<Seq<(Seq<char>, Seq<(int, int)>)>, Refusal> {
    match assignment(p, held_attributes(rk).to_set()) {
        None => Err(Refusal::NotSatisfied),
        Some(a) => match assigned_rows(a, labels) {
            Err(x) => Err(Refusal::Failed("No ciphertext for attr "@ + x)),
            Ok(rs) => match key_gap(grouped(rs, labels), labels, rk) {
                Some((true, aid)) => Err(Refusal::Failed("No re-encryption key for authority "@ + aid)),
                Some((false, x)) => Err(Refusal::Failed(rekey_missing + x)),
                None => Ok(grouped(rs, labels)),
            },
        },
    }
}

/// Whether `r` is the plan outcome `expected` describes.
pub open spec fn is_plan(r: Result<Vec<(String, Vec<(usize, Fr)>)>, AbeError>, expected: Result<Seq<(Seq<char>, Seq<(int, int)>)>, Refusal>) -> bool {
    match expected {
        Ok(gs) => r is Ok && groups_view(r->Ok_0@) == gs,
        Err(Refusal::NotSatisfied) => r matches Err(AbeError::PolicyNotSatisfied),
        Err(Refusal::Failed(m)) => r matches Err(AbeError::DecryptError(x)) && x@ == m,
    }
}

/// `prefix` followed by `name`.
fn message(prefix: &str, name: &str) -> (m: String)
    ensures
        m@ == prefix@ + name@,
{
    let mut m = String::from_str(prefix);
    m.append(name);
    m
}

/// The decisions of proxy re-encryption, as `proxy_outcome` states them.
pub(crate) fn proxy_plan(
    policy: &PolicyNode,
    rk: &[(String, Vec<String>)],
    labels: &[(String, String)],
    rekey_missing: &str,
) -> (r: Result<Vec<(String, Vec<(usize, Fr)>)>, AbeError>)
    ensures
        is_plan(r, proxy_outcome(policy@, holdings_view(rk@), labels_view(labels@), rekey_missing@)),
{
    let ghost lv = labels_view(labels@);
    let all = all_held_attributes(rk);
    let assignment = match find_satisfying_assignment(policy, all.as_slice()) {
        None => {
            return Err(AbeError::PolicyNotSatisfied);
        },
        Some(a) => a,
    };
    let ghost av = assignment_view(assignment@);
    let groups = match group_by_authority(assignment.as_slice(), labels) {
        Err(x) => {
            return Err(AbeError::DecryptError(message("No ciphertext for attr ", x.as_str())));
        },
        Ok(g) => g,
    };
    match missing_key(groups.as_slice(), labels, rk) {
        Some(KeyGap::Authority(aid)) => Err(AbeError::DecryptError(message("No re-encryption key for authority ", aid.as_str()))),
        Some(KeyGap::Attribute(a)) => Err(AbeError::DecryptError(message(rekey_missing, a.as_str()))),
        None => Ok(groups),
    }
}


/// A user key's part issued by one authority: the authority, the part's
/// group elements `k` and `l` (of any type `K`), and a component for each
/// attribute under its full name `aid:attribute` (of any type `G`).
#[derive(Clone, Debug)]
pub struct UserKeyComponent<K, G> {
    /// The issuing authority.
    pub aid: String,
    /// The part's first group element.
    pub k: K,
    /// The part's second group element.
    pub l: K,
    /// The attribute components, each under its full name.
    pub kx: Vec<(String, G)>,
}

/// A user key: at most one part per authority.
#[derive(Clone, Debug)]
pub struct UserSecretKey<K, G> {
    /// The parts, one per authority.
    pub components: Vec<UserKeyComponent<K, G>>,
}

/// The full names `aid:attribute` of attributes issued by `aid`.
pub open spec fn full_names(aid: Seq<char>, attrs: Seq<Seq<char>>) -> Seq<Seq<char>> {
    attrs.map_values(|a: Seq<char>| aid + ":"@ + a)
}

/// The full name `aid:attr`.
fn full_name(aid: &str, attr: &str) -> (r: String)
    ensures
        r@ == aid@ + ":"@ + attr@,
{
    let mut r = String::from_str(aid);
    r.append(":");
    r.append(attr);
    r
}

/// An authority issues its part of a user key from the part's group
/// elements `k` and `l`: a component for each attribute, under its full
/// name `aid:attribute`, made by `component` from that name; an attribute
/// given twice has one component, in its first place. Nothing is stated
/// of the components' material.
pub fn authority_keygen<K, G, F: Fn(&String) -> G>(aid: &str, k: K, l: K, attributes: &[String], component: F) -> (r: Result<
    UserKeyComponent<K, G>,
    AbeError,
>)
    requires
        forall|a: &String| component.requires((a,)),
    ensures
        r matches Ok(c) && c.aid@ == aid@ && c.k == k && c.l == l && component_names(c.kx@) == dedup_first(
            full_names(aid@, attrs_view(attributes@)),
        ),
{
    let ghost fv = full_names(aid@, attrs_view(attributes@));
    let mut all: Vec<String> = Vec::new();
    let mut i: usize = 0;
    while i < attributes.len()
        invariant
            i <= attributes@.len(),
            fv == full_names(aid@, attrs_view(attributes@)),
            names(all@) == fv.take(i as int),
        decreases attributes@.len() - i,
    {
        let ghost before = all@;
        all.push(full_name(aid, attributes[i].as_str()));
        proof {
            assert(names(all@) =~= names(before).push(fv[i as int]));
            assert(fv.take(i + 1) =~= fv.take(i as int).push(fv[i as int]));
        }
        i = i + 1;
    }
    assert(fv.take(attributes@.len() as int) =~= fv);
    let kx = component_table(&all, component);
    Ok(UserKeyComponent { aid: String::from_str(aid), k, l, kx })
}

/// The authorities of key parts, in order.
pub open spec fn part_authorities<K, G>(s: Seq<UserKeyComponent<K, G>>) -> Seq<Seq<char>> {
    s.map_values(|c: UserKeyComponent<K, G>| c.aid@)
}

/// The last of the parts `s` from authority `aid`, if any.
pub open spec fn last_part<K, G>(s: Seq<UserKeyComponent<K, G>>, aid: Seq<char>) -> Option<UserKeyComponent<K, G>>
    decreases s.len(),
{
    if s.len() == 0 {
        None
    } else if s.last().aid@ == aid {
        Some(s.last())
    } else {
        last_part(s.drop_last(), aid)
    }
}

/// Gathers the parts of a user key issued by several authorities, one per
/// authority: the authorities keep the order of their first part, and a
/// later part from the same authority replaces an earlier one.
pub fn aggregate_user_keys<K, G>(components: Vec<UserKeyComponent<K, G>>) -> (r: Result<UserSecretKey<K, G>, AbeError>)
    ensures
        r matches Ok(usk) && part_authorities(usk.components@) == dedup_first(part_authorities(components@))
            && forall|j: int| 0 <= j < usk.components@.len() ==> last_part(components@, #[trigger] usk.components@[j].aid@) == Some(usk.components@[j]),
{
    let ghost orig = components@;
    let ghost pa = part_authorities(orig);
    let mut rest = components;
    let mut out: Vec<UserKeyComponent<K, G>> = Vec::new();
    let ghost mut done: int = 0;
    proof {
        assert(pa.take(0) =~= Seq::<Seq<char>>::empty());
        assert(rest@ =~= orig.skip(0));
    }
    while rest.len() > 0
        invariant
            pa == part_authorities(orig),
            0 <= done <= orig.len(),
            done + rest@.len() == orig.len(),
            rest@ == orig.skip(done),
            part_authorities(out@) == dedup_first(pa.take(done)),
            forall|j: int| 0 <= j < out@.len() ==> last_part(orig.take(done), #[trigger] out@[j].aid@) == Some(out@[j]),
        decreases rest@.len(),
    {
        let ghost i: int = done;
        let c = rest.remove(0);
        proof {
            assert(c == orig[i]);
            assert(rest@ =~= orig.skip(i + 1));
            assert(pa.take(i + 1).drop_last() =~= pa.take(i));
            assert(pa.take(i + 1).last() == c.aid@);
            assert(orig.take(i + 1).drop_last() =~= orig.take(i));
            assert(orig.take(i + 1).last() == c);
        }
        let ghost before = out@;
        let mut pos: usize = 0;
        let mut found = false;
        while pos < out.len() && !found
            invariant
                out@ == before,
                pos <= out@.len(),
                found ==> pos < out@.len() && out@[pos as int].aid@ == c.aid@,
                forall|q: int| 0 <= q < pos ==> (#[trigger] out@[q]).aid@ != c.aid@,
            decreases out@.len() - pos + (if found { 0int } else { 1int }),
        {
            if str_eq(out[pos].aid.as_str(), c.aid.as_str()) {
                found = true;
            } else {
                pos = pos + 1;
            }
        }
        let ghost cv = c;
        if found {
            proof {
                assert(part_authorities(before)[pos as int] == c.aid@);
                assert(dedup_first(pa.take(i)).contains(c.aid@));
            }
            let _ = out.remove(pos);
            out.insert(pos, c);
            proof {
                assert(out@ =~= before.update(pos as int, cv));
                assert(part_authorities(out@) =~= part_authorities(before));
                assert forall|j: int| 0 <= j < out@.len() implies last_part(orig.take(i + 1), #[trigger] out@[j].aid@) == Some(out@[j]) by {
                    if j != pos {
                        assert(part_authorities(before)[j] == before[j].aid@);
                        lemma_dedup_first_distinct(pa.take(i), j, pos as int);
                        assert(before[j].aid@ != cv.aid@);
                        assert(last_part(orig.take(i), before[j].aid@) == Some(before[j]));
                    }
                }
            }
        } else {
            proof {
                assert(!part_authorities(before).contains(c.aid@)) by {
                    if part_authorities(before).contains(c.aid@) {
                        let q = choose|q: int| 0 <= q < part_authorities(before).len() && part_authorities(before)[q] == c.aid@;
                        assert(before[q].aid@ == c.aid@);
                    }
                }
            }
            out.push(c);
            proof {
                assert(out@ =~= before.push(cv));
                assert(part_authorities(out@) =~= part_authorities(before).push(cv.aid@));
                assert forall|j: int| 0 <= j < out@.len() implies last_part(orig.take(i + 1), #[trigger] out@[j].aid@) == Some(out@[j]) by {
                    if j < before.len() {
                        assert(part_authorities(before)[j] == before[j].aid@);
                        assert(before[j].aid@ != cv.aid@);
                        assert(last_part(orig.take(i), before[j].aid@) == Some(before[j]));
                    }
                }
            }
        }
        proof {
            done = i + 1;
        }
    }
    proof {
        assert(orig.take(orig.len() as int) =~= orig);
        assert(pa.take(orig.len() as int) =~= pa);
        assert(orig.take(done) == orig);
    }
    Ok(UserSecretKey { components: out })
}

/// The authority and attribute names of a key part.
pub open spec fn part_holding<K, G>(c: UserKeyComponent<K, G>) -> (Seq<char>, Seq<Seq<char>>) {
    (c.aid@, component_names(c.kx@))
}

impl<K, G> UserSecretKey<K, G> {
    /// The key's parts as (authority, names of the attributes held), the
    /// form in which the decryption plans read a key.
    pub fn holdings(&self) -> (r: Vec<(String, Vec<String>)>)
        ensures
            holdings_view(r@) == self.components@.map_values(|c: UserKeyComponent<K, G>| part_holding(c)),
    {
        let mut r: Vec<(String, Vec<String>)> = Vec::new();
        let mut i: usize = 0;
        while i < self.components.len()
            invariant
                i <= self.components@.len(),
                holdings_view(r@) == self.components@.map_values(|c: UserKeyComponent<K, G>| part_holding(c)).take(i as int),
            decreases self.components@.len() - i,
        {
            let part = &self.components[i];
            let mut held: Vec<String> = Vec::new();
            let mut j: usize = 0;
            while j < part.kx.len()
                invariant
                    j <= part.kx@.len(),
                    attrs_view(held@) == component_names(part.kx@).take(j as int),
                decreases part.kx@.len() - j,
            {
                let ghost before = held@;
                held.push(part.kx[j].0.clone());
                proof {
                    assert(attrs_view(held@) =~= attrs_view(before).push(part.kx@[j as int].0@));
                    assert(component_names(part.kx@).take(j + 1) =~= component_names(part.kx@).take(j as int).push(part.kx@[j as int].0@));
                }
                j = j + 1;
            }
            let ghost before_r = r@;
            r.push((part.aid.clone(), held));
            proof {
                assert(component_names(part.kx@).take(part.kx@.len() as int) =~= component_names(part.kx@));
                assert(holdings_view(r@) =~= holdings_view(before_r).push(part_holding(*part)));
                assert(self.components@.map_values(|c: UserKeyComponent<K, G>| part_holding(c)).take(i + 1) =~= self.components@.map_values(|c: UserKeyComponent<K, G>| part_holding(c)).take(i as int).push(part_holding(*part)));
            }
            i = i + 1;
        }
        assert(self.components@.map_values(|c: UserKeyComponent<K, G>| part_holding(c)).take(self.components@.len() as int) =~= self.components@.map_values(|c: UserKeyComponent<K, G>| part_holding(c)));
        r
    }
}

/// The strings kept by `dedup_first` are distinct.
proof fn lemma_dedup_first_distinct(s: Seq<Seq<char>>, a: int, b: int)
    requires
        0 <= a < dedup_first(s).len(),
        0 <= b < dedup_first(s).len(),
        a != b,
    ensures
        dedup_first(s)[a] != dedup_first(s)[b],
    decreases s.len(),
{
    if s.len() > 0 {
        let d = dedup_first(s.drop_last());
        if d.contains(s.last()) {
            lemma_dedup_first_distinct(s.drop_last(), a, b);
        } else {
            if a < d.len() && b < d.len() {
                lemma_dedup_first_distinct(s.drop_last(), a, b);
            } else if a == d.len() {
                assert(dedup_first(s)[b] == d[b]);
                assert(d.contains(d[b]));
            } else {
                assert(dedup_first(s)[a] == d[a]);
                assert(d.contains(d[a]));
            }
        }
    }
}


/// The bytes a symmetric key is the hash of: a domain tag, then the
/// encoding of the target-group element it is derived from.
pub open spec fn key_input(gt_bytes: Seq<u8>) -> Seq<u8> {
    encode_utf8("DABE_KEY_DERIVE"@) + gt_bytes
}

/// The symmetric key derived from a target-group element given by its
/// encoding: the SHA-256 digest of the tagged encoding.
pub fn derive_key(gt_bytes: &[u8]) -> (r: Vec<u8>)
    ensures
        r@ == sha256_digest(key_input(gt_bytes@)),
        r@.len() == 32,
{
    let mut msg: Vec<u8> = Vec::new();
    push_bytes(&mut msg, "DABE_KEY_DERIVE".as_bytes());
    push_bytes(&mut msg, gt_bytes);
    assert(msg@ =~= key_input(gt_bytes@));
    sha256(msg.as_slice())
}

} // verus!
