//! Direct revocation: a ciphertext names the users it is closed to, and
//! every key carries its holder's identity as an attribute.

use vstd::prelude::*;
use crate::error::AbeError;
use crate::text::names;

verus! {

/// Prefix of the attribute that names a key's holder.
pub const USER_ATTR_PREFIX: &'static str = "USER_";

/// Prefix of the attribute that marks a holder as not revoked.
pub const NOT_REVOKED_PREFIX: &'static str = "NOT_REVOKED_";

/// The revoked users, each once.
#[derive(Debug)]
pub struct RevocationSet {
    revoked: Vec<String>,
}

impl View for RevocationSet {
    type V = Set<Seq<char>>;

    closed spec fn view(&self) -> Set<Seq<char>> {
        self.users().to_set()
    }
}

impl RevocationSet {
    /// The revoked users in the order they are kept.
    closed spec fn users(self) -> Seq<Seq<char>> {
        names(self.revoked@)
    }

    #[verifier::type_invariant]
    closed spec fn no_user_twice(self) -> bool {
        self.users().no_duplicates()
    }

    /// The position of `user_id` among the kept users.
    fn position(&self, user_id: &str) -> (r: Option<usize>)
        ensures
            match r {
                Some(i) => i < self.revoked@.len() && self.users()[i as int] == user_id@,
                None => !self.users().contains(user_id@),
            },
    {
        let mut i: usize = 0;
        while i < self.revoked.len()
            invariant
                i <= self.revoked@.len(),
                forall|j: int| 0 <= j < i ==> self.users()[j] != user_id@,
            decreases self.revoked@.len() - i,
        {
            if crate::text::str_eq(self.revoked[i].as_str(), user_id) {
                return Some(i);
            }
            i = i + 1;
        }
        None
    }

    /// No user revoked.
    pub fn new() -> (r: Self)
        ensures
            r@ == Set::<Seq<char>>::empty(),
    {
        let r = RevocationSet { revoked: Vec::new() };
        assert(r.users() =~= Seq::<Seq<char>>::empty());
        r
    }

    /// Revokes `user_id`; revoking a revoked user changes nothing.
    pub fn revoke(&mut self, user_id: &str)
        ensures
            final(self)@ == old(self)@.insert(user_id@),
            final(self)@.finite(),
            final(self)@.len() == old(self)@.len() + if old(self)@.contains(user_id@) { 0int } else { 1int },
    {
        proof {
            use_type_invariant(&*self);
            vstd::seq_lib::seq_to_set_is_finite(self.users());
        }
        if self.position(user_id).is_none() {
            let ghost before = self.users();
            let mut v: Vec<String> = Vec::new();
            std::mem::swap(&mut v, &mut self.revoked);
            v.push(String::from_str(user_id));
            assert(names(v@) =~= before.push(user_id@));
            assert(before.push(user_id@).no_duplicates()) by {
                let after = before.push(user_id@);
                assert forall|a: int, b: int| 0 <= a < after.len() && 0 <= b < after.len() && a != b
                    implies after[a] != after[b] by {
                    if a < before.len() && b < before.len() {
                        assert(after[a] == before[a] && after[b] == before[b]);
                    } else if a < before.len() {
                        assert(after[a] == before[a]);
                    } else {
                        assert(after[b] == before[b]);
                    }
                }
            }
            self.revoked = v;
            proof {
                before.lemma_push_to_set_commute(user_id@);
                vstd::seq_lib::seq_to_set_is_finite(self.users());
            }
        } else {
            assert(self.users().to_set() =~= self.users().to_set().insert(user_id@));
        }
    }

    /// Lifts the revocation of `user_id`, if there is one.
    pub fn unrevoke(&mut self, user_id: &str)
        ensures
            final(self)@ == old(self)@.remove(user_id@),
            final(self)@.finite(),
            final(self)@.len() == old(self)@.len() - if old(self)@.contains(user_id@) { 1int } else { 0int },
    {
        proof {
            use_type_invariant(&*self);
            vstd::seq_lib::seq_to_set_is_finite(self.users());
        }
        match self.position(user_id) {
            Some(i) => {
                let ghost before = self.users();
                let mut v: Vec<String> = Vec::new();
                std::mem::swap(&mut v, &mut self.revoked);
                let _ = v.remove(i);
                assert(names(v@) =~= before.remove(i as int));
                proof { before.remove_ensures(i as int); }
                assert(before.remove(i as int).no_duplicates()) by {
                    let after = before.remove(i as int);
                    assert forall|a: int, b: int| 0 <= a < after.len() && 0 <= b < after.len() && a != b
                        implies after[a] != after[b] by {
                        let a1 = if a < i { a } else { a + 1 };
                        let b1 = if b < i { b } else { b + 1 };
                        assert(after[a] == before[a1] && after[b] == before[b1]);
                    }
                }
                self.revoked = v;
                proof { vstd::seq_lib::seq_to_set_is_finite(self.users()); }
                assert(self.users().to_set() =~= before.to_set().remove(user_id@)) by {
                    before.remove_ensures(i as int);
                    assert forall|x: Seq<char>| #[trigger] before.to_set().remove(user_id@).contains(x) implies self.users().contains(x) by {
                        let j = choose|j: int| 0 <= j < before.len() && before[j] == x;
                        if j < i {
                            assert(self.users()[j] == x);
                        } else {
                            assert(j != i);
                            assert(self.users()[j - 1] == x);
                        }
                    }
                    assert forall|x: Seq<char>| #[trigger] self.users().contains(x) implies before.to_set().remove(user_id@).contains(x) by {
                        let j = choose|j: int| 0 <= j < self.users().len() && self.users()[j] == x;
                        if j < i {
                            assert(before[j] == x);
                            assert(j != i);
                        } else {
                            assert(before[j + 1] == x);
                        }
                    }
                }
            },
            None => {
                assert(self.users().to_set() =~= self.users().to_set().remove(user_id@));
            },
        }
    }

    /// Whether `user_id` is revoked.
    pub fn is_revoked(&self, user_id: &str) -> (b: bool)
        ensures
            b == self@.contains(user_id@),
    {
        self.position(user_id).is_some()
    }

    /// Copies of the kept users, in order.
    fn copy_users(&self) -> (r: Vec<String>)
        ensures
            names(r@) == self.users(),
    {
        let mut r: Vec<String> = Vec::new();
        let mut i: usize = 0;
        while i < self.revoked.len()
            invariant
                i <= self.revoked@.len(),
                names(r@) == self.users().take(i as int),
            decreases self.revoked@.len() - i,
        {
            let u = self.revoked[i].clone();
            proof {
                assert(u@ == self.users()[i as int]);
                assert(names(r@.push(u)) =~= names(r@).push(u@));
                assert(self.users().take(i + 1) =~= self.users().take(i as int).push(self.users()[i as int]));
            }
            r.push(u);
            i = i + 1;
        }
        assert(self.users().take(self.revoked@.len() as int) =~= self.users());
        r
    }

    /// The revoked users, each once, in no particular order.
    pub fn revoked_users(&self) -> (r: Vec<String>)
        ensures
            names(r@).no_duplicates(),
            names(r@).to_set() == self@,
    {
        proof { use_type_invariant(self); }
        self.copy_users()
    }

    /// The number of revoked users.
    pub fn len(&self) -> (n: usize)
        ensures
            n == self@.len(),
            self@.finite(),
    {
        proof {
            vstd::seq_lib::seq_to_set_is_finite(self.users());
            use_type_invariant(self);
            self.users().unique_seq_to_set();
        }
        self.revoked.len()
    }

    /// Whether no user is revoked.
    pub fn is_empty(&self) -> (b: bool)
        ensures
            b == (self@.len() == 0),
    {
        self.len() == 0
    }

    /// The set revoking exactly the users listed.
    pub fn from_users(users: &[&str]) -> (r: Self)
        ensures
            r@ == users@.map_values(|u: &str| u@).to_set(),
    {
        let mut set = Self::new();
        let mut i: usize = 0;
        while i < users.len()
            invariant
                i <= users@.len(),
                set@ == users@.map_values(|u: &str| u@).take(i as int).to_set(),
            decreases users@.len() - i,
        {
            set.revoke(users[i]);
            proof {
                let s = users@.map_values(|u: &str| u@);
                assert(s.take(i + 1) =~= s.take(i as int).push(s[i as int]));
                s.take(i as int).lemma_push_to_set_commute(s[i as int]);
            }
            i = i + 1;
        }
        assert(users@.map_values(|u: &str| u@).take(users@.len() as int) =~= users@.map_values(|u: &str| u@));
        set
    }
}

impl Clone for RevocationSet {
    fn clone(&self) -> (r: Self)
        ensures
            r@ == self@,
    {
        proof { use_type_invariant(self); }
        RevocationSet { revoked: self.copy_users() }
    }
}

impl Default for RevocationSet {
    fn default() -> (r: Self)
        ensures
            r@ == Set::<Seq<char>>::empty(),
    {
        Self::new()
    }
}

/// Lifting a revocation undoes it: revoking a user not yet revoked and then
/// lifting that revocation leaves the set of revoked users as it was, and
/// revoking twice is revoking once.
pub proof fn lemma_unrevoke_undoes_revoke(revoked: Set<Seq<char>>, user_id: Seq<char>)
    ensures
        !revoked.contains(user_id) ==> revoked.insert(user_id).remove(user_id) == revoked,
        revoked.insert(user_id).insert(user_id) == revoked.insert(user_id),
        revoked.insert(user_id).contains(user_id),
        !revoked.remove(user_id).contains(user_id),
{
    assert(revoked.insert(user_id).insert(user_id) =~= revoked.insert(user_id));
    if !revoked.contains(user_id) {
        assert(revoked.insert(user_id).remove(user_id) =~= revoked);
    }
}

/// The attribute that names the holder `user_id`.
pub fn user_to_attribute(user_id: &str) -> (r: String)
    ensures
        r@ == USER_ATTR_PREFIX@ + user_id@,
{
    let mut r = String::from_str(USER_ATTR_PREFIX);
    r.append(user_id);
    r
}

/// The attribute that marks `user_id` as not revoked.
pub fn user_to_not_revoked_attribute(user_id: &str) -> (r: String)
    ensures
        r@ == NOT_REVOKED_PREFIX@ + user_id@,
{
    let mut r = String::from_str(NOT_REVOKED_PREFIX);
    r.append(user_id);
    r
}

/// The policy to encrypt under when some users are revoked. Revocation is
/// enforced at decryption, through the revoked users a ciphertext records,
/// so the policy is the base policy unchanged.
pub fn policy_with_revocation(base_policy: &str, _revoked_users: &RevocationSet) -> (r: Result<String, AbeError>)
    ensures
        r matches Ok(p) && p@ == base_policy@,
{
    Ok(String::from_str(base_policy))
}

/// A key with its holder's identity: the holder, the key's group elements
/// `k` and `l` (of any type `K`), a component for each attribute under its
/// name (of any type `G`), the holder's own attributes, and all the
/// attributes the key carries, the identity attributes included.
#[derive(Clone, Debug)]
pub struct SecretKey<K, G> {
    /// The holder.
    pub user_id: String,
    /// The key's first group element.
    pub k: K,
    /// The key's second group element.
    pub l: K,
    /// The attribute components, each under its attribute's name.
    pub kx: Vec<(String, G)>,
    /// The holder's own attributes, without the identity ones.
    pub user_attributes: Vec<String>,
    /// All the attributes, the identity ones included.
    pub all_attributes: Vec<String>,
}

/// The strings of `s` without repeats, each where it first occurs.
pub open spec fn dedup_first(s: Seq<Seq<char>>) -> Seq<Seq<char>>
    decreases s.len(),
{
    if s.len() == 0 {
        Seq::empty()
    } else {
        let d = dedup_first(s.drop_last());
        if d.contains(s.last()) {
            d
        } else {
            d.push(s.last())
        }
    }
}

/// The names of components, in order.
pub open spec fn component_names<G>(kx: Seq<(String, G)>) -> Seq<Seq<char>> {
    kx.map_values(|e: (String, G)| e.0@)
}

/// Whether a component is named `name`, and the place of the first one.
fn position_of_name<G>(kx: &Vec<(String, G)>, name: &str) -> (r: (bool, usize))
    ensures
        r.0 ==> r.1 < kx@.len() && component_names(kx@)[r.1 as int] == name@,
        !r.0 ==> !component_names(kx@).contains(name@),
{
    let mut pos: usize = 0;
    while pos < kx.len()
        invariant
            pos <= kx@.len(),
            forall|j: int| 0 <= j < pos ==> (#[trigger] component_names(kx@)[j]) != name@,
        decreases kx@.len() - pos,
    {
        if crate::text::str_eq(kx[pos].0.as_str(), name) {
            return (true, pos);
        }
        pos = pos + 1;
    }
    (false, 0)
}

/// A component for each of the attributes `all`, made by `component`; an
/// attribute given twice keeps its first place and takes the material made
/// last. Nothing is stated of the material itself.
pub(crate) fn component_table<G, F: Fn(&String) -> G>(all: &Vec<String>, component: F) -> (r: Vec<(String, G)>)
    requires
        forall|a: &String| component.requires((a,)),
    ensures
        component_names(r@) == dedup_first(names(all@)),
{
    let ghost al = names(all@);
    let mut table: Vec<(String, G)> = Vec::new();
    let mut i: usize = 0;
    assert(al.take(0) =~= Seq::<Seq<char>>::empty());
    while i < all.len()
        invariant
            al == names(all@),
            i <= all@.len(),
            forall|a: &String| component.requires((a,)),
            component_names(table@) == dedup_first(al.take(i as int)),
        decreases all@.len() - i,
    {
        let attr = &all[i];
        let key = component(attr);
        let ghost before = table@;
        proof {
            assert(al.take(i + 1).drop_last() =~= al.take(i as int));
            assert(al.take(i + 1).last() == attr@);
        }
        let (found, pos) = position_of_name(&table, attr.as_str());
        if found {
            let _ = table.remove(pos);
            table.insert(pos, (String::from_str(attr.as_str()), key));
            proof {
                assert(component_names(table@) =~= component_names(before));
                assert(dedup_first(al.take(i as int)).contains(attr@));
            }
        } else {
            table.push((String::from_str(attr.as_str()), key));
            proof {
                assert(component_names(table@) =~= component_names(before).push(attr@));
                assert(!dedup_first(al.take(i as int)).contains(attr@));
            }
        }
        i = i + 1;
    }
    assert(al.take(i as int) =~= al);
    table
}

/// Issues a key to `user_id` from its group elements `k` and `l`: its
/// attributes are the one naming the holder, the one marking it as not
/// revoked, then `attributes`; the key material of each is made by
/// `component`.
pub fn keygen<K, G, F: Fn(&String) -> G>(k: K, l: K, user_id: &str, attributes: &[&str], component: F) -> (r: Result<
    SecretKey<K, G>,
    AbeError,
>)
    requires
        forall|a: &String| component.requires((a,)),
    ensures
        r matches Ok(sk) && sk.user_id@ == user_id@ && sk.k == k && sk.l == l
            && names(sk.user_attributes@) == attributes@.map_values(|a: &str| a@)
            && names(sk.all_attributes@) == seq![USER_ATTR_PREFIX@ + user_id@, NOT_REVOKED_PREFIX@ + user_id@]
                + attributes@.map_values(|a: &str| a@)
            && component_names(sk.kx@) == dedup_first(names(sk.all_attributes@)),
{
    let mut all: Vec<String> = Vec::new();
    all.push(user_to_attribute(user_id));
    all.push(user_to_not_revoked_attribute(user_id));
    let user_attributes = strings_of(attributes);
    assert(names(all@) =~= seq![USER_ATTR_PREFIX@ + user_id@, NOT_REVOKED_PREFIX@ + user_id@] + names(user_attributes@).take(0));
    let mut i: usize = 0;
    while i < user_attributes.len()
        invariant
            i <= user_attributes@.len(),
            names(user_attributes@) == attributes@.map_values(|a: &str| a@),
            names(all@) == seq![USER_ATTR_PREFIX@ + user_id@, NOT_REVOKED_PREFIX@ + user_id@] + names(user_attributes@).take(i as int),
        decreases user_attributes@.len() - i,
    {
        let ghost before = all@;
        all.push(String::from_str(user_attributes[i].as_str()));
        proof {
            assert(names(all@) =~= names(before).push(user_attributes@[i as int]@));
            assert(names(user_attributes@).take(i + 1) =~= names(user_attributes@).take(i as int).push(user_attributes@[i as int]@));
        }
        i = i + 1;
        assert(names(all@) =~= seq![USER_ATTR_PREFIX@ + user_id@, NOT_REVOKED_PREFIX@ + user_id@] + names(user_attributes@).take(i as int));
    }
    assert(names(user_attributes@).take(i as int) =~= names(user_attributes@));
    let kx = component_table(&all, component);
    Ok(SecretKey { user_id: String::from_str(user_id), k, l, kx, user_attributes, all_attributes: all })
}

/// Issues a key to `user_id` that lacks the attribute marking it as not
/// revoked: its attributes are the one naming the holder, then
/// `attributes`.
pub fn keygen_revoked<K, G, F: Fn(&String) -> G>(k: K, l: K, user_id: &str, attributes: &[&str], component: F) -> (r: Result<
    SecretKey<K, G>,
    AbeError,
>)
    requires
        forall|a: &String| component.requires((a,)),
    ensures
        r matches Ok(sk) && sk.user_id@ == user_id@ && sk.k == k && sk.l == l
            && names(sk.user_attributes@) == attributes@.map_values(|a: &str| a@)
            && names(sk.all_attributes@) == seq![USER_ATTR_PREFIX@ + user_id@] + attributes@.map_values(|a: &str| a@)
            && component_names(sk.kx@) == dedup_first(names(sk.all_attributes@)),
{
    let mut all: Vec<String> = Vec::new();
    all.push(user_to_attribute(user_id));
    let user_attributes = strings_of(attributes);
    assert(names(all@) =~= seq![USER_ATTR_PREFIX@ + user_id@] + names(user_attributes@).take(0));
    let mut i: usize = 0;
    while i < user_attributes.len()
        invariant
            i <= user_attributes@.len(),
            names(user_attributes@) == attributes@.map_values(|a: &str| a@),
            names(all@) == seq![USER_ATTR_PREFIX@ + user_id@] + names(user_attributes@).take(i as int),
        decreases user_attributes@.len() - i,
    {
        let ghost before = all@;
        all.push(String::from_str(user_attributes[i].as_str()));
        proof {
            assert(names(all@) =~= names(before).push(user_attributes@[i as int]@));
            assert(names(user_attributes@).take(i + 1) =~= names(user_attributes@).take(i as int).push(user_attributes@[i as int]@));
        }
        i = i + 1;
        assert(names(all@) =~= seq![USER_ATTR_PREFIX@ + user_id@] + names(user_attributes@).take(i as int));
    }
    assert(names(user_attributes@).take(i as int) =~= names(user_attributes@));
    let kx = component_table(&all, component);
    Ok(SecretKey { user_id: String::from_str(user_id), k, l, kx, user_attributes, all_attributes: all })
}

/// Owned copies of string slices.
fn strings_of(v: &[&str]) -> (r: Vec<String>)
    ensures
        names(r@) == v@.map_values(|a: &str| a@),
{
    let mut r: Vec<String> = Vec::new();
    let mut i: usize = 0;
    while i < v.len()
        invariant
            i <= v@.len(),
            r@.len() == i,
            forall|j: int| 0 <= j < i ==> (#[trigger] r@[j])@ == v@[j]@,
        decreases v@.len() - i,
    {
        r.push(String::from_str(v[i]));
        i = i + 1;
    }
    assert(names(r@) =~= v@.map_values(|a: &str| a@));
    r
}

/// A copy of a list of strings.
fn copy_strings(v: &Vec<String>) -> (r: Vec<String>)
    ensures
        names(r@) == names(v@),
{
    let mut r: Vec<String> = Vec::new();
    let mut i: usize = 0;
    while i < v.len()
        invariant
            i <= v@.len(),
            r@.len() == i,
            forall|j: int| 0 <= j < i ==> (#[trigger] r@[j])@ == v@[j]@,
        decreases v@.len() - i,
    {
        r.push(String::from_str(v[i].as_str()));
        i = i + 1;
    }
    assert(names(r@) =~= names(v@));
    r
}

/// Whether a component is not the one under `marker`.
pub open spec fn not_named<G>(marker: Seq<char>) -> spec_fn((Seq<char>, G)) -> bool {
    |e: (Seq<char>, G)| e.0 != marker
}

/// Whether a name is not `marker`.
pub open spec fn other_than(marker: Seq<char>) -> spec_fn(Seq<char>) -> bool {
    |a: Seq<char>| a != marker
}

/// The key of a revoked holder: the same key without the attribute that
/// marks its holder as not revoked, neither among the components nor
/// among the attributes. The holder's own attributes stay.
pub fn revoke_key<K: Copy, G: Copy>(sk: &SecretKey<K, G>) -> (r: SecretKey<K, G>)
    ensures
        r.user_id@ == sk.user_id@,
        r.k == sk.k,
        r.l == sk.l,
        r.kx@.map_values(|e: (String, G)| (e.0@, e.1)) == sk.kx@.map_values(|e: (String, G)| (e.0@, e.1)).filter(
            not_named(NOT_REVOKED_PREFIX@ + sk.user_id@),
        ),
        names(r.user_attributes@) == names(sk.user_attributes@),
        names(r.all_attributes@) == names(sk.all_attributes@).filter(other_than(NOT_REVOKED_PREFIX@ + sk.user_id@)),
{
    let not_revoked_attr = user_to_not_revoked_attribute(sk.user_id.as_str());
    let ghost marker = NOT_REVOKED_PREFIX@ + sk.user_id@;
    let ghost kv = sk.kx@.map_values(|e: (String, G)| (e.0@, e.1));
    let ghost kpred = not_named::<G>(marker);
    let mut new_kx: Vec<(String, G)> = Vec::new();
    let mut i: usize = 0;
    assert(kv.take(0) =~= Seq::<(Seq<char>, G)>::empty());
    while i < sk.kx.len()
        invariant
            i <= sk.kx@.len(),
            kv == sk.kx@.map_values(|e: (String, G)| (e.0@, e.1)),
            not_revoked_attr@ == marker,
            kpred == not_named::<G>(marker),
            new_kx@.map_values(|e: (String, G)| (e.0@, e.1)) == kv.take(i as int).filter(kpred),
        decreases sk.kx@.len() - i,
    {
        let ghost before = new_kx@;
        proof {
            assert(kv.take(i + 1) =~= kv.take(i as int).push(kv[i as int]));
            kv.take(i as int).lemma_filter_push(kv[i as int], kpred);
        }
        if !crate::text::str_eq(sk.kx[i].0.as_str(), not_revoked_attr.as_str()) {
            new_kx.push((String::from_str(sk.kx[i].0.as_str()), sk.kx[i].1));
            assert(new_kx@.map_values(|e: (String, G)| (e.0@, e.1)) =~= before.map_values(|e: (String, G)| (e.0@, e.1)).push(kv[i as int]));
        }
        i = i + 1;
    }
    assert(kv.take(i as int) =~= kv);
    let ghost av = names(sk.all_attributes@);
    let ghost apred = other_than(marker);
    let mut new_all: Vec<String> = Vec::new();
    let mut j: usize = 0;
    assert(av.take(0) =~= Seq::<Seq<char>>::empty());
    while j < sk.all_attributes.len()
        invariant
            j <= sk.all_attributes@.len(),
            av == names(sk.all_attributes@),
            not_revoked_attr@ == marker,
            apred == other_than(marker),
            names(new_all@) == av.take(j as int).filter(apred),
        decreases sk.all_attributes@.len() - j,
    {
        let ghost before = new_all@;
        proof {
            assert(av.take(j + 1) =~= av.take(j as int).push(av[j as int]));
            av.take(j as int).lemma_filter_push(av[j as int], apred);
        }
        if !crate::text::str_eq(sk.all_attributes[j].as_str(), not_revoked_attr.as_str()) {
            new_all.push(String::from_str(sk.all_attributes[j].as_str()));
            assert(names(new_all@) =~= names(before).push(av[j as int]));
        }
        j = j + 1;
    }
    assert(av.take(j as int) =~= av);
    SecretKey {
        user_id: String::from_str(sk.user_id.as_str()),
        k: sk.k,
        l: sk.l,
        kx: new_kx,
        user_attributes: copy_strings(&sk.user_attributes),
        all_attributes: new_all,
    }
}

/// Keeping what passes a test, twice over, keeps the same.
proof fn lemma_filter_twice<A>(s: Seq<A>, pred: spec_fn(A) -> bool)
    ensures
        s.filter(pred).filter(pred) == s.filter(pred),
        forall|i: int| 0 <= i < s.filter(pred).len() ==> pred(#[trigger] s.filter(pred)[i]),
    decreases s.len(),
{
    reveal(Seq::filter);
    if s.len() > 0 {
        lemma_filter_twice(s.drop_last(), pred);
        let f = s.drop_last().filter(pred);
        if pred(s.last()) {
            assert(f.push(s.last()).drop_last() =~= f);
            assert(f.push(s.last()).filter(pred) =~= f.filter(pred).push(s.last()));
        }
    }
}

/// A revoked key carries its holder's not-revoked attribute nowhere, and
/// revoking it again leaves its attributes and components as they are.
pub proof fn lemma_revocation_removes_marker<G>(
    attributes: Seq<Seq<char>>,
    components: Seq<(Seq<char>, G)>,
    user_id: Seq<char>,
)
    ensures
        !attributes.filter(other_than(NOT_REVOKED_PREFIX@ + user_id)).contains(NOT_REVOKED_PREFIX@ + user_id),
        forall|i: int| 0 <= i < components.filter(not_named(NOT_REVOKED_PREFIX@ + user_id)).len()
            ==> (#[trigger] components.filter(not_named(NOT_REVOKED_PREFIX@ + user_id))[i]).0 != NOT_REVOKED_PREFIX@ + user_id,
        attributes.filter(other_than(NOT_REVOKED_PREFIX@ + user_id)).filter(other_than(NOT_REVOKED_PREFIX@ + user_id))
            == attributes.filter(other_than(NOT_REVOKED_PREFIX@ + user_id)),
        components.filter(not_named(NOT_REVOKED_PREFIX@ + user_id)).filter(not_named(NOT_REVOKED_PREFIX@ + user_id))
            == components.filter(not_named(NOT_REVOKED_PREFIX@ + user_id)),
{
    let marker = NOT_REVOKED_PREFIX@ + user_id;
    lemma_filter_twice(attributes, other_than(marker));
    lemma_filter_twice(components, not_named::<G>(marker));
    let kept = attributes.filter(other_than(marker));
    assert forall|i: int| 0 <= i < kept.len() implies kept[i] != marker by {
        assert(other_than(marker)(kept[i]));
    }
}

/// Whether `r` refuses `user_id` as revoked for the ciphertext.
pub open spec fn revoked_error(r: Result<(), AbeError>, user_id: Seq<char>) -> bool {
    r matches Err(AbeError::DecryptError(m)) && m@ == "User "@ + user_id + " is revoked for this ciphertext"@
}

/// The first check of decryption: a holder the ciphertext lists among its
/// revoked users is refused, whatever its attributes.
pub fn check_not_revoked(revoked_users: &Vec<String>, user_id: &str) -> (r: Result<(), AbeError>)
    ensures
        names(revoked_users@).contains(user_id@) ==> revoked_error(r, user_id@),
        !names(revoked_users@).contains(user_id@) ==> r is Ok,
{
    let mut i: usize = 0;
    while i < revoked_users.len()
        invariant
            i <= revoked_users@.len(),
            forall|j: int| 0 <= j < i ==> (#[trigger] revoked_users@[j])@ != user_id@,
        decreases revoked_users@.len() - i,
    {
        if crate::text::str_eq(revoked_users[i].as_str(), user_id) {
            let mut m = String::from_str("User ");
            m.append(user_id);
            m.append(" is revoked for this ciphertext");
            proof {
                assert(names(revoked_users@)[i as int] == user_id@);
            }
            return Err(AbeError::DecryptError(m));
        }
        i = i + 1;
    }
    proof {
        if names(revoked_users@).contains(user_id@) {
            let k = choose|k: int| 0 <= k < names(revoked_users@).len() && names(revoked_users@)[k] == user_id@;
            assert(revoked_users@[k]@ == user_id@);
        }
    }
    Ok(())
}

} // verus!
