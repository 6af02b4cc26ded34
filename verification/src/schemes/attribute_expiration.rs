//! Attributes with validity windows. A key's attribute counts only while
//! its window lasts; renewal extends the window, and nothing needs to be
//! revoked: an authority simply stops renewing.

use vstd::prelude::*;
use crate::schemes::conditional_pre::current_timestamp;
use crate::error::AbeError;
use crate::text::{string_of, str_eq};
use crate::text::decimal;
use crate::text::push_decimal;
use crate::lsss::PolicyNode;
use crate::lsss::LsssMatrix;
use crate::lsss::Coefficients;
use crate::lsss::attrs_view;
use crate::lsss::contains_attr;
use crate::lsss::policy_matrix;
use crate::lsss::policy_width;
use crate::lsss::satisfied_rows;
use crate::lsss::row_vectors;
use crate::lsss::rows_view;
use crate::lsss::row_view;
use crate::lsss::combines_to_unit;
use crate::lsss::coefficient_map;
use crate::lsss::single_row_solvable;
use crate::lsss::lemma_policy_matrix_shape;
use crate::lsss::field_inverses;

verus! {

/// Unix time in seconds.
pub type Timestamp = u64;

/// An attribute valid from `valid_from` (inclusive) to `valid_until`
/// (exclusive).
#[derive(Clone, Debug, PartialEq, Eq)]
pub struct TimedAttribute {
    /// The attribute.
    pub name: String,
    /// Start of validity, inclusive.
    pub valid_from: Timestamp,
    /// End of validity, exclusive.
    pub valid_until: Timestamp,
}

impl TimedAttribute {
    /// Whether the attribute is valid at time `t`.
    pub open spec fn valid_at(self, t: Timestamp) -> bool {
        self.valid_from <= t && t < self.valid_until
    }

    /// An attribute valid over the given window.
    pub fn new(name: &str, valid_from: Timestamp, valid_until: Timestamp) -> (a: Self)
        ensures
            a.name@ == name@,
            a.valid_from == valid_from,
            a.valid_until == valid_until,
    {
        TimedAttribute { name: String::from_str(name), valid_from, valid_until }
    }

    /// An attribute valid from time 0 up to the largest timestamp.
    pub fn forever(name: &str) -> (a: Self)
        ensures
            a.name@ == name@,
            a.valid_from == 0,
            a.valid_until == u64::MAX,
    {
        TimedAttribute { name: String::from_str(name), valid_from: 0, valid_until: u64::MAX }
    }

    /// An attribute valid for `duration_secs` seconds from the current
    /// time; an end past the largest timestamp wraps around.
    pub fn valid_for(name: &str, duration_secs: u64) -> (a: Self)
        ensures
            a.name@ == name@,
            a.valid_until == vstd::wrapping::u64_specs::wrapping_add(a.valid_from, duration_secs),
    {
        let now = current_timestamp();
        TimedAttribute {
            name: String::from_str(name),
            valid_from: now,
            valid_until: now.wrapping_add(duration_secs),
        }
    }

    /// Whether the attribute is valid at `time`.
    pub fn is_valid_at(&self, time: Timestamp) -> (b: bool)
        ensures
            b == self.valid_at(time),
    {
        time >= self.valid_from && time < self.valid_until
    }

    /// Whether the attribute is valid now: the answer for whatever the
    /// clock reads.
    pub fn is_valid_now(&self) -> (b: bool)
        ensures
            exists|t: Timestamp| b == self.valid_at(t),
    {
        let now = current_timestamp();
        self.is_valid_at(now)
    }

    /// Moves the end of validity to `new_valid_until` if that is later; an
    /// earlier end leaves the attribute unchanged.
    pub fn extend(&mut self, new_valid_until: Timestamp)
        ensures
            final(self).name == old(self).name,
            final(self).valid_from == old(self).valid_from,
            final(self).valid_until == if new_valid_until > old(self).valid_until {
                new_valid_until
            } else {
                old(self).valid_until
            },
    {
        if new_valid_until > self.valid_until {
            self.valid_until = new_valid_until;
        }
    }
}

/// Extending never shortens validity: an attribute valid at `t` before an
/// extension is valid at `t` after it.
pub proof fn lemma_extend_keeps_validity(before: TimedAttribute, after: TimedAttribute, new_until: Timestamp, t: Timestamp)
    requires
        after.valid_from == before.valid_from,
        after.valid_until == if new_until > before.valid_until {
            new_until
        } else {
            before.valid_until
        },
        before.valid_at(t),
    ensures
        after.valid_at(t),
{
}

/// The key material for one attribute, with the attribute's validity
/// window. The key material is of any type `G`.
#[derive(Clone, Debug)]
pub struct AttributeKeyComponent<G> {
    /// The key material.
    pub key: G,
    /// Start of validity, inclusive.
    pub valid_from: Timestamp,
    /// End of validity, exclusive.
    pub valid_until: Timestamp,
}

impl<G> AttributeKeyComponent<G> {
    /// Whether the component is valid at time `t`.
    pub open spec fn valid_at(self, t: Timestamp) -> bool {
        self.valid_from <= t && t < self.valid_until
    }

    /// Whether the component is valid at `time`.
    pub fn is_valid_at(&self, time: Timestamp) -> (b: bool)
        ensures
            b == self.valid_at(time),
    {
        time >= self.valid_from && time < self.valid_until
    }
}

/// A key with expiring attributes: the user, the key's group elements `k`
/// and `l` (of any type `K`), a component for each attribute under its
/// name, and the time of issue.
#[derive(Clone, Debug)]
pub struct SecretKey<K, G> {
    /// The user the key is for.
    pub user_id: String,
    /// The key's first group element.
    pub k: K,
    /// The key's second group element.
    pub l: K,
    /// The components, each under its attribute's name.
    pub attributes: Vec<(String, AttributeKeyComponent<G>)>,
    /// When the key was issued.
    pub issued_at: Timestamp,
}

/// The index of the first entry named `name`, or -1 if there is none.
pub open spec fn first_index<V>(entries: Seq<(String, V)>, name: Seq<char>) -> int
    decreases entries.len(),
{
    if entries.len() == 0 {
        -1
    } else {
        let i = first_index(entries.drop_last(), name);
        if i >= 0 {
            i
        } else if entries.last().0@ == name {
            entries.len() - 1
        } else {
            -1
        }
    }
}

/// The value of the first entry named `name`.
pub open spec fn entry_for<V>(entries: Seq<(String, V)>, name: Seq<char>) -> Option<V> {
    let i = first_index(entries, name);
    if i >= 0 {
        Some(entries[i].1)
    } else {
        None
    }
}

/// The names of the attributes valid at `t`, in the key's order.
pub open spec fn valid_names<G>(entries: Seq<(String, AttributeKeyComponent<G>)>, t: Timestamp) -> Seq<Seq<char>> {
    entries.filter(|e: (String, AttributeKeyComponent<G>)| e.1.valid_at(t)).map_values(|e: (String, AttributeKeyComponent<G>)| e.0@)
}

/// The first index is within range, names its entry, and no earlier entry
/// has the name.
proof fn lemma_first_index<V>(entries: Seq<(String, V)>, name: Seq<char>)
    ensures
        -1 <= first_index(entries, name) < entries.len(),
        first_index(entries, name) >= 0 ==> entries[first_index(entries, name)].0@ == name,
        forall|j: int| 0 <= j < entries.len() && (first_index(entries, name) < 0 || j < first_index(entries, name)) ==> (#[trigger] entries[j]).0@ != name,
    decreases entries.len(),
{
    if entries.len() > 0 {
        lemma_first_index(entries.drop_last(), name);
        assert forall|j: int| 0 <= j < entries.len() - 1 implies #[trigger] entries[j] == entries.drop_last()[j] by {}
    }
}

/// The first index depends only on the names, in order.
proof fn lemma_first_index_names<V>(a: Seq<(String, V)>, b: Seq<(String, V)>, name: Seq<char>)
    requires
        a.len() == b.len(),
        forall|j: int| 0 <= j < a.len() ==> (#[trigger] a[j]).0@ == b[j].0@,
    ensures
        first_index(a, name) == first_index(b, name),
    decreases a.len(),
{
    if a.len() > 0 {
        lemma_first_index_names(a.drop_last(), b.drop_last(), name);
    }
}

/// The index of the first entry named `name`, if there is one.
fn find_entry<V>(entries: &Vec<(String, V)>, name: &str) -> (r: Option<usize>)
    ensures
        match r {
            Some(i) => i == first_index(entries@, name@),
            None => first_index(entries@, name@) == -1,
        },
{
    let mut i: usize = 0;
    assert(entries@.take(0) =~= Seq::<(String, V)>::empty());
    while i < entries.len()
        invariant
            i <= entries@.len(),
            first_index(entries@.take(i as int), name@) == -1,
        decreases entries@.len() - i,
    {
        proof {
            assert(entries@.take(i + 1).drop_last() =~= entries@.take(i as int));
        }
        if str_eq(entries[i].0.as_str(), name) {
            proof {
                lemma_first_index_prefix(entries@, (i + 1) as nat, name@);
            }
            return Some(i);
        }
        i = i + 1;
    }
    assert(entries@.take(i as int) =~= entries@);
    None
}

/// Once a prefix holds an entry named `name`, the whole sequence has its
/// first one at the same place.
proof fn lemma_first_index_prefix<V>(entries: Seq<(String, V)>, n: nat, name: Seq<char>)
    requires
        n <= entries.len(),
        first_index(entries.take(n as int), name) >= 0,
    ensures
        first_index(entries, name) == first_index(entries.take(n as int), name),
    decreases entries.len() - n,
{
    if n < entries.len() {
        assert(entries.take((n + 1) as int).drop_last() =~= entries.take(n as int));
        lemma_first_index_prefix(entries, n + 1, name);
    } else {
        assert(entries.take(n as int) =~= entries);
    }
}

impl<K, G> SecretKey<K, G> {
    /// The names of the attributes valid at `time`, in the key's order.
    pub fn valid_attributes_at(&self, time: Timestamp) -> (r: Vec<String>)
        ensures
            r@.map_values(|s: String| s@) == valid_names(self.attributes@, time),
    {
        let ghost entries = self.attributes@;
        let ghost pred = |e: (String, AttributeKeyComponent<G>)| e.1.valid_at(time);
        let mut r: Vec<String> = Vec::new();
        let mut i: usize = 0;
        assert(entries.take(0) =~= Seq::<(String, AttributeKeyComponent<G>)>::empty());
        while i < self.attributes.len()
            invariant
                entries == self.attributes@,
                i <= entries.len(),
                pred == (|e: (String, AttributeKeyComponent<G>)| e.1.valid_at(time)),
                r@.map_values(|s: String| s@) == entries.take(i as int).filter(pred).map_values(|e: (String, AttributeKeyComponent<G>)| e.0@),
            decreases entries.len() - i,
        {
            let ghost before = r@;
            proof {
                assert(entries.take(i + 1) =~= entries.take(i as int).push(entries[i as int]));
                entries.take(i as int).lemma_filter_push(entries[i as int], pred);
            }
            if self.attributes[i].1.is_valid_at(time) {
                r.push(string_of(self.attributes[i].0.as_str()));
                assert(r@.map_values(|s: String| s@) =~= before.map_values(|s: String| s@).push(entries[i as int].0@));
                assert(entries.take(i as int).filter(pred).push(entries[i as int]).map_values(|e: (String, AttributeKeyComponent<G>)| e.0@) =~= entries.take(i as int).filter(pred).map_values(|e: (String, AttributeKeyComponent<G>)| e.0@).push(entries[i as int].0@));
            }
            i = i + 1;
        }
        assert(entries.take(i as int) =~= entries);
        r
    }

    /// The names of the attributes valid now: those valid at whatever time
    /// the clock reads.
    pub fn valid_attributes_now(&self) -> (r: Vec<String>)
        ensures
            exists|t: Timestamp| r@.map_values(|s: String| s@) == valid_names(self.attributes@, t),
    {
        self.valid_attributes_at(current_timestamp())
    }

    /// Whether the key holds `attr` and its component is valid at `time`.
    pub fn is_attribute_valid(&self, attr: &str, time: Timestamp) -> (b: bool)
        ensures
            b == (entry_for(self.attributes@, attr@) matches Some(c) && c.valid_at(time)),
    {
        let found = find_entry(&self.attributes, attr);
        proof {
            lemma_first_index(self.attributes@, attr@);
        }
        match found {
            Some(i) => self.attributes[i].1.is_valid_at(time),
            None => false,
        }
    }

    /// The earliest end of validity among the key's attributes, or `None`
    /// for a key without attributes.
    pub fn earliest_expiration(&self) -> (r: Option<Timestamp>)
        ensures
            r is None <==> self.attributes@.len() == 0,
            r matches Some(m) ==> (exists|j: int| 0 <= j < self.attributes@.len() && (#[trigger] self.attributes@[j]).1.valid_until == m)
                && forall|j: int| 0 <= j < self.attributes@.len() ==> m <= (#[trigger] self.attributes@[j]).1.valid_until,
    {
        if self.attributes.len() == 0 {
            return None;
        }
        let mut m = self.attributes[0].1.valid_until;
        let mut i: usize = 1;
        while i < self.attributes.len()
            invariant
                1 <= i <= self.attributes@.len(),
                exists|j: int| 0 <= j < i && (#[trigger] self.attributes@[j]).1.valid_until == m,
                forall|j: int| 0 <= j < i ==> m <= (#[trigger] self.attributes@[j]).1.valid_until,
            decreases self.attributes@.len() - i,
        {
            if self.attributes[i].1.valid_until < m {
                m = self.attributes[i].1.valid_until;
            }
            i = i + 1;
        }
        Some(m)
    }
}

/// The windows of timed attributes, by name.
pub open spec fn timed_view(attrs: Seq<TimedAttribute>) -> Seq<(Seq<char>, u64, u64)> {
    attrs.map_values(|a: TimedAttribute| (a.name@, a.valid_from, a.valid_until))
}

/// The windows of a key's components, by attribute.
pub open spec fn table_view<G>(entries: Seq<(String, AttributeKeyComponent<G>)>) -> Seq<(Seq<char>, u64, u64)> {
    entries.map_values(|e: (String, AttributeKeyComponent<G>)| (e.0@, e.1.valid_from, e.1.valid_until))
}

/// The index of the first row named `name`, or -1 if there is none.
pub open spec fn table_index(t: Seq<(Seq<char>, u64, u64)>, name: Seq<char>) -> int
    decreases t.len(),
{
    if t.len() == 0 {
        -1
    } else {
        let i = table_index(t.drop_last(), name);
        if i >= 0 {
            i
        } else if t.last().0 == name {
            t.len() - 1
        } else {
            -1
        }
    }
}

/// The attribute table of a key made from the given windows: each name
/// once, in the order first given, with the window of its last
/// occurrence, as in a table where a later entry replaces an earlier one.
pub open spec fn attribute_table(ws: Seq<(Seq<char>, u64, u64)>) -> Seq<(Seq<char>, u64, u64)>
    decreases ws.len(),
{
    if ws.len() == 0 {
        Seq::empty()
    } else {
        let t = attribute_table(ws.drop_last());
        let i = table_index(t, ws.last().0);
        if i >= 0 {
            t.update(i, ws.last())
        } else {
            t.push(ws.last())
        }
    }
}

/// Looking a name up among a key's components is looking it up among their
/// windows.
proof fn lemma_first_index_table<G>(entries: Seq<(String, AttributeKeyComponent<G>)>, name: Seq<char>)
    ensures
        first_index(entries, name) == table_index(table_view(entries), name),
    decreases entries.len(),
{
    if entries.len() > 0 {
        lemma_first_index_table(entries.drop_last(), name);
        assert(table_view(entries).drop_last() =~= table_view(entries.drop_last()));
    }
}

/// Builds a key for `user_id` from its group elements `k` and `l` and its
/// timed attributes, the key material of each made by `component`; an
/// attribute given twice keeps its first place and takes the later window
/// and material. The key is stamped with the current time.
pub fn keygen<K, G, F: Fn(&TimedAttribute) -> G>(
    k: K,
    l: K,
    user_id: &str,
    timed_attributes: &[TimedAttribute],
    component: F,
) -> (r: Result<SecretKey<K, G>, AbeError>)
    requires
        forall|a: &TimedAttribute| component.requires((a,)),
    ensures
        r matches Ok(sk) && sk.user_id@ == user_id@ && sk.k == k && sk.l == l && table_view(sk.attributes@)
            == attribute_table(timed_view(timed_attributes@)) && forall|j: int|
            0 <= j < sk.attributes@.len() ==> exists|a: TimedAttribute|
                a.name@ == (#[trigger] sk.attributes@[j]).0@ && component.ensures((&a,), sk.attributes@[j].1.key),
{
    let ghost ws = timed_view(timed_attributes@);
    let mut attributes: Vec<(String, AttributeKeyComponent<G>)> = Vec::new();
    let mut i: usize = 0;
    assert(ws.take(0) =~= Seq::<(Seq<char>, u64, u64)>::empty());
    while i < timed_attributes.len()
        invariant
            ws == timed_view(timed_attributes@),
            i <= timed_attributes@.len(),
            forall|a: &TimedAttribute| component.requires((a,)),
            table_view(attributes@) == attribute_table(ws.take(i as int)),
            forall|j: int|
                0 <= j < attributes@.len() ==> exists|a: TimedAttribute|
                    a.name@ == (#[trigger] attributes@[j]).0@ && component.ensures((&a,), attributes@[j].1.key),
        decreases timed_attributes@.len() - i,
    {
        let attr = &timed_attributes[i];
        let key = component(attr);
        let entry = (
            String::from_str(attr.name.as_str()),
            AttributeKeyComponent { key, valid_from: attr.valid_from, valid_until: attr.valid_until },
        );
        let ghost before = attributes@;
        let ghost t = table_view(before);
        proof {
            assert(ws.take(i + 1).drop_last() =~= ws.take(i as int));
            assert(ws.take(i + 1).last() == ws[i as int]);
            lemma_first_index_table(before, attr.name@);
        }
        match find_entry(&attributes, attr.name.as_str()) {
            Some(idx) => {
                proof {
                    lemma_first_index(before, attr.name@);
                }
                let _ = attributes.remove(idx);
                attributes.insert(idx, entry);
                proof {
                    assert(table_view(attributes@) =~= t.update(idx as int, ws[i as int]));
                    assert forall|j: int| 0 <= j < attributes@.len() implies exists|a: TimedAttribute|
                        a.name@ == (#[trigger] attributes@[j]).0@ && component.ensures((&a,), attributes@[j].1.key) by {
                        if j != idx {
                            assert(attributes@[j] == before[j]);
                        } else {
                            assert(attributes@[j].1.key == key);
                            assert(component.ensures((attr,), key));
                        }
                    }
                }
            },
            None => {
                attributes.push(entry);
                proof {
                    assert(table_view(attributes@) =~= t.push(ws[i as int]));
                    assert forall|j: int| 0 <= j < attributes@.len() implies exists|a: TimedAttribute|
                        a.name@ == (#[trigger] attributes@[j]).0@ && component.ensures((&a,), attributes@[j].1.key) by {
                        if j < before.len() {
                            assert(attributes@[j] == before[j]);
                        } else {
                            assert(attributes@[j].1.key == key);
                            assert(component.ensures((attr,), key));
                        }
                    }
                }
            },
        }
        i = i + 1;
    }
    assert(ws.take(i as int) =~= ws);
    Ok(SecretKey { user_id: String::from_str(user_id), k, l, attributes, issued_at: current_timestamp() })
}

/// Builds a key whose attributes are all valid forever, from time 0 to the
/// largest timestamp.
pub fn keygen_simple<K, G, F: Fn(&TimedAttribute) -> G>(
    k: K,
    l: K,
    user_id: &str,
    attributes: &[&str],
    component: F,
) -> (r: Result<SecretKey<K, G>, AbeError>)
    requires
        forall|a: &TimedAttribute| component.requires((a,)),
    ensures
        r matches Ok(sk) && sk.user_id@ == user_id@ && sk.k == k && sk.l == l && table_view(sk.attributes@)
            == attribute_table(attributes@.map_values(|n: &str| (n@, 0u64, u64::MAX))),
{
    let mut timed: Vec<TimedAttribute> = Vec::new();
    let mut i: usize = 0;
    while i < attributes.len()
        invariant
            i <= attributes@.len(),
            timed@.len() == i,
            forall|j: int| 0 <= j < i ==> (#[trigger] timed_view(timed@)[j]) == (attributes@[j]@, 0u64, u64::MAX),
        decreases attributes@.len() - i,
    {
        let ghost before = timed@;
        let a = TimedAttribute::forever(attributes[i]);
        timed.push(a);
        proof {
            assert forall|j: int| 0 <= j < i + 1 implies (#[trigger] timed_view(timed@)[j]) == (attributes@[j]@, 0u64, u64::MAX) by {
                if j < i {
                    assert(timed@[j] == before[j]);
                    assert(timed_view(before)[j] == (attributes@[j]@, 0u64, u64::MAX));
                }
            }
        }
        i = i + 1;
    }
    assert(timed_view(timed@) =~= attributes@.map_values(|n: &str| (n@, 0u64, u64::MAX)));
    keygen(k, l, user_id, timed.as_slice(), component)
}

/// Whether `r` is the error for an attribute the key does not hold.
pub open spec fn missing_attribute_error(r: Result<(), AbeError>, attr: Seq<char>) -> bool {
    r matches Err(AbeError::InvalidAttribute(m)) && m@ == "Attribute "@ + attr + " not found"@
}

/// Renews `attribute` in the key: its end of validity moves to
/// `new_valid_until` if that is later. A key without the attribute is
/// refused and left as it was.
pub fn apply_renewal<K, G>(sk: &mut SecretKey<K, G>, attribute: &str, new_valid_until: Timestamp) -> (r: Result<(), AbeError>)
    ensures
        final(sk).user_id == old(sk).user_id,
        final(sk).k == old(sk).k,
        final(sk).l == old(sk).l,
        final(sk).issued_at == old(sk).issued_at,
        first_index(old(sk).attributes@, attribute@) == -1 ==> missing_attribute_error(r, attribute@)
            && final(sk).attributes@ == old(sk).attributes@,
        first_index(old(sk).attributes@, attribute@) >= 0 ==> r is Ok && ({
            let i = first_index(old(sk).attributes@, attribute@);
            let c = old(sk).attributes@[i].1;
            &&& final(sk).attributes@.len() == old(sk).attributes@.len()
            &&& forall|j: int| 0 <= j < old(sk).attributes@.len() && j != i ==> (#[trigger] final(sk).attributes@[j]) == old(sk).attributes@[j]
            &&& final(sk).attributes@[i].0 == old(sk).attributes@[i].0
            &&& final(sk).attributes@[i].1.key == c.key
            &&& final(sk).attributes@[i].1.valid_from == c.valid_from
            &&& final(sk).attributes@[i].1.valid_until == if new_valid_until > c.valid_until {
                new_valid_until
            } else {
                c.valid_until
            }
        }),
{
    let found = find_entry(&sk.attributes, attribute);
    proof {
        lemma_first_index(sk.attributes@, attribute@);
    }
    match found {
        None => {
            let mut m = String::from_str("Attribute ");
            m.append(attribute);
            m.append(" not found");
            Err(AbeError::InvalidAttribute(m))
        },
        Some(i) => {
            let (name, mut comp) = sk.attributes.remove(i);
            if new_valid_until > comp.valid_until {
                comp.valid_until = new_valid_until;
            }
            sk.attributes.insert(i, (name, comp));
            assert(forall|j: int| 0 <= j < old(sk).attributes@.len() && j != i ==> sk.attributes@[j] == old(sk).attributes@[j]);
            Ok(())
        },
    }
}

/// Renewing keeps every attribute's name and place, and an attribute valid
/// at `t` before a renewal is valid at `t` after it.
pub proof fn lemma_renewal_keeps_validity<G>(
    before: Seq<(String, AttributeKeyComponent<G>)>,
    after: Seq<(String, AttributeKeyComponent<G>)>,
    attribute: Seq<char>,
    new_valid_until: Timestamp,
    name: Seq<char>,
    t: Timestamp,
)
    requires
        first_index(before, attribute) >= 0,
        ({
            let i = first_index(before, attribute);
            let c = before[i].1;
            &&& after.len() == before.len()
            &&& forall|j: int| 0 <= j < before.len() && j != i ==> (#[trigger] after[j]) == before[j]
            &&& after[i].0 == before[i].0
            &&& after[i].1.valid_from == c.valid_from
            &&& after[i].1.valid_until == if new_valid_until > c.valid_until {
                new_valid_until
            } else {
                c.valid_until
            }
        }),
        entry_for(before, name) matches Some(c) && c.valid_at(t),
    ensures
        entry_for(after, name) matches Some(c) && c.valid_at(t),
        first_index(after, name) == first_index(before, name),
{
    lemma_first_index_names(before, after, name);
    lemma_first_index(before, name);
}


/// The matrix of a well-formed policy, with its rows of uniform width.
fn policy_lsss(policy: &PolicyNode) -> (m: LsssMatrix)
    requires
        policy@.well_formed(),
    ensures
        m.num_cols == policy_width(policy@),
        m.num_cols >= 1,
        rows_view(m.rows@) == policy_matrix(policy@),
        forall|k: int| 0 <= k < m.rows@.len() ==> (#[trigger] m.rows@[k]).vector@.len() == m.num_cols,
{
    let m = LsssMatrix::from_policy(policy);
    proof {
        lemma_policy_matrix_shape(policy@);
        assert forall|k: int| 0 <= k < m.rows@.len() implies (#[trigger] m.rows@[k]).vector@.len() == m.num_cols by {
            assert(rows_view(m.rows@)[k] == row_view(m.rows@[k]));
            assert(policy_matrix(policy@)[k].1.len() == policy_width(policy@));
        }
    }
    m
}

/// Whether a key can decrypt a ciphertext made under `policy` for
/// `required_time`: some attributes must be valid then, and coefficients
/// must be found that combine the rows of those attributes into the unit
/// vector.
pub fn can_decrypt<K, G>(sk: &SecretKey<K, G>, policy: &PolicyNode, required_time: Timestamp) -> (b: bool)
    requires
        policy@.well_formed(),
    ensures
        ({
            let valid = valid_names(sk.attributes@, required_time);
            let sat = satisfied_rows(policy_matrix(policy@), valid);
            &&& (b ==> valid.len() > 0 && exists|cs: Seq<int>| combines_to_unit(cs, row_vectors(sat), policy_width(policy@)))
            &&& (sat.len() == 0 ==> !b)
            &&& (sat.len() == 1 ==> (b <==> single_row_solvable(sat[0].1)))
            &&& (field_inverses() && sat.len() >= 2 ==> (b <==> exists|cs: Seq<int>| combines_to_unit(cs, row_vectors(sat), policy_width(policy@))))
        }),
{
    let valid = sk.valid_attributes_at(required_time);
    proof {
        assert(attrs_view(valid@) =~= valid@.map_values(|s: String| s@));
    }
    if valid.len() == 0 {
        proof {
            assert(valid_names(sk.attributes@, required_time) =~= Seq::<Seq<char>>::empty());
            lemma_no_rows_selected(policy_matrix(policy@));
        }
        return false;
    }
    let lsss = policy_lsss(policy);
    lsss.recover_coefficients(valid.as_slice()).is_ok()
}

/// No row is selected by an empty list of attributes.
proof fn lemma_no_rows_selected(rows: Seq<(Seq<char>, Seq<int>)>)
    ensures
        satisfied_rows(rows, Seq::empty()).len() == 0,
    decreases rows.len(),
{
    if rows.len() > 0 {
        lemma_no_rows_selected(rows.drop_last());
    }
}

/// The decisions of decryption for a ciphertext made under `policy` for
/// `required_time` with components for `ct_attributes`: some attributes of
/// the key must be valid then; coefficients must be found for the rows of
/// those attributes; and the ciphertext needs a component for each
/// attribute with a coefficient. The coefficients are returned.
pub fn decryption_coefficients<K, G>(
    sk: &SecretKey<K, G>,
    policy: &PolicyNode,
    required_time: Timestamp,
    ct_attributes: &[String],
) -> (r: Result<Coefficients, AbeError>)
    requires
        policy@.well_formed(),
    ensures
        ({
            let valid = valid_names(sk.attributes@, required_time);
            let sat = satisfied_rows(policy_matrix(policy@), valid);
            &&& (valid.len() == 0 ==> (r matches Err(AbeError::DecryptError(m)) && m@ == "No attributes valid at time "@ + decimal(required_time as nat)))
            &&& (valid.len() > 0 && sat.len() == 0 ==> (r matches Err(AbeError::PolicyNotSatisfied)))
            &&& (valid.len() > 0 && sat.len() == 1 && !single_row_solvable(sat[0].1) ==> (r matches Err(AbeError::PolicyNotSatisfied)))
            &&& (field_inverses() && sat.len() >= 2 ==> ((r matches Err(AbeError::PolicyNotSatisfied)) <==> !exists|cs: Seq<int>| combines_to_unit(cs, row_vectors(sat), policy_width(policy@))))
            &&& (valid.len() > 0 ==> (r matches Err(AbeError::DecryptError(m)) ==> m@ == "Missing ciphertext component"@ && exists|cs: Seq<int>| {
                &&& combines_to_unit(cs, row_vectors(sat), policy_width(policy@))
                &&& exists|a: Seq<char>| #[trigger] coefficient_map(sat, cs).contains_key(a) && !attrs_view(ct_attributes@).contains(a)
            }))
            &&& r matches Ok(c) ==> exists|cs: Seq<int>| {
                &&& combines_to_unit(cs, row_vectors(sat), policy_width(policy@))
                &&& c@ == coefficient_map(sat, cs)
                &&& forall|a: Seq<char>| #[trigger] c@.contains_key(a) ==> attrs_view(ct_attributes@).contains(a)
            }
        }),
{
    let valid = sk.valid_attributes_at(required_time);
    proof {
        assert(attrs_view(valid@) =~= valid@.map_values(|s: String| s@));
    }
    if valid.len() == 0 {
        proof {
            assert(valid_names(sk.attributes@, required_time) =~= Seq::<Seq<char>>::empty());
            lemma_no_rows_selected(policy_matrix(policy@));
        }
        let mut m = String::from_str("No attributes valid at time ");
        push_decimal(&mut m, required_time);
        return Err(AbeError::DecryptError(m));
    }
    let lsss = policy_lsss(policy);
    let coeffs = match lsss.recover_coefficients(valid.as_slice()) {
        Ok(c) => c,
        Err(_) => {
            return Err(AbeError::PolicyNotSatisfied);
        },
    };
    let keys = coeffs.keys();
    let mut missing = false;
    let mut at: usize = 0;
    let mut i: usize = 0;
    while i < keys.len()
        invariant
            i <= keys@.len(),
            missing ==> at < keys@.len() && !attrs_view(ct_attributes@).contains(keys@[at as int]@),
            !missing ==> forall|j: int| 0 <= j < i ==> attrs_view(ct_attributes@).contains(#[trigger] attrs_view(keys@)[j]),
        decreases keys@.len() - i,
    {
        if !missing && !contains_attr(ct_attributes, keys[i].as_str()) {
            missing = true;
            at = i;
        }
        i = i + 1;
    }
    if missing {
        proof {
            assert(attrs_view(keys@)[at as int] == keys@[at as int]@);
            assert(attrs_view(keys@).to_set().contains(keys@[at as int]@));
            assert(coeffs@.contains_key(keys@[at as int]@));
            let sat = lsss.satisfied_by(attrs_view(valid@));
            let cs = choose|cs: Seq<int>| combines_to_unit(cs, row_vectors(sat), lsss.num_cols as nat) && coeffs@ == coefficient_map(sat, cs);
            assert(coefficient_map(sat, cs).contains_key(keys@[at as int]@));
        }
        return Err(AbeError::DecryptError(String::from_str("Missing ciphertext component")));
    }
    proof {
        assert forall|a: Seq<char>| #[trigger] coeffs@.contains_key(a) implies attrs_view(ct_attributes@).contains(a) by {
            assert(attrs_view(keys@).to_set().contains(a));
            let j = choose|j: int| 0 <= j < attrs_view(keys@).len() && attrs_view(keys@)[j] == a;
        }
    }
    Ok(coeffs)
}

} // verus!
