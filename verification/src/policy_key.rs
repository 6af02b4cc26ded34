//! A text that names a policy exactly, used to order the children of a
//! gate: their canonical text first, then their structure, so that
//! children with the same canonical text still come out in one order.

use vstd::prelude::*;
use crate::lsss::{Policy, PolicyNode, policy_views, lemma_views_take};
use crate::text::{
    escaped, push_escaped, push_char, push_decimal, decimal, lex_lt, lemma_escaped_parse,
    lemma_escaped_order, lemma_decimal_injective,
};

verus! {

/// The structure of a policy as text: a tag per node, names and
/// thresholds escaped, the children of a gate up to a closing bracket.
pub open spec fn structure_text(p: Policy) -> Seq<char>
    decreases p,
{
    match p {
        Policy::Attr(a) => seq!['a'] + escaped(a) + seq!['.'],
        Policy::And(cs) => seq!['&'] + structure_texts(cs) + seq![')'],
        Policy::Or(cs) => seq!['|'] + structure_texts(cs) + seq![')'],
        Policy::Threshold(k, cs) => seq!['t'] + escaped(decimal(k)) + seq!['.'] + structure_texts(cs)
            + seq![')'],
    }
}

/// The structure texts of a list of policies, one after another.
pub open spec fn structure_texts(cs: Seq<Policy>) -> Seq<char>
    decreases cs,
{
    if cs.len() == 0 {
        Seq::empty()
    } else {
        structure_texts(cs.drop_last()) + structure_text(cs.last())
    }
}

/// The key by which the children of a gate are ordered: the canonical
/// text, escaped, a zero character, then the structure text.
pub open spec fn policy_key(p: Policy) -> Seq<char> {
    escaped(p.canonical_string()) + seq!['\0'] + structure_text(p)
}

/// A structure text is never empty and never starts with a closing
/// bracket.
proof fn lemma_structure_text_start(p: Policy)
    ensures
        structure_text(p).len() > 0,
        structure_text(p)[0] != ')',
{
}

/// The structure texts of a non-empty list: that of its first element,
/// then those of the rest.
proof fn lemma_structure_texts_first(cs: Seq<Policy>)
    requires
        cs.len() > 0,
    ensures
        structure_texts(cs) == structure_text(cs[0]) + structure_texts(cs.drop_first()),
    decreases cs.len(),
{
    if cs.len() == 1 {
        assert(cs.drop_last() =~= Seq::<Policy>::empty());
        assert(cs.drop_first() =~= Seq::<Policy>::empty());
        assert(structure_texts(cs.drop_last()) =~= Seq::<char>::empty());
        assert(cs.last() == cs[0]);
        assert(structure_texts(cs) =~= structure_text(cs[0]));
        assert(structure_texts(cs.drop_first()) =~= Seq::<char>::empty());
    } else {
        let d = cs.drop_last();
        lemma_structure_texts_first(d);
        assert(d.drop_first() =~= cs.drop_first().drop_last());
        assert(cs.drop_first().last() == cs.last());
        assert(structure_texts(cs) =~= structure_text(cs[0]) + structure_texts(cs.drop_first()));
    }
}

/// A structure text is read back from the front: what it names and what
/// follows it are determined.
proof fn lemma_structure_parse(p: Policy, q: Policy, r1: Seq<char>, r2: Seq<char>)
    requires
        structure_text(p) + r1 == structure_text(q) + r2,
    ensures
        p == q,
        r1 == r2,
    decreases p,
{
    let l = structure_text(p) + r1;
    let r = structure_text(q) + r2;
    assert(l[0] == structure_text(p)[0]);
    assert(r[0] == structure_text(q)[0]);
    match p {
        Policy::Attr(x) => {
            if let Policy::Attr(y) = q {
                assert(l.drop_first() =~= escaped(x) + seq!['.'] + r1);
                assert(r.drop_first() =~= escaped(y) + seq!['.'] + r2);
                lemma_escaped_parse(x, y, '.', r1, r2);
            }
        },
        Policy::And(a) => {
            if let Policy::And(b) = q {
                assert(l.drop_first() =~= structure_texts(a) + seq![')'] + r1);
                assert(r.drop_first() =~= structure_texts(b) + seq![')'] + r2);
                lemma_structure_texts_parse(a, b, r1, r2);
            }
        },
        Policy::Or(a) => {
            if let Policy::Or(b) = q {
                assert(l.drop_first() =~= structure_texts(a) + seq![')'] + r1);
                assert(r.drop_first() =~= structure_texts(b) + seq![')'] + r2);
                lemma_structure_texts_parse(a, b, r1, r2);
            }
        },
        Policy::Threshold(k, a) => {
            if let Policy::Threshold(j, b) = q {
                let ra = structure_texts(a) + seq![')'] + r1;
                let rb = structure_texts(b) + seq![')'] + r2;
                assert(l.drop_first() =~= escaped(decimal(k)) + seq!['.'] + ra);
                assert(r.drop_first() =~= escaped(decimal(j)) + seq!['.'] + rb);
                lemma_escaped_parse(decimal(k), decimal(j), '.', ra, rb);
                lemma_decimal_injective(k, j);
                lemma_structure_texts_parse(a, b, r1, r2);
            }
        },
    }
}

/// The structure texts of a list followed by a closing bracket are read
/// back: the lists and what follows agree.
proof fn lemma_structure_texts_parse(a: Seq<Policy>, b: Seq<Policy>, r1: Seq<char>, r2: Seq<char>)
    requires
        structure_texts(a) + seq![')'] + r1 == structure_texts(b) + seq![')'] + r2,
    ensures
        a == b,
        r1 == r2,
    decreases a,
{
    let l = structure_texts(a) + seq![')'] + r1;
    let r = structure_texts(b) + seq![')'] + r2;
    if a.len() == 0 && b.len() == 0 {
        assert(l.drop_first() =~= r1);
        assert(r.drop_first() =~= r2);
        assert(a =~= b);
    } else if a.len() == 0 {
        lemma_structure_texts_first(b);
        lemma_structure_text_start(b[0]);
        assert(l[0] == ')');
        assert(r[0] == structure_text(b[0])[0]);
    } else if b.len() == 0 {
        lemma_structure_texts_first(a);
        lemma_structure_text_start(a[0]);
        assert(r[0] == ')');
        assert(l[0] == structure_text(a[0])[0]);
    } else {
        lemma_structure_texts_first(a);
        lemma_structure_texts_first(b);
        let ra = structure_texts(a.drop_first()) + seq![')'] + r1;
        let rb = structure_texts(b.drop_first()) + seq![')'] + r2;
        assert(l =~= structure_text(a[0]) + ra);
        assert(r =~= structure_text(b[0]) + rb);
        lemma_structure_parse(a[0], b[0], ra, rb);
        assert(decreases_to!(a => a.drop_first()));
        lemma_structure_texts_parse(a.drop_first(), b.drop_first(), r1, r2);
        assert(a =~= seq![a[0]] + a.drop_first());
        assert(b =~= seq![b[0]] + b.drop_first());
    }
}

/// Policies with the same key are the same policy.
pub proof fn lemma_policy_key_injective(p: Policy, q: Policy)
    requires
        policy_key(p) == policy_key(q),
    ensures
        p == q,
{
    lemma_escaped_parse(p.canonical_string(), q.canonical_string(), '\0', structure_text(p), structure_text(q));
    assert(structure_text(p) + Seq::<char>::empty() =~= structure_text(q) + Seq::<char>::empty());
    lemma_structure_parse(p, q, Seq::empty(), Seq::empty());
}

/// Policies with different canonical texts are ordered by key as by
/// canonical text.
pub proof fn lemma_policy_key_order(p: Policy, q: Policy)
    requires
        p.canonical_string() != q.canonical_string(),
    ensures
        lex_lt(policy_key(p), policy_key(q)) == lex_lt(p.canonical_string(), q.canonical_string()),
{
    let xs = seq!['\0'] + structure_text(p);
    let ys = seq!['\0'] + structure_text(q);
    assert(policy_key(p) =~= escaped(p.canonical_string()) + xs);
    assert(policy_key(q) =~= escaped(q.canonical_string()) + ys);
    lemma_escaped_order(p.canonical_string(), q.canonical_string(), xs, ys);
}

/// Appends the structure text of `p` to `s`.
fn push_structure(s: &mut String, p: &PolicyNode)
    ensures
        final(s)@ == old(s)@ + structure_text(p@),
    decreases p,
{
    match p {
        PolicyNode::Attr(a) => {
            push_char(s, 'a');
            push_escaped(s, a.as_str());
            push_char(s, '.');
            assert(s@ =~= old(s)@ + structure_text(p@));
        },
        PolicyNode::And(cs) => {
            push_char(s, '&');
            push_children_structure(s, cs);
            push_char(s, ')');
            assert(s@ =~= old(s)@ + structure_text(p@));
        },
        PolicyNode::Or(cs) => {
            push_char(s, '|');
            push_children_structure(s, cs);
            push_char(s, ')');
            assert(s@ =~= old(s)@ + structure_text(p@));
        },
        PolicyNode::Threshold(k, cs) => {
            push_char(s, 't');
            let mut d = String::new();
            push_decimal(&mut d, *k as u64);
            push_escaped(s, d.as_str());
            push_char(s, '.');
            push_children_structure(s, cs);
            push_char(s, ')');
            assert(s@ =~= old(s)@ + structure_text(p@));
        },
    }
}

/// Appends the structure texts of the children to `s`.
fn push_children_structure(s: &mut String, cs: &Vec<PolicyNode>)
    ensures
        final(s)@ == old(s)@ + structure_texts(policy_views(cs@)),
    decreases cs,
{
    let mut i: usize = 0;
    while i < cs.len()
        invariant
            i <= cs.len(),
            s@ == old(s)@ + structure_texts(policy_views(cs@.take(i as int))),
        decreases cs.len() - i,
    {
        let ghost before = s@;
        push_structure(s, &cs[i]);
        proof {
            lemma_views_take(cs@, i as int);
            let v = policy_views(cs@.take(i as int)).push(cs@[i as int]@);
            assert(v.drop_last() =~= policy_views(cs@.take(i as int)));
            assert(s@ =~= old(s)@ + structure_texts(policy_views(cs@.take(i + 1))));
        }
        i = i + 1;
    }
    assert(cs@.take(cs.len() as int) =~= cs@);
}

/// The key of a policy, as a string.
pub(crate) fn policy_key_of(p: &PolicyNode) -> (k: String)
    ensures
        k@ == policy_key(p@),
{
    let t = p.to_canonical_string();
    let mut k = String::new();
    push_escaped(&mut k, t.as_str());
    push_char(&mut k, '\0');
    push_structure(&mut k, p);
    assert(k@ =~= policy_key(p@));
    k
}

} // verus!
