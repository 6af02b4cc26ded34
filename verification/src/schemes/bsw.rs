//! Ciphertext-policy ABE in the style of Bethencourt, Sahai and Waters, for
//! policies that are ANDs of attributes written as a comma-separated list:
//! reading such a policy, the checks of key generation, encryption and
//! decryption, and the exponent of a key.

use vstd::prelude::*;
use crate::error::AbeError;
use crate::field::{Fr, modulus, inverse_candidate};
use crate::text::names;
use crate::text::push_char;
use crate::lsss::attrs_view;
use crate::lsss::contains_attr;

verus! {

/// Whether `c` has Unicode's White_Space property: U+0009 to U+000D,
/// U+0020, U+0085, U+00A0, U+1680, U+2000 to U+200A, U+2028, U+2029,
/// U+202F, U+205F and U+3000.
pub open spec fn is_white_space(c: char) -> bool {
    let u = c as u32;
    ||| 0x9 <= u <= 0xD
    ||| u == 0x20
    ||| u == 0x85
    ||| u == 0xA0
    ||| u == 0x1680
    ||| 0x2000 <= u <= 0x200A
    ||| u == 0x2028
    ||| u == 0x2029
    ||| u == 0x202F
    ||| u == 0x205F
    ||| u == 0x3000
}

/// Whether `c` is white space.
pub fn white_space(c: char) -> (b: bool)
    ensures
        b == is_white_space(c),
{
    let u = c as u32;
    (0x9 <= u && u <= 0xD) || u == 0x20 || u == 0x85 || u == 0xA0 || u == 0x1680 || (0x2000 <= u && u <= 0x200A)
        || u == 0x2028 || u == 0x2029 || u == 0x202F || u == 0x205F || u == 0x3000
}

/// The pieces of `s` between commas: one more than there are commas.
pub open spec fn comma_pieces(s: Seq<char>) -> Seq<Seq<char>>
    decreases s.len(),
{
    if s.len() == 0 {
        seq![Seq::empty()]
    } else {
        let ps = comma_pieces(s.drop_last());
        if s.last() == ',' {
            ps.push(Seq::empty())
        } else {
            ps.update(ps.len() - 1, ps.last().push(s.last()))
        }
    }
}

/// `s` without its leading white space.
pub open spec fn trim_front(s: Seq<char>) -> Seq<char>
    decreases s.len(),
{
    if s.len() > 0 && is_white_space(s[0]) {
        trim_front(s.drop_first())
    } else {
        s
    }
}

/// `s` without its trailing white space.
pub open spec fn trim_back(s: Seq<char>) -> Seq<char>
    decreases s.len(),
{
    if s.len() > 0 && is_white_space(s.last()) {
        trim_back(s.drop_last())
    } else {
        s
    }
}

/// `s` without white space at either end.
pub open spec fn trimmed(s: Seq<char>) -> Seq<char> {
    trim_back(trim_front(s))
}

/// The nonempty strings among `ps`, in order.
pub open spec fn nonempty(ps: Seq<Seq<char>>) -> Seq<Seq<char>>
    decreases ps.len(),
{
    if ps.len() == 0 {
        Seq::empty()
    } else {
        let before = nonempty(ps.drop_last());
        if ps.last().len() > 0 {
            before.push(ps.last())
        } else {
            before
        }
    }
}

/// The attributes of a policy written as a comma-separated list: the
/// pieces between commas, trimmed of white space, the empty ones left out.
pub open spec fn policy_attributes_of(policy: Seq<char>) -> Seq<Seq<char>> {
    nonempty(comma_pieces(policy).map_values(|p: Seq<char>| trimmed(p)))
}

/// The pieces of `s` between commas.
fn split_commas(s: &str) -> (r: Vec<String>)
    ensures
        names(r@) == comma_pieces(s@),
{
    let n = s.unicode_len();
    let mut done: Vec<String> = Vec::new();
    let mut cur = String::new();
    let mut i: usize = 0;
    proof {
        assert(s@.take(0) =~= Seq::<char>::empty());
        assert(names(done@) + seq![cur@] =~= seq![Seq::<char>::empty()]);
    }
    while i < n
        invariant
            n == s@.len(),
            i <= n,
            names(done@) + seq![cur@] == comma_pieces(s@.take(i as int)),
        decreases n - i,
    {
        let c = s.get_char(i);
        let ghost ps = comma_pieces(s@.take(i as int));
        proof {
            assert(s@.take(i + 1).drop_last() =~= s@.take(i as int));
            assert(s@.take(i + 1).last() == c);
        }
        if c == ',' {
            let ghost old_done = done@;
            let ghost old_cur = cur@;
            let piece = cur;
            done.push(piece);
            cur = String::new();
            proof {
                assert(names(done@) =~= names(old_done).push(old_cur));
                assert(names(done@) + seq![cur@] =~= ps.push(Seq::<char>::empty()));
            }
        } else {
            let ghost old_cur = cur@;
            push_char(&mut cur, c);
            proof {
                assert(ps.last() == old_cur);
                assert(names(done@) + seq![cur@] =~= ps.update(ps.len() - 1, ps.last().push(c)));
            }
        }
        i = i + 1;
    }
    proof {
        assert(s@.take(n as int) =~= s@);
    }
    let ghost old_done = done@;
    done.push(cur);
    proof {
        assert(names(done@) =~= names(old_done) + seq![cur@]);
    }
    done
}

/// `s` without white space at either end.
fn trim(s: &str) -> (r: String)
    ensures
        r@ == trimmed(s@),
{
    let n = s.unicode_len();
    let mut k: usize = 0;
    proof {
        assert(s@.skip(0) =~= s@);
    }
    while k < n && white_space(s.get_char(k))
        invariant
            n == s@.len(),
            k <= n,
            trim_front(s@) == trim_front(s@.skip(k as int)),
        decreases n - k,
    {
        proof {
            assert(s@.skip(k as int).drop_first() =~= s@.skip(k + 1));
            assert(s@.skip(k as int)[0] == s@[k as int]);
        }
        k = k + 1;
    }
    let ghost t = s@.skip(k as int);
    proof {
        if k < n {
            assert(t[0] == s@[k as int]);
        }
        assert(trim_front(s@) == t);
    }
    let mut e: usize = n - k;
    proof {
        assert(t.take(e as int) =~= t);
    }
    while e > 0 && white_space(s.get_char(k + e - 1))
        invariant
            n == s@.len(),
            k <= n,
            e <= n - k,
            t == s@.skip(k as int),
            trim_back(t) == trim_back(t.take(e as int)),
        decreases e,
    {
        proof {
            assert(t.take(e as int).drop_last() =~= t.take(e - 1));
            assert(t.take(e as int).last() == s@[k + e - 1]);
        }
        e = e - 1;
    }
    proof {
        if e > 0 {
            assert(t.take(e as int).last() == s@[k + e - 1]);
        }
        assert(trim_back(t) == t.take(e as int));
    }
    let mut r = String::new();
    let mut j: usize = 0;
    while j < e
        invariant
            n == s@.len(),
            k + e <= n,
            j <= e,
            t == s@.skip(k as int),
            r@ == t.take(j as int),
        decreases e - j,
    {
        let ghost before = r@;
        push_char(&mut r, s.get_char(k + j));
        proof {
            assert(t[j as int] == s@[k + j]);
            assert(r@ =~= t.take(j + 1));
        }
        j = j + 1;
    }
    r
}

/// The attributes of a policy written as a comma-separated list.
pub fn policy_attributes(policy: &str) -> (r: Vec<String>)
    ensures
        names(r@) == policy_attributes_of(policy@),
{
    let pieces = split_commas(policy);
    let ghost tp = names(pieces@).map_values(|p: Seq<char>| trimmed(p));
    let mut r: Vec<String> = Vec::new();
    let mut i: usize = 0;
    proof {
        assert(tp.take(0) =~= Seq::<Seq<char>>::empty());
        assert(names(r@) =~= Seq::<Seq<char>>::empty());
    }
    while i < pieces.len()
        invariant
            i <= pieces@.len(),
            tp == names(pieces@).map_values(|p: Seq<char>| trimmed(p)),
            names(r@) == nonempty(tp.take(i as int)),
        decreases pieces@.len() - i,
    {
        let t = trim(pieces[i].as_str());
        proof {
            assert(tp.take(i + 1).drop_last() =~= tp.take(i as int));
            assert(tp.take(i + 1).last() == t@);
        }
        if t.unicode_len() > 0 {
            let ghost before = r@;
            r.push(t);
            proof {
                assert(names(r@) =~= names(before).push(tp[i as int]));
            }
        }
        i = i + 1;
    }
    proof {
        assert(tp.take(pieces@.len() as int) =~= tp);
    }
    r
}

/// The check of key generation: a key needs at least one attribute.
pub fn check_keygen_attributes(attributes: &[String]) -> (r: Result<(), AbeError>)
    ensures
        attributes@.len() > 0 ==> r is Ok,
        attributes@.len() == 0 ==> (r matches Err(AbeError::KeygenError(m)) && m@ == "No attributes provided"@),
{
    if attributes.len() == 0 {
        return Err(AbeError::KeygenError(String::from_str("No attributes provided")));
    }
    Ok(())
}

/// The exponent of a key's main element, `(alpha + r) / beta`, refused
/// where `beta` has no inverse.
pub fn key_exponent(alpha: &Fr, beta: &Fr, r: &Fr) -> (e: Result<Fr, AbeError>)
    ensures
        (beta@ * inverse_candidate(beta@)) % modulus() == 1 ==> (e matches Ok(x) && x@ == (((alpha@ + r@) % modulus()) * inverse_candidate(beta@)) % modulus()),
        (beta@ * inverse_candidate(beta@)) % modulus() != 1 ==> (e matches Err(AbeError::KeygenError(m)) && m@ == "Beta has no inverse"@),
{
    let sum = alpha.add(r);
    match beta.inverse() {
        None => Err(AbeError::KeygenError(String::from_str("Beta has no inverse"))),
        Some(inv) => Ok(sum.mul(&inv)),
    }
}

/// The attributes a ciphertext is made for, read from its policy; a
/// policy without attributes is refused.
pub fn encryption_attributes(policy: &str) -> (r: Result<Vec<String>, AbeError>)
    ensures
        policy_attributes_of(policy@).len() == 0 ==> (r matches Err(AbeError::InvalidPolicy(m)) && m@ == "Empty policy"@),
        policy_attributes_of(policy@).len() > 0 ==> (r matches Ok(v) && names(v@) == policy_attributes_of(policy@)),
{
    let attrs = policy_attributes(policy);
    if attrs.len() == 0 {
        return Err(AbeError::InvalidPolicy(String::from_str("Empty policy")));
    }
    Ok(attrs)
}

/// The check of decryption: the key must hold every attribute of the
/// ciphertext's policy.
pub fn check_decryption_attributes(policy: &str, key_attributes: &[String]) -> (r: Result<(), AbeError>)
    ensures
        (forall|i: int| 0 <= i < policy_attributes_of(policy@).len() ==> attrs_view(key_attributes@).contains(#[trigger] policy_attributes_of(policy@)[i])) ==> r is Ok,
        !(forall|i: int| 0 <= i < policy_attributes_of(policy@).len() ==> attrs_view(key_attributes@).contains(#[trigger] policy_attributes_of(policy@)[i])) ==> (r matches Err(AbeError::PolicyNotSatisfied)),
{
    let attrs = policy_attributes(policy);
    let ghost pa = policy_attributes_of(policy@);
    let mut i: usize = 0;
    while i < attrs.len()
        invariant
            i <= attrs@.len(),
            names(attrs@) == pa,
            pa == policy_attributes_of(policy@),
            forall|j: int| 0 <= j < i ==> attrs_view(key_attributes@).contains(#[trigger] pa[j]),
        decreases attrs@.len() - i,
    {
        if !contains_attr(key_attributes, attrs[i].as_str()) {
            proof {
                assert(pa[i as int] == attrs@[i as int]@);
                assert(!attrs_view(key_attributes@).contains(policy_attributes_of(policy@)[i as int]));
            }
            return Err(AbeError::PolicyNotSatisfied);
        }
        proof {
            assert(pa[i as int] == attrs@[i as int]@);
        }
        i = i + 1;
    }
    Ok(())
}

} // verus!
