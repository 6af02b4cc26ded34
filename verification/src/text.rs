//! Character-sequence helpers used to render policies as text: the byte
//! order of strings, joining with a separator, decimal numerals and a
//! stable insertion sort keyed by strings.

use vstd::prelude::*;

verus! {

/// Strict lexicographic order of character sequences by code point, which
/// is the order of their UTF-8 encodings and so the order of `String`.
pub open spec fn lex_lt(a: Seq<char>, b: Seq<char>) -> bool
    decreases a.len(),
{
    if b.len() == 0 {
        false
    } else if a.len() == 0 {
        true
    } else if a[0] != b[0] {
        (a[0] as u32) < (b[0] as u32)
    } else {
        lex_lt(a.drop_first(), b.drop_first())
    }
}

/// `parts` joined with `sep` between consecutive parts.
pub open spec fn join(parts: Seq<Seq<char>>, sep: Seq<char>) -> Seq<char>
    decreases parts.len(),
{
    if parts.len() == 0 {
        Seq::empty()
    } else if parts.len() == 1 {
        parts[0]
    } else {
        join(parts.drop_last(), sep) + sep + parts.last()
    }
}

/// The decimal digit for `d < 10`.
pub open spec fn digit_char(d: nat) -> char {
    if d == 0 { '0' }
    else if d == 1 { '1' }
    else if d == 2 { '2' }
    else if d == 3 { '3' }
    else if d == 4 { '4' }
    else if d == 5 { '5' }
    else if d == 6 { '6' }
    else if d == 7 { '7' }
    else if d == 8 { '8' }
    else { '9' }
}

/// Decimal numeral of `n`, without leading zeros.
pub open spec fn decimal(n: nat) -> Seq<char>
    decreases n,
{
    if n < 10 {
        seq![digit_char(n)]
    } else {
        decimal(n / 10).push(digit_char(n % 10))
    }
}

/// Inserts `x` into `s` just before the first element whose key is greater
/// than the key of `x`.
pub open spec fn insert_by_key<T>(s: Seq<(Seq<char>, T)>, x: (Seq<char>, T)) -> Seq<(Seq<char>, T)>
    decreases s.len(),
{
    if s.len() == 0 {
        seq![x]
    } else if lex_lt(x.0, s[0].0) {
        seq![x] + s
    } else {
        seq![s[0]] + insert_by_key(s.drop_first(), x)
    }
}

/// Stable sort by key: elements in key order, elements with equal keys in
/// the order they came in.
pub open spec fn sort_by_key<T>(s: Seq<(Seq<char>, T)>) -> Seq<(Seq<char>, T)>
    decreases s.len(),
{
    if s.len() == 0 {
        s
    } else {
        insert_by_key(sort_by_key(s.drop_last()), s.last())
    }
}

/// The characters of each string.
pub open spec fn names(v: Seq<String>) -> Seq<Seq<char>> {
    v.map_values(|s: String| s@)
}

/// Appends one character, through `String::push`.
#[verifier::external_body]
pub(crate) fn push_char(s: &mut String, c: char)
    ensures
        final(s)@ == old(s)@.push(c),
{
    s.push(c);
}

/// A `String` holding the characters of `s`.
pub fn string_of(s: &str) -> (r: String)
    ensures
        r@ == s@,
{
    String::from_str(s)
}

/// Whether `a` comes strictly before `b` in string order.
pub fn str_lt(a: &str, b: &str) -> (res: bool)
    ensures
        res == lex_lt(a@, b@),
{
    let la = a.unicode_len();
    let lb = b.unicode_len();
    let mut i: usize = 0;
    assert(a@.skip(0) =~= a@);
    assert(b@.skip(0) =~= b@);
    while i < la && i < lb
        invariant
            la == a@.len(),
            lb == b@.len(),
            i <= la,
            i <= lb,
            lex_lt(a@, b@) == lex_lt(a@.skip(i as int), b@.skip(i as int)),
        decreases la - i,
    {
        let ca = a.get_char(i);
        let cb = b.get_char(i);
        assert(a@.skip(i as int).drop_first() =~= a@.skip(i + 1));
        assert(b@.skip(i as int).drop_first() =~= b@.skip(i + 1));
        if ca != cb {
            return (ca as u32) < (cb as u32);
        }
        i = i + 1;
    }
    i < lb
}

/// Whether two strings hold the same characters.
pub fn str_eq(a: &str, b: &str) -> (res: bool)
    ensures
        res == (a@ == b@),
{
    let la = a.unicode_len();
    let lb = b.unicode_len();
    if la != lb {
        return false;
    }
    let mut i: usize = 0;
    while i < la
        invariant
            la == a@.len(),
            lb == b@.len(),
            la == lb,
            i <= la,
            forall|j: int| 0 <= j < i ==> a@[j] == b@[j],
        decreases la - i,
    {
        if a.get_char(i) != b.get_char(i) {
            return false;
        }
        i = i + 1;
    }
    assert(a@ =~= b@);
    true
}

/// The decimal digit character for `d < 10`.
fn digit(d: u64) -> (c: char)
    requires
        d < 10,
    ensures
        c == digit_char(d as nat),
{
    if d == 0 { '0' }
    else if d == 1 { '1' }
    else if d == 2 { '2' }
    else if d == 3 { '3' }
    else if d == 4 { '4' }
    else if d == 5 { '5' }
    else if d == 6 { '6' }
    else if d == 7 { '7' }
    else if d == 8 { '8' }
    else { '9' }
}

/// Appends the decimal numeral of `n` to `s`.
pub fn push_decimal(s: &mut String, n: u64)
    ensures
        final(s)@ == old(s)@ + decimal(n as nat),
    decreases n,
{
    if n < 10 {
        push_char(s, digit(n));
        assert(old(s)@.push(digit_char(n as nat)) =~= old(s)@ + decimal(n as nat));
    } else {
        push_decimal(s, n / 10);
        push_char(s, digit(n % 10));
        assert(old(s)@ + decimal((n / 10) as nat) + seq![digit_char((n % 10) as nat)]
            =~= old(s)@ + decimal(n as nat));
    }
}

/// Each character preceded by the marker `'\u{1}'`: an escaped string
/// followed by a character other than the marker is never a prefix of
/// another such string, so it can be read back.
pub open spec fn escaped(s: Seq<char>) -> Seq<char> {
    Seq::new(2 * s.len(), |j: int| if j % 2 == 0 { '\u{1}' } else { s[j / 2] })
}

/// Appends the escaped characters of `x` to `s`.
pub fn push_escaped(s: &mut String, x: &str)
    ensures
        final(s)@ == old(s)@ + escaped(x@),
{
    let n = x.unicode_len();
    let mut i: usize = 0;
    while i < n
        invariant
            n == x@.len(),
            i <= n,
            s@ == old(s)@ + escaped(x@.take(i as int)),
        decreases n - i,
    {
        let c = x.get_char(i);
        push_char(s, '\u{1}');
        push_char(s, c);
        assert(escaped(x@.take(i + 1)) =~= escaped(x@.take(i as int)) + seq!['\u{1}', c]);
        i = i + 1;
    }
    assert(x@.take(n as int) =~= x@);
}

/// An escaped string ending in a character other than the marker is read
/// back: the strings before it and what follows it agree.
pub proof fn lemma_escaped_parse(x: Seq<char>, y: Seq<char>, t: char, r1: Seq<char>, r2: Seq<char>)
    requires
        t != '\u{1}',
        escaped(x) + seq![t] + r1 == escaped(y) + seq![t] + r2,
    ensures
        x == y,
        r1 == r2,
{
    let l = escaped(x) + seq![t] + r1;
    let r = escaped(y) + seq![t] + r2;
    if x.len() < y.len() {
        assert(l[2 * x.len() as int] == t);
        assert(r[2 * x.len() as int] == '\u{1}');
    } else if y.len() < x.len() {
        assert(l[2 * y.len() as int] == '\u{1}');
        assert(r[2 * y.len() as int] == t);
    } else {
        assert forall|i: int| 0 <= i < x.len() implies x[i] == y[i] by {
            assert(l[2 * i + 1] == x[i]);
            assert(r[2 * i + 1] == y[i]);
        }
        assert(x =~= y);
        assert(r1.len() == r2.len()) by {
            assert(l.len() == r.len());
        }
        assert forall|i: int| 0 <= i < r1.len() implies r1[i] == r2[i] by {
            assert(l[2 * x.len() as int + 1 + i] == r1[i]);
            assert(r[2 * y.len() as int + 1 + i] == r2[i]);
        }
        assert(r1 =~= r2);
    }
}

/// Escaping a non-empty string: the marker, its first character, and the
/// rest escaped.
proof fn lemma_escaped_first(x: Seq<char>)
    requires
        x.len() > 0,
    ensures
        escaped(x) == seq!['\u{1}', x[0]] + escaped(x.drop_first()),
{
    let d = x.drop_first();
    assert forall|j: int| 2 <= j < 2 * x.len() implies #[trigger] escaped(x)[j] == escaped(d)[j - 2] by {
        assert((j - 2) % 2 == j % 2);
        if j % 2 == 1 {
            assert((j - 2) / 2 == j / 2 - 1);
        }
    }
    assert(escaped(x) =~= seq!['\u{1}', x[0]] + escaped(d));
}

/// Escaped strings each followed by the zero character compare as the
/// strings themselves, when those differ.
pub proof fn lemma_escaped_order(x: Seq<char>, y: Seq<char>, xs: Seq<char>, ys: Seq<char>)
    requires
        x != y,
        xs.len() > 0,
        ys.len() > 0,
        xs[0] == '\0',
        ys[0] == '\0',
    ensures
        lex_lt(escaped(x) + xs, escaped(y) + ys) == lex_lt(x, y),
    decreases x.len(),
{
    let l = escaped(x) + xs;
    let r = escaped(y) + ys;
    if x.len() == 0 {
        assert(y.len() > 0) by {
            if y.len() == 0 {
                assert(x =~= y);
            }
        }
        assert(l[0] == '\0');
        assert(r[0] == '\u{1}');
        assert(('\0' as u32) < ('\u{1}' as u32));
        assert(lex_lt(l, r));
        assert(lex_lt(x, y));
    } else if y.len() == 0 {
        assert(l[0] == '\u{1}');
        assert(r[0] == '\0');
        assert(('\0' as u32) < ('\u{1}' as u32));
        assert(!lex_lt(l, r));
        assert(!lex_lt(x, y));
    } else {
        lemma_escaped_first(x);
        lemma_escaped_first(y);
        let xd = x.drop_first();
        let yd = y.drop_first();
        assert(l[0] == '\u{1}' && r[0] == '\u{1}');
        assert(l.drop_first()[0] == x[0]);
        assert(r.drop_first()[0] == y[0]);
        assert(lex_lt(l, r) == lex_lt(l.drop_first(), r.drop_first()));
        if x[0] != y[0] {
            assert(lex_lt(l.drop_first(), r.drop_first()) == ((x[0] as u32) < (y[0] as u32)));
        } else {
            assert(xd != yd) by {
                if xd == yd {
                    assert(x =~= seq![x[0]] + xd);
                    assert(y =~= seq![y[0]] + yd);
                }
            }
            assert(l.drop_first().drop_first() =~= escaped(xd) + xs);
            assert(r.drop_first().drop_first() =~= escaped(yd) + ys);
            lemma_escaped_order(xd, yd, xs, ys);
            assert(lex_lt(l.drop_first(), r.drop_first()) == lex_lt(
                l.drop_first().drop_first(),
                r.drop_first().drop_first(),
            ));
        }
    }
}

/// Different numbers have different decimal numerals.
pub proof fn lemma_decimal_injective(n: nat, m: nat)
    requires
        decimal(n) == decimal(m),
    ensures
        n == m,
    decreases n,
{
    lemma_decimal_len(n);
    lemma_decimal_len(m);
    if n < 10 && m < 10 {
        assert(decimal(n)[0] == digit_char(n));
        assert(decimal(m)[0] == digit_char(m));
    } else if n >= 10 && m >= 10 {
        assert(decimal(n).last() == digit_char(n % 10));
        assert(decimal(m).last() == digit_char(m % 10));
        assert(decimal(n).drop_last() =~= decimal(n / 10));
        assert(decimal(m).drop_last() =~= decimal(m / 10));
        lemma_decimal_injective(n / 10, m / 10);
    }
}

/// A numeral has one digit below ten and more from ten on.
proof fn lemma_decimal_len(n: nat)
    ensures
        decimal(n).len() >= 1,
        n < 10 <==> decimal(n).len() == 1,
    decreases n,
{
    if n >= 10 {
        lemma_decimal_len(n / 10);
    }
}

/// Appends `parts` joined with `sep` to `s`.
pub fn push_joined(s: &mut String, parts: &Vec<String>, sep: &str)
    ensures
        final(s)@ == old(s)@ + join(parts@.map_values(|p: String| p@), sep@),
{
    let ghost views = parts@.map_values(|p: String| p@);
    let mut i: usize = 0;
    while i < parts.len()
        invariant
            i <= parts.len(),
            views == parts@.map_values(|p: String| p@),
            s@ == old(s)@ + join(views.take(i as int), sep@),
        decreases parts.len() - i,
    {
        if i > 0 {
            s.append(sep);
        }
        s.append(parts[i].as_str());
        proof {
            let t = views.take(i + 1);
            assert(t.drop_last() =~= views.take(i as int));
            if i == 0 {
                assert(join(views.take(0), sep@) =~= Seq::<char>::empty());
            }
        }
        i = i + 1;
    }
    assert(views.take(parts.len() as int) =~= views);
}

/// The keys of `s` taken by their characters.
pub open spec fn keyed_view<T>(s: Seq<(String, T)>) -> Seq<(Seq<char>, T)> {
    s.map_values(|p: (String, T)| (p.0@, p.1))
}

/// Inserting before the first greater key is inserting at that position.
proof fn lemma_insert_by_key_at<T>(s: Seq<(Seq<char>, T)>, x: (Seq<char>, T), pos: int)
    requires
        0 <= pos <= s.len(),
        forall|j: int| 0 <= j < pos ==> !lex_lt(x.0, #[trigger] s[j].0),
        pos < s.len() ==> lex_lt(x.0, s[pos].0),
    ensures
        insert_by_key(s, x) == s.insert(pos, x),
    decreases s.len(),
{
    if s.len() == 0 {
        assert(s.insert(pos, x) =~= seq![x]);
    } else if pos == 0 {
        assert(s.insert(pos, x) =~= seq![x] + s);
    } else {
        let t = s.drop_first();
        assert forall|j: int| 0 <= j < pos - 1 implies !lex_lt(x.0, #[trigger] t[j].0) by {
            assert(t[j] == s[j + 1]);
        }
        lemma_insert_by_key_at(t, x, pos - 1);
        assert(seq![s[0]] + t.insert(pos - 1, x) =~= s.insert(pos, x));
    }
}

/// Stable insertion sort of keyed items by their string keys.
pub fn sort_keyed<T>(items: Vec<(String, T)>) -> (res: Vec<(String, T)>)
    ensures
        keyed_view(res@) == sort_by_key(keyed_view(items@)),
{
    let ghost orig = keyed_view(items@);
    let n = items.len();
    let mut rest = items;
    let mut sorted: Vec<(String, T)> = Vec::new();
    let mut i: usize = 0;
    assert(orig.take(0) =~= Seq::<(Seq<char>, T)>::empty());
    assert(keyed_view(sorted@) =~= Seq::<(Seq<char>, T)>::empty());
    while rest.len() > 0
        invariant
            i <= n,
            rest@.len() == n - i,
            orig.len() == n,
            keyed_view(rest@) == orig.skip(i as int),
            keyed_view(sorted@) == sort_by_key(orig.take(i as int)),
        decreases rest@.len(),
    {
        let ghost before = rest@;
        let x = rest.remove(0);
        proof {
            assert(keyed_view(rest@) =~= orig.skip(i + 1)) by {
                assert forall|k: int| 0 <= k < rest@.len() implies
                    keyed_view(rest@)[k] == orig.skip(i + 1)[k] by {
                    assert(rest@[k] == before[k + 1]);
                    assert(keyed_view(before)[k + 1] == orig.skip(i as int)[k + 1]);
                }
            }
            assert((x.0@, x.1) == orig[i as int]) by {
                assert(keyed_view(before)[0] == orig.skip(i as int)[0]);
            }
        }
        let ghost sv = keyed_view(sorted@);
        let mut j: usize = 0;
        while j < sorted.len() && !str_lt(x.0.as_str(), sorted[j].0.as_str())
            invariant
                j <= sorted@.len(),
                sv == keyed_view(sorted@),
                forall|k: int| 0 <= k < j ==> !lex_lt(x.0@, #[trigger] sv[k].0),
            decreases sorted@.len() - j,
        {
            j = j + 1;
        }
        proof {
            lemma_insert_by_key_at(sv, (x.0@, x.1), j as int);
            let t = orig.take(i + 1);
            assert(t.drop_last() =~= orig.take(i as int));
            assert(t.last() == orig[i as int]);
        }
        let ghost xv = (x.0@, x.1);
        sorted.insert(j, x);
        proof {
            assert(keyed_view(sorted@) =~= sv.insert(j as int, xv));
        }
        i = i + 1;
    }
    assert(orig.take(n as int) =~= orig);
    sorted
}

/// Changing the payloads of keyed items commutes with inserting them.
pub proof fn lemma_insert_by_key_map<T, U>(s: Seq<(Seq<char>, T)>, x: (Seq<char>, T), g: spec_fn(T) -> U)
    ensures
        insert_by_key(s, x).map_values(|p: (Seq<char>, T)| (p.0, g(p.1)))
            == insert_by_key(s.map_values(|p: (Seq<char>, T)| (p.0, g(p.1))), (x.0, g(x.1))),
    decreases s.len(),
{
    let f = |p: (Seq<char>, T)| (p.0, g(p.1));
    if s.len() == 0 {
        assert(insert_by_key(s, x).map_values(f) =~= seq![(x.0, g(x.1))]);
    } else if lex_lt(x.0, s[0].0) {
        assert(insert_by_key(s, x).map_values(f) =~= seq![(x.0, g(x.1))] + s.map_values(f));
    } else {
        lemma_insert_by_key_map(s.drop_first(), x, g);
        assert(s.map_values(f).drop_first() =~= s.drop_first().map_values(f));
        assert(insert_by_key(s, x).map_values(f)
            =~= seq![f(s[0])] + insert_by_key(s.drop_first(), x).map_values(f));
    }
}

/// Changing the payloads of keyed items commutes with sorting them.
pub proof fn lemma_sort_by_key_map<T, U>(s: Seq<(Seq<char>, T)>, g: spec_fn(T) -> U)
    ensures
        sort_by_key(s).map_values(|p: (Seq<char>, T)| (p.0, g(p.1)))
            == sort_by_key(s.map_values(|p: (Seq<char>, T)| (p.0, g(p.1)))),
    decreases s.len(),
{
    let f = |p: (Seq<char>, T)| (p.0, g(p.1));
    if s.len() == 0 {
        assert(sort_by_key(s).map_values(f) =~= s.map_values(f));
    } else {
        lemma_sort_by_key_map(s.drop_last(), g);
        lemma_insert_by_key_map(sort_by_key(s.drop_last()), s.last(), g);
        assert(s.map_values(f).drop_last() =~= s.drop_last().map_values(f));
    }
}

/// Inserting adds exactly one element and keeps the others.
pub proof fn lemma_insert_by_key_elements<T>(s: Seq<(Seq<char>, T)>, x: (Seq<char>, T))
    ensures
        insert_by_key(s, x).len() == s.len() + 1,
        forall|i: int| 0 <= i < s.len() + 1 ==> (#[trigger] insert_by_key(s, x)[i] == x
            || exists|j: int| 0 <= j < s.len() && insert_by_key(s, x)[i] == s[j]),
    decreases s.len(),
{
    if s.len() > 0 && !lex_lt(x.0, s[0].0) {
        let t = s.drop_first();
        lemma_insert_by_key_elements(t, x);
        assert forall|i: int| 0 <= i < s.len() + 1 implies (#[trigger] insert_by_key(s, x)[i] == x
            || exists|j: int| 0 <= j < s.len() && insert_by_key(s, x)[i] == s[j]) by {
            if i > 0 {
                let e = insert_by_key(t, x)[i - 1];
                assert(insert_by_key(s, x)[i] == e);
                if e != x {
                    let j = choose|j: int| 0 <= j < t.len() && e == t[j];
                    assert(e == s[j + 1]);
                }
            } else {
                assert(insert_by_key(s, x)[0] == s[0]);
            }
        }
    } else if s.len() > 0 {
        assert forall|i: int| 0 <= i < s.len() + 1 implies (#[trigger] insert_by_key(s, x)[i] == x
            || exists|j: int| 0 <= j < s.len() && insert_by_key(s, x)[i] == s[j]) by {
            if i > 0 {
                assert(insert_by_key(s, x)[i] == s[i - 1]);
            }
        }
    }
}

/// Sorting keeps the length and only moves elements around.
pub proof fn lemma_sort_by_key_elements<T>(s: Seq<(Seq<char>, T)>)
    ensures
        sort_by_key(s).len() == s.len(),
        forall|i: int| 0 <= i < s.len() ==> exists|j: int| 0 <= j < s.len() && #[trigger] sort_by_key(s)[i] == s[j],
    decreases s.len(),
{
    if s.len() > 0 {
        let d = s.drop_last();
        lemma_sort_by_key_elements(d);
        lemma_insert_by_key_elements(sort_by_key(d), s.last());
        assert forall|i: int| 0 <= i < s.len() implies exists|j: int| 0 <= j < s.len() && #[trigger] sort_by_key(s)[i] == s[j] by {
            let e = sort_by_key(s)[i];
            if e == s.last() {
                assert(e == s[s.len() - 1]);
            } else {
                let k = choose|k: int| 0 <= k < d.len() && e == sort_by_key(d)[k];
                let j = choose|j: int| 0 <= j < d.len() && sort_by_key(d)[k] == d[j];
                assert(e == s[j]);
            }
        }
    }
}

/// Whether no key comes strictly before an earlier one.
pub open spec fn keys_sorted<T>(s: Seq<(Seq<char>, T)>) -> bool {
    forall|i: int, j: int| 0 <= i < j < s.len() ==> !lex_lt(#[trigger] s[j].0, #[trigger] s[i].0)
}

/// String order is asymmetric.
pub proof fn lemma_lex_lt_asymmetric(a: Seq<char>, b: Seq<char>)
    requires
        lex_lt(a, b),
    ensures
        !lex_lt(b, a),
    decreases a.len(),
{
    if a.len() > 0 && b.len() > 0 && a[0] == b[0] {
        lemma_lex_lt_asymmetric(a.drop_first(), b.drop_first());
    }
}

/// String order is transitive.
pub proof fn lemma_lex_lt_transitive(a: Seq<char>, b: Seq<char>, c: Seq<char>)
    requires
        lex_lt(a, b),
        lex_lt(b, c),
    ensures
        lex_lt(a, c),
    decreases a.len(),
{
    if a.len() > 0 && a[0] == b[0] && b[0] == c[0] {
        lemma_lex_lt_transitive(a.drop_first(), b.drop_first(), c.drop_first());
    }
}

/// Inserting into a sequence in key order keeps it in key order.
proof fn lemma_insert_by_key_sorted<T>(s: Seq<(Seq<char>, T)>, x: (Seq<char>, T))
    requires
        keys_sorted(s),
    ensures
        keys_sorted(insert_by_key(s, x)),
    decreases s.len(),
{
    let r = insert_by_key(s, x);
    if s.len() == 0 {
    } else if lex_lt(x.0, s[0].0) {
        assert forall|i: int, j: int| 0 <= i < j < r.len() implies !lex_lt(#[trigger] r[j].0, #[trigger] r[i].0) by {
            if i == 0 {
                assert(r[j] == s[j - 1]);
                if lex_lt(s[j - 1].0, x.0) {
                    lemma_lex_lt_transitive(s[j - 1].0, x.0, s[0].0);
                    if j - 1 == 0 {
                        lemma_lex_lt_asymmetric(s[0].0, x.0);
                    }
                }
            } else {
                assert(r[i] == s[i - 1] && r[j] == s[j - 1]);
            }
        }
    } else {
        let t = s.drop_first();
        assert(keys_sorted(t)) by {
            assert forall|i: int, j: int| 0 <= i < j < t.len() implies !lex_lt(#[trigger] t[j].0, #[trigger] t[i].0) by {
                assert(t[i] == s[i + 1] && t[j] == s[j + 1]);
            }
        }
        lemma_insert_by_key_sorted(t, x);
        lemma_insert_by_key_elements(t, x);
        let rt = insert_by_key(t, x);
        assert forall|i: int, j: int| 0 <= i < j < r.len() implies !lex_lt(#[trigger] r[j].0, #[trigger] r[i].0) by {
            if i == 0 {
                assert(r[j] == rt[j - 1]);
                if rt[j - 1] != x {
                    let k = choose|k: int| 0 <= k < t.len() && rt[j - 1] == t[k];
                    assert(t[k] == s[k + 1]);
                }
            } else {
                assert(r[i] == rt[i - 1] && r[j] == rt[j - 1]);
            }
        }
    }
}

/// Sorting puts keys in order.
pub proof fn lemma_sort_by_key_sorted<T>(s: Seq<(Seq<char>, T)>)
    ensures
        keys_sorted(sort_by_key(s)),
    decreases s.len(),
{
    if s.len() > 0 {
        lemma_sort_by_key_sorted(s.drop_last());
        lemma_insert_by_key_sorted(sort_by_key(s.drop_last()), s.last());
    }
}

/// Sorting a sequence already in key order leaves it as it is.
pub proof fn lemma_sort_by_key_of_sorted<T>(s: Seq<(Seq<char>, T)>)
    requires
        keys_sorted(s),
    ensures
        sort_by_key(s) == s,
    decreases s.len(),
{
    if s.len() > 0 {
        let d = s.drop_last();
        assert(keys_sorted(d)) by {
            assert forall|i: int, j: int| 0 <= i < j < d.len() implies !lex_lt(#[trigger] d[j].0, #[trigger] d[i].0) by {
                assert(d[i] == s[i] && d[j] == s[j]);
            }
        }
        lemma_sort_by_key_of_sorted(d);
        assert forall|j: int| 0 <= j < d.len() implies !lex_lt(s.last().0, #[trigger] d[j].0) by {
            assert(d[j] == s[j]);
            assert(s.last() == s[s.len() - 1]);
        }
        lemma_insert_by_key_at(d, s.last(), d.len() as int);
        assert(d.insert(d.len() as int, s.last()) =~= s);
    }
}

/// Sorting twice is sorting once.
pub proof fn lemma_sort_by_key_idempotent<T>(s: Seq<(Seq<char>, T)>)
    ensures
        sort_by_key(sort_by_key(s)) == sort_by_key(s),
{
    lemma_sort_by_key_sorted(s);
    lemma_sort_by_key_of_sorted(sort_by_key(s));
}

/// No string comes strictly before itself.
pub proof fn lemma_lex_lt_irreflexive(a: Seq<char>)
    ensures
        !lex_lt(a, a),
    decreases a.len(),
{
    if a.len() > 0 {
        lemma_lex_lt_irreflexive(a.drop_first());
    }
}

/// Of two different strings, one comes strictly before the other.
pub proof fn lemma_lex_lt_total(a: Seq<char>, b: Seq<char>)
    requires
        a != b,
    ensures
        lex_lt(a, b) || lex_lt(b, a),
    decreases a.len(),
{
    if a.len() > 0 && b.len() > 0 && a[0] == b[0] {
        assert(a =~= seq![a[0]] + a.drop_first());
        assert(b =~= seq![b[0]] + b.drop_first());
        lemma_lex_lt_total(a.drop_first(), b.drop_first());
    } else if a.len() == 0 && b.len() == 0 {
        assert(a =~= b);
    } else if a.len() > 0 && b.len() > 0 {
        let x = a[0];
        let y = b[0];
        if (x as u32) == (y as u32) {
            vstd::utf8::char_u32_cast(x, x as u32);
            vstd::utf8::char_u32_cast(y, y as u32);
        }
    }
}

/// The order "not after" on strings.
pub open spec fn str_order() -> spec_fn(Seq<char>, Seq<char>) -> bool {
    |a: Seq<char>, b: Seq<char>| !lex_lt(b, a)
}

/// "Not after" is a total order on strings.
pub proof fn lemma_str_order_total()
    ensures
        vstd::relations::total_ordering(str_order()),
{
    let r = str_order();
    assert forall|x: Seq<char>| #[trigger] r(x, x) by {
        lemma_lex_lt_irreflexive(x);
    }
    assert forall|x: Seq<char>, y: Seq<char>| #[trigger] r(x, y) && #[trigger] r(y, x) implies x == y by {
        if x != y {
            lemma_lex_lt_total(x, y);
        }
    }
    assert forall|x: Seq<char>, y: Seq<char>, z: Seq<char>| #[trigger] r(x, y) && #[trigger] r(y, z) implies r(x, z) by {
        if lex_lt(z, x) {
            if y != z {
                lemma_lex_lt_total(y, z);
                if lex_lt(y, z) {
                    lemma_lex_lt_transitive(y, z, x);
                }
            }
        }
    }
    assert forall|x: Seq<char>, y: Seq<char>| #[trigger] r(x, y) || #[trigger] r(y, x) by {
        if lex_lt(y, x) {
            lemma_lex_lt_asymmetric(y, x);
        }
    }
}

/// Inserting adds one of the inserted element and keeps the others.
proof fn lemma_insert_by_key_multiset<T>(s: Seq<(Seq<char>, T)>, x: (Seq<char>, T))
    ensures
        insert_by_key(s, x).to_multiset() == s.to_multiset().insert(x),
    decreases s.len(),
{
    broadcast use vstd::seq_lib::group_to_multiset_ensures;

    if s.len() == 0 {
        assert(insert_by_key(s, x) =~= s.push(x));
    } else if lex_lt(x.0, s[0].0) {
        assert(insert_by_key(s, x) =~= s.insert(0, x));
    } else {
        let t = s.drop_first();
        lemma_insert_by_key_multiset(t, x);
        let rt = insert_by_key(t, x);
        assert(insert_by_key(s, x) =~= rt.insert(0, s[0]));
        assert(s =~= t.insert(0, s[0]));
        assert(insert_by_key(s, x).to_multiset() =~= s.to_multiset().insert(x));
    }
}

/// Sorting keeps the elements, each as often.
pub proof fn lemma_sort_by_key_multiset<T>(s: Seq<(Seq<char>, T)>)
    ensures
        sort_by_key(s).to_multiset() == s.to_multiset(),
    decreases s.len(),
{
    broadcast use vstd::seq_lib::group_to_multiset_ensures;

    if s.len() > 0 {
        let d = s.drop_last();
        lemma_sort_by_key_multiset(d);
        lemma_insert_by_key_multiset(sort_by_key(d), s.last());
        assert(s =~= d.push(s.last()));
    }
}

/// Mapping two sequences that hold the same elements, each as often, gives
/// sequences that do too.
pub proof fn lemma_map_multiset<A, B>(s: Seq<A>, t: Seq<A>, f: spec_fn(A) -> B)
    requires
        s.to_multiset() == t.to_multiset(),
    ensures
        s.map_values(f).to_multiset() == t.map_values(f).to_multiset(),
    decreases s.len(),
{
    broadcast use vstd::seq_lib::group_to_multiset_ensures;

    if s.len() == 0 {
        assert(s.to_multiset().len() == 0);
        assert(t.to_multiset().len() == t.len());
        assert(s.map_values(f) =~= t.map_values(f));
    } else {
        let x = s.last();
        let d = s.drop_last();
        assert(s =~= d.push(x));
        assert(t.to_multiset().count(x) > 0);
        assert(t.contains(x));
        let i = choose|i: int| 0 <= i < t.len() && t[i] == x;
        assert(t.remove(i).to_multiset() =~= d.to_multiset());
        lemma_map_multiset(d, t.remove(i), f);
        assert(s.map_values(f) =~= d.map_values(f).push(f(x)));
        assert(t.map_values(f) =~= t.remove(i).map_values(f).insert(i, f(x)));
    }
}

/// Whether two byte strings are equal.
pub(crate) fn bytes_eq(a: &[u8], b: &[u8]) -> (r: bool)
    ensures
        r == (a@ == b@),
{
    if a.len() != b.len() {
        return false;
    }
    let mut i: usize = 0;
    while i < a.len()
        invariant
            i <= a@.len(),
            a@.len() == b@.len(),
            forall|j: int| 0 <= j < i ==> a@[j] == b@[j],
        decreases a@.len() - i,
    {
        if a[i] != b[i] {
            return false;
        }
        i = i + 1;
    }
    assert(a@ =~= b@);
    true
}

/// Appends the bytes of `b` to `v`.
pub(crate) fn push_bytes(v: &mut Vec<u8>, b: &[u8])
    ensures
        final(v)@ == old(v)@ + b@,
{
    let mut i: usize = 0;
    while i < b.len()
        invariant
            i <= b@.len(),
            v@ == old(v)@ + b@.take(i as int),
        decreases b@.len() - i,
    {
        v.push(b[i]);
        i = i + 1;
        assert(v@ =~= old(v)@ + b@.take(i as int));
    }
    assert(b@.take(b@.len() as int) =~= b@);
}

} // verus!
