//! The period tree of forward-secure (binary tree) encryption. Time
//! periods are the leaves of a complete binary tree of some depth, numbered
//! left to right; a node is named by its path from the root, 0 for a left
//! turn and 1 for a right one, so a leaf's path is its period in binary,
//! most significant bit first.

use vstd::prelude::*;
use vstd::arithmetic::power2::pow2;
use vstd::arithmetic::power2::lemma_pow2_unfold;
use vstd::arithmetic::power2::lemma_pow2_pos;
use vstd::arithmetic::power2::lemma2_to64;
use vstd::arithmetic::div_mod::lemma_div_denominator;
use vstd::arithmetic::div_mod::lemma_fundamental_div_mod;
use vstd::arithmetic::div_mod::lemma_mod_pos_bound;
use vstd::arithmetic::div_mod::lemma_div_pos_is_pos;
use vstd::bits::lemma_u64_shr_is_div;
use crate::error::AbeError;
use crate::text::bytes_eq;

verus! {

/// A time period, a leaf's number.
pub type Period = u64;

/// The value of a path read as a binary numeral, most significant bit
/// first; a step other than 1 reads as 0.
pub open spec fn path_value(p: Seq<u8>) -> nat
    decreases p.len(),
{
    if p.len() == 0 {
        0
    } else {
        2 * path_value(p.drop_last()) + if p.last() == 1 { 1nat } else { 0nat }
    }
}

/// The path of `depth` steps that spells the low `depth` bits of `period`,
/// most significant first.
pub open spec fn period_path(period: nat, depth: nat) -> Seq<u8> {
    Seq::new(depth, |j: int| ((period / pow2((depth - 1 - j) as nat)) % 2) as u8)
}

/// Whether every step of a path is 0 or 1.
pub open spec fn is_binary(p: Seq<u8>) -> bool {
    forall|j: int| 0 <= j < p.len() ==> #[trigger] p[j] == 0 || p[j] == 1
}

/// A node of the period tree, named by its path from the root.
#[derive(Clone, Debug, PartialEq, Eq, Hash)]
pub struct NodeId {
    /// The turns from the root: empty for the root, 0 left, 1 right.
    pub path: Vec<u8>,
}

/// A copy of the bytes of `v`.
fn copy_path(v: &Vec<u8>, n: usize) -> (r: Vec<u8>)
    requires
        n <= v@.len(),
    ensures
        r@ == v@.take(n as int),
{
    let mut r: Vec<u8> = Vec::new();
    let mut i: usize = 0;
    while i < n
        invariant
            i <= n <= v@.len(),
            r@ == v@.take(i as int),
        decreases n - i,
    {
        r.push(v[i]);
        i = i + 1;
        assert(r@ =~= v@.take(i as int));
    }
    r
}

/// The value of a path is at least that of any of its prefixes.
proof fn lemma_path_value_prefix(p: Seq<u8>, k: int)
    requires
        0 <= k <= p.len(),
    ensures
        path_value(p.take(k)) <= path_value(p),
    decreases p.len() - k,
{
    if k < p.len() {
        lemma_path_value_prefix(p, k + 1);
        assert(p.take(k + 1).drop_last() =~= p.take(k));
    } else {
        assert(p.take(k) =~= p);
    }
}

/// Spelling a period with one more step appends its lowest bit to the
/// spelling of the period halved.
proof fn lemma_period_path_step(period: nat, depth: nat)
    ensures
        period_path(period, depth + 1) =~= period_path(period / 2, depth).push((period % 2) as u8),
{
    let a = period_path(period, depth + 1);
    let b = period_path(period / 2, depth).push((period % 2) as u8);
    assert forall|j: int| 0 <= j < depth + 1 implies a[j] == b[j] by {
        if j < depth {
            let k = (depth - 1 - j) as nat;
            lemma_pow2_unfold(k + 1);
            lemma_pow2_pos(k);
            lemma_div_denominator(period as int, 2, pow2(k) as int);
            assert(period / pow2(k + 1) == (period / 2) / pow2(k));
            assert(a[j] == ((period / pow2(k + 1)) % 2) as u8);
            assert(b[j] == period_path(period / 2, depth)[j]);
        } else {
            lemma2_to64();
            assert(a[j] == ((period / pow2(0)) % 2) as u8);
        }
    }
}

/// Reading the spelling of a period gives the period's low bits.
proof fn lemma_path_value_of_period(period: nat, depth: nat)
    ensures
        path_value(period_path(period, depth)) == period % pow2(depth),
    decreases depth,
{
    lemma_pow2_pos(depth);
    if depth == 0 {
        lemma2_to64();
        assert(period_path(period, 0) =~= Seq::<u8>::empty());
    } else {
        let d1 = (depth - 1) as nat;
        lemma_period_path_step(period, d1);
        lemma_path_value_of_period(period / 2, d1);
        let s = period_path(period, depth);
        assert(s.drop_last() =~= period_path(period / 2, d1));
        lemma_pow2_unfold(depth);
        lemma_pow2_pos(d1);
        let m = pow2(d1) as int;
        let q = (period / 2) as int;
        // period == 2 * (q / m * m + q % m) + period % 2 and the low part fits.
        lemma_fundamental_div_mod(period as int, 2);
        lemma_fundamental_div_mod(q, m);
        lemma_mod_pos_bound(q, m);
        lemma_div_pos_is_pos(q, m);
        let lo = 2 * (q % m) + (period % 2) as int;
        assert(0 <= lo < 2 * m);
        assert(period as int == (q / m) * (2 * m) + lo) by (nonlinear_arith)
            requires
                period as int == 2 * q + (period % 2) as int,
                q == m * (q / m) + q % m,
                lo == 2 * (q % m) + (period % 2) as int,
        ;
        vstd::arithmetic::div_mod::lemma_fundamental_div_mod_converse(period as int, 2 * m, q / m, lo);
    }
}

/// Spelling the value of a binary path with as many steps gives the path
/// back.
proof fn lemma_period_path_of_value(p: Seq<u8>)
    requires
        is_binary(p),
    ensures
        period_path(path_value(p), p.len()) =~= p,
    decreases p.len(),
{
    if p.len() > 0 {
        let d = p.drop_last();
        assert(is_binary(d)) by {
            assert forall|j: int| 0 <= j < d.len() implies #[trigger] d[j] == 0 || d[j] == 1 by {
                assert(d[j] == p[j]);
            }
        }
        lemma_period_path_of_value(d);
        let v = path_value(p);
        let b: nat = if p.last() == 1 { 1 } else { 0 };
        assert(v == 2 * path_value(d) + b);
        assert(v / 2 == path_value(d) && v % 2 == b) by {
            vstd::arithmetic::div_mod::lemma_fundamental_div_mod_converse(v as int, 2, path_value(d) as int, b as int);
        }
        lemma_period_path_step(v, d.len());
        assert(p.last() == 0 || p.last() == 1);
    }
}

impl NodeId {
    /// The root.
    pub fn root() -> (n: Self)
        ensures
            n.path@ == Seq::<u8>::empty(),
    {
        NodeId { path: Vec::new() }
    }

    /// The node with the given path.
    pub fn from_path(path: Vec<u8>) -> (n: Self)
        ensures
            n.path@ == path@,
    {
        NodeId { path }
    }

    /// The left child.
    pub fn left(&self) -> (n: Self)
        ensures
            n.path@ == self.path@.push(0),
    {
        let mut p = copy_path(&self.path, self.path.len());
        p.push(0);
        assert(self.path@.take(self.path@.len() as int) =~= self.path@);
        NodeId { path: p }
    }

    /// The right child.
    pub fn right(&self) -> (n: Self)
        ensures
            n.path@ == self.path@.push(1),
    {
        let mut p = copy_path(&self.path, self.path.len());
        p.push(1);
        assert(self.path@.take(self.path@.len() as int) =~= self.path@);
        NodeId { path: p }
    }

    /// The parent, or `None` for the root.
    pub fn parent(&self) -> (n: Option<Self>)
        ensures
            self.path@.len() == 0 <==> n is None,
            n matches Some(q) ==> q.path@ == self.path@.drop_last(),
    {
        if self.path.len() == 0 {
            None
        } else {
            let p = copy_path(&self.path, self.path.len() - 1);
            assert(self.path@.take(self.path@.len() - 1) =~= self.path@.drop_last());
            Some(NodeId { path: p })
        }
    }

    /// The depth, the number of steps from the root.
    pub fn depth(&self) -> (d: usize)
        ensures
            d == self.path@.len(),
    {
        self.path.len()
    }

    /// Whether the node lies at depth `max_depth`, the leaves' depth.
    pub fn is_leaf(&self, max_depth: usize) -> (b: bool)
        ensures
            b == (self.path@.len() == max_depth),
    {
        self.depth() == max_depth
    }

    /// The period of a leaf: its path read in binary. A 1 more than 63
    /// steps from the end would not fit in a period.
    pub fn to_period(&self) -> (p: Period)
        requires
            path_value(self.path@) <= u64::MAX,
        ensures
            p == path_value(self.path@),
    {
        let mut period: u64 = 0;
        let mut i: usize = 0;
        let n = self.path.len();
        assert(self.path@.take(0) =~= Seq::<u8>::empty());
        while i < n
            invariant
                n == self.path@.len(),
                i <= n,
                path_value(self.path@) <= u64::MAX,
                period == path_value(self.path@.take(i as int)),
            decreases n - i,
        {
            proof {
                lemma_path_value_prefix(self.path@, i + 1);
                assert(self.path@.take(i + 1).drop_last() =~= self.path@.take(i as int));
            }
            let bit: u64 = if self.path[i] == 1 { 1 } else { 0 };
            period = 2 * period + bit;
            i = i + 1;
        }
        assert(self.path@.take(n as int) =~= self.path@);
        period
    }

    /// The leaf of period `period` in a tree of depth `depth`: the low
    /// `depth` bits of the period, most significant first.
    pub fn from_period(period: Period, depth: usize) -> (n: Self)
        requires
            depth <= 64,
        ensures
            n.path@ == period_path(period as nat, depth as nat),
    {
        let mut path: Vec<u8> = Vec::new();
        let mut i: usize = depth;
        while i > 0
            invariant
                i <= depth <= 64,
                path@ == period_path(period as nat, depth as nat).take(depth - i),
            decreases i,
        {
            i = i - 1;
            let shifted = period >> (i as u64);
            let bit = (shifted & 1) as u8;
            proof {
                lemma_u64_shr_is_div(period, i as u64);
                assert(shifted & 1 == shifted % 2) by (bit_vector);
                assert((depth - 1 - (depth - i - 1)) as nat == i as nat);
            }
            path.push(bit);
            assert(path@ =~= period_path(period as nat, depth as nat).take(depth - i));
        }
        NodeId { path }
    }

    /// The nodes from this one up to the root, both included: the node
    /// first, then each parent in turn.
    pub fn path_to_root(&self) -> (r: Vec<NodeId>)
        ensures
            r@.len() == self.path@.len() + 1,
            forall|k: int| 0 <= k < r@.len() ==> (#[trigger] r@[k]).path@ == self.path@.take(self.path@.len() - k),
    {
        let n = self.path.len();
        let mut result: Vec<NodeId> = Vec::new();
        let mut k: usize = 0;
        while k < n
            invariant
                n == self.path@.len(),
                k <= n,
                result@.len() == k,
                forall|j: int| 0 <= j < k ==> (#[trigger] result@[j]).path@ == self.path@.take(n - j),
            decreases n - k,
        {
            let p = copy_path(&self.path, n - k);
            result.push(NodeId { path: p });
            k = k + 1;
        }
        result.push(NodeId { path: Vec::new() });
        assert(self.path@.take(0) =~= Seq::<u8>::empty());
        result
    }

    /// Whether this node is a proper ancestor of `other`: its path is a
    /// strictly shorter prefix of the other's.
    pub fn is_ancestor_of(&self, other: &NodeId) -> (b: bool)
        ensures
            b == (self.path@.len() < other.path@.len() && other.path@.take(self.path@.len() as int) == self.path@),
    {
        let n = self.path.len();
        if n >= other.path.len() {
            return false;
        }
        let mut i: usize = 0;
        while i < n
            invariant
                n == self.path@.len(),
                n < other.path@.len(),
                i <= n,
                forall|j: int| 0 <= j < i ==> self.path@[j] == other.path@[j],
            decreases n - i,
        {
            if self.path[i] != other.path[i] {
                assert(other.path@.take(n as int)[i as int] != self.path@[i as int]);
                return false;
            }
            i = i + 1;
        }
        assert(other.path@.take(n as int) =~= self.path@);
        true
    }

    /// Whether the node is the right child of its parent.
    pub fn is_right_child(&self) -> (b: bool)
        ensures
            b == (self.path@.len() > 0 && self.path@.last() == 1),
    {
        let n = self.path.len();
        n > 0 && self.path[n - 1] == 1
    }
}

/// A period below `2^depth` survives the trip to its leaf and back.
pub proof fn lemma_period_round_trip(period: u64, depth: nat)
    requires
        depth <= 64,
        period < pow2(depth),
    ensures
        path_value(period_path(period as nat, depth)) == period,
{
    lemma_path_value_of_period(period as nat, depth);
    vstd::arithmetic::div_mod::lemma_small_mod(period as nat, pow2(depth));
}

/// A node whose path holds only 0 and 1 is the leaf of its own period at
/// its own depth.
pub proof fn lemma_node_round_trip(path: Seq<u8>)
    requires
        is_binary(path),
    ensures
        period_path(path_value(path), path.len()) == path,
{
    lemma_period_path_of_value(path);
}

/// Every leaf spelled for a depth lies at that depth, and its steps are
/// 0 or 1.
pub proof fn lemma_period_path_shape(period: nat, depth: nat)
    ensures
        period_path(period, depth).len() == depth,
        is_binary(period_path(period, depth)),
{
    assert forall|j: int| 0 <= j < depth implies #[trigger] period_path(period, depth)[j] == 0 || period_path(period, depth)[j] == 1 by {
        let k = (depth - 1 - j) as nat;
        lemma_pow2_pos(k);
        lemma_mod_pos_bound((period / pow2(k)) as int, 2);
    }
}

/// A forward-secure secret key: the current and last periods, the tree
/// depth, and the keys of the nodes still held, each under its path. The
/// node keys themselves are of any type `K`.
#[derive(Clone, Debug)]
pub struct SecretKey<K> {
    /// The period the key is at.
    pub current_period: Period,
    /// The last period.
    pub max_period: Period,
    /// The depth of the period tree.
    pub depth: usize,
    /// The node keys held, under their paths.
    pub node_keys: Vec<(Vec<u8>, K)>,
}

/// Whether `r` is a key generation error with the message `msg`.
pub open spec fn keygen_error(r: Result<(), AbeError>, msg: Seq<char>) -> bool {
    r matches Err(AbeError::KeygenError(m)) && m@ == msg
}

/// The node keys as paths and keys.
pub open spec fn keys_view<K>(v: Seq<(Vec<u8>, K)>) -> Seq<(Seq<u8>, K)> {
    v.map_values(|e: (Vec<u8>, K)| (e.0@, e.1))
}

/// The length of the common prefix of `a` and `b` within their first `n`
/// steps.
pub open spec fn common_prefix(a: Seq<u8>, b: Seq<u8>, n: nat) -> nat
    decreases n,
{
    if n == 0 {
        0
    } else if common_prefix(a, b, (n - 1) as nat) == n - 1 && a[n - 1] == b[n - 1] {
        n
    } else {
        common_prefix(a, b, (n - 1) as nat)
    }
}

/// The depth at which the leaves of `period` and the next period part.
pub open spec fn parting_depth(period: u64, depth: nat) -> nat {
    common_prefix(period_path(period as nat, depth), period_path(period as nat + 1, depth), depth)
}

/// Whether moving past the point where two leaves part deletes the node
/// with this path: a node in the left subtree below that point.
pub open spec fn dropped(path: Seq<u8>, common: nat) -> bool {
    common > 0 && path.len() >= common && path[common - 1] == 0
}

/// The node keys left after moving from `period` to the next.
pub open spec fn keys_after_step<K>(keys: Seq<(Seq<u8>, K)>, period: u64, depth: nat) -> Seq<(Seq<u8>, K)> {
    keys.filter(|e: (Seq<u8>, K)| !dropped(e.0, parting_depth(period, depth)))
}

/// The node keys left after moving from period `from` to period `to`.
pub open spec fn keys_after<K>(keys: Seq<(Seq<u8>, K)>, from: u64, to: u64, depth: nat) -> Seq<(Seq<u8>, K)>
    decreases to - from,
{
    if to <= from {
        keys
    } else {
        keys_after_step(keys_after(keys, from, (to - 1) as u64, depth), (to - 1) as u64, depth)
    }
}

/// The key of the first node held under `path`.
pub open spec fn key_at<K>(keys: Seq<(Seq<u8>, K)>, path: Seq<u8>) -> Option<K>
    decreases keys.len(),
{
    if keys.len() == 0 {
        None
    } else {
        match key_at(keys.drop_last(), path) {
            Some(k) => Some(k),
            None => if keys.last().0 == path {
                Some(keys.last().1)
            } else {
                None
            },
        }
    }
}

/// The key of the lowest held node among the first `k` nodes on the way
/// from the leaf `target` up to the root.
pub open spec fn lowest_key<K>(keys: Seq<(Seq<u8>, K)>, target: Seq<u8>, k: nat) -> Option<K>
    decreases k,
{
    if k == 0 {
        None
    } else {
        match lowest_key(keys, target, (k - 1) as nat) {
            Some(x) => Some(x),
            None => key_at(keys, target.take(target.len() - (k - 1))),
        }
    }
}

impl<K> SecretKey<K> {
    /// Whether the key can still decrypt for `period`.
    pub open spec fn covers(&self, period: u64) -> bool {
        self.current_period <= period <= self.max_period
    }

    /// Whether the key can still decrypt for `period`.
    pub fn can_decrypt(&self, period: Period) -> (b: bool)
        ensures
            b == self.covers(period),
    {
        period >= self.current_period && period <= self.max_period
    }

    /// The key that decrypts for `period`: that of the lowest held node on
    /// the way from the period's leaf to the root, if the key still covers
    /// the period.
    pub fn get_period_key(&self, period: Period) -> (r: Option<&K>)
        requires
            self.depth <= 64,
        ensures
            match r {
                Some(k) => self.covers(period) && lowest_key(keys_view(self.node_keys@), period_path(period as nat, self.depth as nat), (self.depth + 1) as nat) == Some(*k),
                None => !self.covers(period) || lowest_key(keys_view(self.node_keys@), period_path(period as nat, self.depth as nat), (self.depth + 1) as nat) is None,
            },
    {
        if !self.can_decrypt(period) {
            return None;
        }
        let target = NodeId::from_period(period, self.depth);
        let ghost tp = target.path@;
        let ghost kv = keys_view(self.node_keys@);
        let nodes = target.path_to_root();
        proof {
            lemma_period_path_shape(period as nat, self.depth as nat);
        }
        let mut k: usize = 0;
        while k < nodes.len()
            invariant
                tp == target.path@,
                tp == period_path(period as nat, self.depth as nat),
                self.covers(period),
                tp.len() == self.depth,
                kv == keys_view(self.node_keys@),
                nodes@.len() == tp.len() + 1,
                forall|j: int| 0 <= j < nodes@.len() ==> (#[trigger] nodes@[j]).path@ == tp.take(tp.len() - j),
                k <= nodes@.len(),
                lowest_key(kv, tp, k as nat) is None,
            decreases nodes@.len() - k,
        {
            match find_key(&self.node_keys, &nodes[k].path) {
                Some(key) => {
                    proof {
                        assert(nodes@[k as int].path@ == tp.take(tp.len() - k));
                        assert(lowest_key(kv, tp, (k + 1) as nat) == key_at(kv, tp.take(tp.len() - k)));
                        lemma_lowest_key_settled(kv, tp, (k + 1) as nat, (self.depth + 1) as nat);
                    }
                    return Some(key);
                },
                None => {},
            }
            k = k + 1;
        }
        None
    }
}

/// Once a held node is found on the way up, looking further up keeps it.
proof fn lemma_lowest_key_settled<K>(keys: Seq<(Seq<u8>, K)>, target: Seq<u8>, k: nat, n: nat)
    requires
        k <= n,
        lowest_key(keys, target, k) is Some,
    ensures
        lowest_key(keys, target, n) == lowest_key(keys, target, k),
    decreases n - k,
{
    if k < n {
        lemma_lowest_key_settled(keys, target, k, (n - 1) as nat);
    }
}

/// The key of the first node held under `path`.
fn find_key<'a, K>(keys: &'a Vec<(Vec<u8>, K)>, path: &Vec<u8>) -> (r: Option<&'a K>)
    ensures
        match r {
            Some(k) => key_at(keys_view(keys@), path@) == Some(*k),
            None => key_at(keys_view(keys@), path@) is None,
        },
{
    let ghost kv = keys_view(keys@);
    assert(kv.take(0) =~= Seq::<(Seq<u8>, K)>::empty());
    let mut i: usize = 0;
    while i < keys.len()
        invariant
            kv == keys_view(keys@),
            i <= keys@.len(),
            key_at(kv.take(i as int), path@) is None,
        decreases keys@.len() - i,
    {
        let same = bytes_eq(keys[i].0.as_slice(), path.as_slice());
        proof {
            assert(kv.take(i + 1).drop_last() =~= kv.take(i as int));
        }
        if same {
            proof {
                lemma_key_at_prefix(kv, (i + 1) as nat, path@);
            }
            return Some(&keys[i].1);
        }
        i = i + 1;
    }
    assert(kv.take(i as int) =~= kv);
    None
}

/// Once a prefix holds a key under `path`, the whole sequence gives that
/// key.
proof fn lemma_key_at_prefix<K>(keys: Seq<(Seq<u8>, K)>, n: nat, path: Seq<u8>)
    requires
        n <= keys.len(),
        key_at(keys.take(n as int), path) is Some,
    ensures
        key_at(keys, path) == key_at(keys.take(n as int), path),
    decreases keys.len() - n,
{
    if n < keys.len() {
        assert(keys.take((n + 1) as int).drop_last() =~= keys.take(n as int));
        lemma_key_at_prefix(keys, n + 1, path);
    } else {
        assert(keys.take(n as int) =~= keys);
    }
}

/// The period the key is at.
pub fn current_period<K>(sk: &SecretKey<K>) -> (p: Period)
    ensures
        p == sk.current_period,
{
    sk.current_period
}

/// The number of periods the key can still decrypt for, the current one
/// included.
pub fn remaining_periods<K>(sk: &SecretKey<K>) -> (n: u64)
    requires
        sk.current_period <= sk.max_period,
        sk.max_period - sk.current_period + 1 <= u64::MAX,
    ensures
        n == sk.max_period - sk.current_period + 1,
{
    sk.max_period - sk.current_period + 1
}

/// Moves the key to the next period, deleting the keys of the nodes only
/// the earlier periods need; a key at its last period cannot move.
pub fn evolve<K>(sk: &mut SecretKey<K>) -> (r: Result<(), AbeError>)
    requires
        old(sk).depth <= 64,
    ensures
        final(sk).max_period == old(sk).max_period,
        final(sk).depth == old(sk).depth,
        old(sk).current_period >= old(sk).max_period ==> keygen_error(r, "Already at max period"@)
            && final(sk).current_period == old(sk).current_period
            && keys_view(final(sk).node_keys@) == keys_view(old(sk).node_keys@),
        old(sk).current_period < old(sk).max_period ==> r is Ok && final(sk).current_period == old(sk).current_period + 1
            && keys_view(final(sk).node_keys@) == keys_after_step(
            keys_view(old(sk).node_keys@),
            old(sk).current_period,
            old(sk).depth as nat,
        ),
{
    if sk.current_period >= sk.max_period {
        return Err(AbeError::KeygenError(String::from_str("Already at max period")));
    }
    let old_period = sk.current_period;
    let new_period = old_period + 1;
    let old_leaf = NodeId::from_period(old_period, sk.depth);
    let new_leaf = NodeId::from_period(new_period, sk.depth);
    proof {
        lemma_period_path_shape(old_period as nat, sk.depth as nat);
        lemma_period_path_shape(new_period as nat, sk.depth as nat);
    }
    let ghost a = old_leaf.path@;
    let ghost b = new_leaf.path@;
    let mut common_depth: usize = 0;
    let mut i: usize = 0;
    let depth = sk.depth;
    while i < depth
        invariant
            a == old_leaf.path@,
            b == new_leaf.path@,
            a.len() == depth,
            b.len() == depth,
            i <= depth,
            common_depth == common_prefix(a, b, i as nat),
            common_depth == i,
        ensures
            common_depth <= depth,
            common_depth == common_prefix(a, b, common_depth as nat),
            common_depth < depth ==> a[common_depth as int] != b[common_depth as int],
        decreases depth - i,
    {
        if old_leaf.path[i] == new_leaf.path[i] {
            common_depth = i + 1;
        } else {
            break;
        }
        i = i + 1;
    }
    proof {
        assert(common_depth == common_prefix(a, b, depth as nat)) by {
            lemma_common_prefix_stops(a, b, common_depth as nat, depth as nat);
        }
    }
    let ghost kv = keys_view(sk.node_keys@);
    let mut kept: Vec<(Vec<u8>, K)> = Vec::new();
    let mut rest: Vec<(Vec<u8>, K)> = Vec::new();
    std::mem::swap(&mut rest, &mut sk.node_keys);
    let ghost all = rest@;
    assert(kv.take(0) =~= Seq::<(Seq<u8>, K)>::empty());
    let total = rest.len();
    let mut t: usize = 0;
    while t < total
        invariant
            total == kv.len(),
            kv == keys_view(all),
            rest@ == all.skip(t as int),
            t <= total,
            keys_view(kept@) == kv.take(t as int).filter(|e: (Seq<u8>, K)| !dropped(e.0, common_depth as nat)),
        decreases total - t,
    {
        let entry = rest.remove(0);
        let drop = common_depth > 0 && entry.0.len() >= common_depth && entry.0[common_depth - 1] == 0;
        let ghost before = kept@;
        proof {
            assert(entry == all[t as int]);
            assert(all.skip(t as int).remove(0) =~= all.skip(t + 1));
            assert(kv.take(t + 1) =~= kv.take(t as int).push(kv[t as int]));
            kv.take(t as int).lemma_filter_push(kv[t as int], |e: (Seq<u8>, K)| !dropped(e.0, common_depth as nat));
        }
        if !drop {
            kept.push(entry);
            assert(keys_view(kept@) =~= keys_view(before).push(kv[t as int]));
        }
        t = t + 1;
    }
    assert(kv.take(total as int) =~= kv);
    sk.node_keys = kept;
    sk.current_period = new_period;
    Ok(())
}

/// The common prefix stops at the first difference.
proof fn lemma_common_prefix_stops(a: Seq<u8>, b: Seq<u8>, c: nat, n: nat)
    requires
        c <= n,
        common_prefix(a, b, c) == c,
        c < n ==> a[c as int] != b[c as int],
    ensures
        common_prefix(a, b, n) == c,
    decreases n - c,
{
    if c < n {
        lemma_common_prefix_stops_from(a, b, c, n);
    }
}

/// Past a difference at `c` the common prefix keeps its length.
proof fn lemma_common_prefix_stops_from(a: Seq<u8>, b: Seq<u8>, c: nat, n: nat)
    requires
        c < n,
        common_prefix(a, b, c) == c,
        a[c as int] != b[c as int],
    ensures
        common_prefix(a, b, n) == c,
    decreases n - c,
{
    if n == c + 1 {
    } else {
        lemma_common_prefix_stops_from(a, b, c, (n - 1) as nat);
    }
}

/// Moves the key forward to period `target`, one period at a time; a
/// target before the current period, or past the last one, is refused,
/// the latter after moving as far as the last period.
pub fn evolve_to<K>(sk: &mut SecretKey<K>, target_period: Period) -> (r: Result<(), AbeError>)
    requires
        old(sk).depth <= 64,
    ensures
        final(sk).max_period == old(sk).max_period,
        final(sk).depth == old(sk).depth,
        target_period < old(sk).current_period ==> keygen_error(r, "Cannot evolve backwards"@)
            && final(sk).current_period == old(sk).current_period
            && keys_view(final(sk).node_keys@) == keys_view(old(sk).node_keys@),
        old(sk).current_period <= target_period && (target_period <= old(sk).max_period || target_period
            == old(sk).current_period) ==> r is Ok && final(sk).current_period == target_period
            && keys_view(final(sk).node_keys@) == keys_after(
            keys_view(old(sk).node_keys@),
            old(sk).current_period,
            target_period,
            old(sk).depth as nat,
        ),
        old(sk).current_period < target_period && target_period > old(sk).max_period ==> keygen_error(
            r,
            "Already at max period"@,
        ) && final(sk).current_period == (if old(sk).current_period
            <= old(sk).max_period {
            old(sk).max_period
        } else {
            old(sk).current_period
        }) && keys_view(final(sk).node_keys@) == keys_after(
            keys_view(old(sk).node_keys@),
            old(sk).current_period,
            final(sk).current_period,
            old(sk).depth as nat,
        ),
{
    if target_period < sk.current_period {
        return Err(AbeError::KeygenError(String::from_str("Cannot evolve backwards")));
    }
    let ghost start = sk.current_period;
    let ghost k0 = keys_view(sk.node_keys@);
    let ghost max = sk.max_period;
    let ghost depth = sk.depth;
    while sk.current_period < target_period
        invariant
            sk.depth == depth,
            depth <= 64,
            sk.max_period == max,
            start <= sk.current_period <= target_period,
            start < sk.current_period ==> sk.current_period <= max,
            start == old(sk).current_period,
            max == old(sk).max_period,
            depth == old(sk).depth,
            k0 == keys_view(old(sk).node_keys@),
            keys_view(sk.node_keys@) == keys_after(k0, start, sk.current_period, depth as nat),
        decreases target_period - sk.current_period,
    {
        let ghost before = sk.current_period;
        match evolve(sk) {
            Ok(()) => {},
            Err(e) => {
                return Err(e);
            },
        }
    }
    Ok(())
}

/// Dropping only nodes not under `path` leaves the key under `path` as it
/// was.
proof fn lemma_key_at_filter<K>(keys: Seq<(Seq<u8>, K)>, path: Seq<u8>, pred: spec_fn((Seq<u8>, K)) -> bool)
    requires
        forall|e: (Seq<u8>, K)| e.0 == path ==> #[trigger] pred(e),
    ensures
        key_at(keys.filter(pred), path) == key_at(keys, path),
    decreases keys.len(),
{
    reveal(Seq::filter);
    if keys.len() > 0 {
        lemma_key_at_filter(keys.drop_last(), path, pred);
        let f = keys.drop_last().filter(pred);
        assert(f.push(keys.last()).drop_last() =~= f);
    }
}

/// Moving forward never deletes the root's key.
proof fn lemma_root_key_kept<K>(keys: Seq<(Seq<u8>, K)>, from: u64, to: u64, depth: nat)
    ensures
        key_at(keys_after(keys, from, to, depth), Seq::empty()) == key_at(keys, Seq::empty()),
    decreases to - from,
{
    if to > from {
        lemma_root_key_kept(keys, from, (to - 1) as u64, depth);
        lemma_key_at_filter(
            keys_after(keys, from, (to - 1) as u64, depth),
            Seq::empty(),
            |e: (Seq<u8>, K)| !dropped(e.0, parting_depth((to - 1) as u64, depth)),
        );
    }
}

/// A key that holds the root's key finds a key for every period, however
/// far it has moved forward: the way up from any leaf ends at the root,
/// whose key is never deleted.
pub proof fn lemma_evolved_key_finds_period_key<K>(
    keys: Seq<(Seq<u8>, K)>,
    from: u64,
    to: u64,
    depth: nat,
    period: u64,
)
    requires
        key_at(keys, Seq::empty()) is Some,
    ensures
        lowest_key(keys_after(keys, from, to, depth), period_path(period as nat, depth), depth + 1) is Some,
{
    let kept = keys_after(keys, from, to, depth);
    let target = period_path(period as nat, depth);
    lemma_root_key_kept(keys, from, to, depth);
    lemma_period_path_shape(period as nat, depth);
    assert(target.take(target.len() - depth) =~= Seq::<u8>::empty());
}

/// `n` left turns: the path of the node on the leftmost path at depth `n`.
pub open spec fn left_path(n: nat) -> Seq<u8> {
    Seq::new(n, |j: int| 0u8)
}

/// The paths of the nodes whose keys a fresh key holds, for its first `n`
/// levels, in the order they are made: at each level the node on the
/// leftmost path and, below the root, its right sibling.
pub open spec fn setup_paths(n: nat) -> Seq<Seq<u8>>
    decreases n,
{
    if n == 0 {
        Seq::empty()
    } else if n == 1 {
        seq![left_path(0)]
    } else {
        setup_paths((n - 1) as nat).push(left_path((n - 1) as nat)).push(left_path((n - 2) as nat).push(1))
    }
}

/// The first node a fresh key holds is the root.
proof fn lemma_setup_paths_start_at_root(n: nat)
    requires
        n > 0,
    ensures
        setup_paths(n).len() > 0,
        setup_paths(n)[0] == left_path(0),
    decreases n,
{
    if n > 1 {
        lemma_setup_paths_start_at_root((n - 1) as nat);
    }
}

/// The secret key of a new tree of depth `depth`, at period 0: it holds a
/// key for each node on the leftmost path above the leaves and for each
/// right sibling of those below the root, made by `make_key` from the
/// node.
pub fn setup_secret_key<K, F: Fn(&NodeId) -> K>(depth: usize, make_key: F) -> (sk: SecretKey<K>)
    requires
        depth < 64,
        forall|n: &NodeId| make_key.requires((n,)),
    ensures
        sk.current_period == 0,
        sk.max_period == pow2(depth as nat) - 1,
        sk.depth == depth,
        sk.node_keys@.len() == setup_paths(depth as nat).len(),
        forall|j: int| 0 <= j < sk.node_keys@.len() ==> (#[trigger] sk.node_keys@[j]).0@ == setup_paths(depth as nat)[j],
        forall|j: int| 0 <= j < sk.node_keys@.len() ==> exists|n: NodeId| n.path@ == (#[trigger] sk.node_keys@[j]).0@ && make_key.ensures((&n,), sk.node_keys@[j].1),
        depth > 0 ==> key_at(keys_view(sk.node_keys@), Seq::empty()) is Some,
{
    let mut node_keys: Vec<(Vec<u8>, K)> = Vec::new();
    let mut current = NodeId::root();
    let mut i: usize = 0;
    while i < depth
        invariant
            i <= depth < 64,
            forall|n: &NodeId| make_key.requires((n,)),
            current.path@ == left_path(i as nat),
            node_keys@.len() == setup_paths(i as nat).len(),
            forall|j: int| 0 <= j < node_keys@.len() ==> (#[trigger] node_keys@[j]).0@ == setup_paths(i as nat)[j],
            forall|j: int| 0 <= j < node_keys@.len() ==> exists|n: NodeId| n.path@ == (#[trigger] node_keys@[j]).0@ && make_key.ensures((&n,), node_keys@[j].1),
        decreases depth - i,
    {
        let ghost before = node_keys@;
        let key = make_key(&current);
        let path = copy_path(&current.path, current.path.len());
        assert(current.path@.take(current.path@.len() as int) =~= current.path@);
        node_keys.push((path, key));
        if i > 0 {
            let parent = current.parent();
            match parent {
                Some(p) => {
                    let right_sibling = p.right();
                    if !bytes_eq(right_sibling.path.as_slice(), current.path.as_slice()) {
                        let key = make_key(&right_sibling);
                        let path = copy_path(&right_sibling.path, right_sibling.path.len());
                        assert(right_sibling.path@.take(right_sibling.path@.len() as int) =~= right_sibling.path@);
                        node_keys.push((path, key));
                        assert(right_sibling.path@ =~= left_path((i - 1) as nat).push(1));
                    } else {
                        assert(right_sibling.path@[i - 1] != current.path@[i - 1]);
                    }
                },
                None => {},
            }
        }
        let next = current.left();
        assert(next.path@ =~= left_path((i + 1) as nat));
        current = next;
        i = i + 1;
        proof {
            assert(forall|j: int| 0 <= j < before.len() ==> node_keys@[j] == before[j]);
            assert forall|j: int| 0 <= j < node_keys@.len() implies exists|n: NodeId| n.path@ == (#[trigger] node_keys@[j]).0@ && make_key.ensures((&n,), node_keys@[j].1) by {
                if j < before.len() {
                    assert(node_keys@[j] == before[j]);
                }
            }
        }
    }
    let d: u64 = depth as u64;
    proof {
        vstd::bits::lemma_u64_pow2_no_overflow(d as nat);
        vstd::bits::lemma_u64_shl_is_mul(1u64, d);
    }
    let max_period: u64 = (1u64 << d) - 1;
    proof {
        if depth > 0 {
            let kv = keys_view(node_keys@);
            lemma_setup_paths_start_at_root(depth as nat);
            assert(kv.take(1).drop_last() =~= Seq::<(Seq<u8>, K)>::empty());
            assert(left_path(0) =~= Seq::<u8>::empty());
            lemma_key_at_prefix(kv, 1, Seq::empty());
        }
    }
    SecretKey { current_period: 0, max_period, depth, node_keys }
}

} // verus!
