//! Deterministic policy trees from arbitrary bytes, for exercising the
//! policy and LSSS code on inputs nobody wrote by hand. Every byte string
//! yields a well-formed policy.

use vstd::prelude::*;
use vstd::slice::slice_subrange;
use crate::lsss::PolicyNode;
use crate::lsss::Policy;
use crate::lsss::policy_views;
use crate::lsss::lemma_views_map;
use crate::lsss::well_formed_all;
use crate::text::decimal;
use crate::text::push_decimal;

verus! {

/// The number of children of a threshold node built from `rest`.
pub open spec fn threshold_arity(rest: Seq<u8>) -> nat {
    if rest.len() == 0 {
        2
    } else {
        2 + (rest[0] % 2) as nat
    }
}

/// The threshold of a threshold node built from `rest`.
pub open spec fn threshold_of(rest: Seq<u8>) -> nat {
    if rest.len() > 1 {
        1 + (rest[1] as nat % threshold_arity(rest))
    } else {
        1
    }
}

/// The policy built from `data`: the first byte modulo 4 picks an
/// attribute named after the next byte, a two-child AND or OR over the two
/// halves of the rest, or a threshold gate over two or three equal chunks
/// of the rest; the empty string gives the attribute `a`.
pub open spec fn built_policy(data: Seq<u8>) -> Policy
    decreases data.len(), 4nat,
{
    if data.len() == 0 {
        Policy::Attr("a"@)
    } else {
        let rest = data.skip(1);
        let mid = rest.len() / 2;
        let sel = data[0] % 4;
        if sel == 0 {
            if rest.len() == 0 {
                Policy::Attr("attr"@)
            } else {
                Policy::Attr("attr_"@ + decimal(rest[0] as nat))
            }
        } else if sel == 1 {
            Policy::And(seq![built_policy(rest.take(mid as int)), built_policy(rest.skip(mid as int))])
        } else if sel == 2 {
            Policy::Or(seq![built_policy(rest.take(mid as int)), built_policy(rest.skip(mid as int))])
        } else {
            let n = threshold_arity(rest);
            Policy::Threshold(threshold_of(rest), built_chunks(rest, rest.len() / n, n))
        }
    }
}

/// The policies built from the first `count` chunks of `chunk` bytes of
/// `rest`, the last chunk cut at the end of `rest`.
pub open spec fn built_chunks(rest: Seq<u8>, chunk: nat, count: nat) -> Seq<Policy>
    decreases rest.len() + 1, count,
{
    if count == 0 {
        Seq::empty()
    } else {
        let start = (count - 1) * chunk;
        let end = if count * chunk <= rest.len() {
            count * chunk
        } else {
            rest.len() as nat
        };
        if start <= end {
            built_chunks(rest, chunk, (count - 1) as nat).push(built_policy(rest.subrange(start as int, end as int)))
        } else {
            built_chunks(rest, chunk, (count - 1) as nat).push(built_policy(Seq::empty()))
        }
    }
}

/// A policy built from `data`.
pub fn build_policy_from_bytes(data: &[u8]) -> (p: PolicyNode)
    ensures
        p@ == built_policy(data@),
    decreases data@.len(),
{
    if data.len() == 0 {
        return PolicyNode::Attr(String::from_str("a"));
    }
    let selector = data[0] % 4;
    let rest = slice_subrange(data, 1, data.len());
    assert(rest@ =~= data@.skip(1));
    match selector {
        0 => {
            if rest.len() == 0 {
                PolicyNode::Attr(String::from_str("attr"))
            } else {
                let mut name = String::from_str("attr_");
                push_decimal(&mut name, rest[0] as u64);
                PolicyNode::Attr(name)
            }
        },
        1 | 2 => {
            let mid = rest.len() / 2;
            let left = build_policy_from_bytes(slice_subrange(rest, 0, mid));
            let right = build_policy_from_bytes(slice_subrange(rest, mid, rest.len()));
            assert(rest@.subrange(0, mid as int) =~= rest@.take(mid as int));
            assert(rest@.subrange(mid as int, rest@.len() as int) =~= rest@.skip(mid as int));
            let children = vec![left, right];
            proof {
                lemma_views_map(children@);
                assert(policy_views(children@) =~= seq![left@, right@]);
            }
            if selector == 1 {
                PolicyNode::And(children)
            } else {
                PolicyNode::Or(children)
            }
        },
        _ => {
            let num_children: usize = if rest.len() == 0 {
                2
            } else {
                2 + (rest[0] % 2) as usize
            };
            let threshold: usize = if rest.len() > 1 {
                1 + (rest[1] as usize % num_children)
            } else {
                1
            };
            let chunk_size = rest.len() / num_children;
            let rest_len = rest.len();
            assert(chunk_size * num_children <= rest@.len()) by (nonlinear_arith)
                requires
                    chunk_size == rest@.len() / (num_children as nat),
                    num_children >= 2,
            ;
            let mut children: Vec<PolicyNode> = Vec::new();
            let mut i: usize = 0;
            proof {
                assert(built_chunks(rest@, chunk_size as nat, 0) =~= Seq::<Policy>::empty());
                lemma_views_map(children@);
            }
            while i < num_children
                invariant
                    rest@.len() < data@.len(),
                    num_children == threshold_arity(rest@),
                    chunk_size == rest@.len() / (num_children as nat),
                    2 <= num_children <= 3,
                    rest_len == rest@.len(),
                    chunk_size * num_children <= rest@.len(),
                    i <= num_children,
                    policy_views(children@) == built_chunks(rest@, chunk_size as nat, i as nat),
                decreases num_children - i,
            {
                assert((i + 1) * chunk_size <= chunk_size * num_children) by (nonlinear_arith)
                    requires
                        i < num_children,
                ;
                assert(i * chunk_size <= (i + 1) * chunk_size) by (nonlinear_arith);
                let start = i * chunk_size;
                let end0 = (i + 1) * chunk_size;
                let end = if end0 <= rest.len() { end0 } else { rest.len() };
                proof {
                    assert(start <= end) by (nonlinear_arith)
                        requires
                            start == i * chunk_size,
                            end0 == (i + 1) * chunk_size,
                            end == (if end0 <= rest@.len() { end0 as int } else { rest@.len() as int }),
                            i < num_children,
                            chunk_size * num_children <= rest@.len(),
                    ;
                }
                let child = build_policy_from_bytes(slice_subrange(rest, start, end));
                let ghost before = children@;
                children.push(child);
                proof {
                    lemma_views_map(children@);
                    lemma_views_map(before);
                    assert(policy_views(children@) =~= policy_views(before).push(child@));
                }
                i = i + 1;
            }
            PolicyNode::Threshold(threshold, children)
        },
    }
}

/// Every AND and OR gate has two children and every threshold gate two or
/// three.
pub open spec fn small_gates(p: Policy) -> bool
    decreases p,
{
    match p {
        Policy::Attr(_) => true,
        Policy::And(cs) => cs.len() == 2 && small_gates_all(cs),
        Policy::Or(cs) => cs.len() == 2 && small_gates_all(cs),
        Policy::Threshold(_, cs) => 2 <= cs.len() <= 3 && small_gates_all(cs),
    }
}

pub open spec fn small_gates_all(cs: Seq<Policy>) -> bool
    decreases cs,
{
    if cs.len() == 0 {
        true
    } else {
        small_gates_all(cs.drop_last()) && small_gates(cs.last())
    }
}

/// Every byte string builds a well-formed policy: gates have children,
/// and thresholds lie between one and the number of children; AND and OR
/// gates have two children and threshold gates two or three.
pub proof fn lemma_built_policy_well_formed(data: Seq<u8>)
    ensures
        built_policy(data).well_formed(),
        small_gates(built_policy(data)),
    decreases data.len(), 4nat,
{
    if data.len() > 0 {
        let rest = data.skip(1);
        let mid = rest.len() / 2;
        let sel = data[0] % 4;
        if sel == 1 || sel == 2 {
            lemma_built_policy_well_formed(rest.take(mid as int));
            lemma_built_policy_well_formed(rest.skip(mid as int));
            let cs = seq![built_policy(rest.take(mid as int)), built_policy(rest.skip(mid as int))];
            assert(cs.drop_last() =~= seq![cs[0]]);
            assert(cs.drop_last().drop_last() =~= Seq::<Policy>::empty());
            assert(well_formed_all(cs.drop_last().drop_last()));
            assert(well_formed_all(cs.drop_last()));
            assert(well_formed_all(cs));
            assert(small_gates_all(cs.drop_last().drop_last()));
            assert(small_gates_all(cs.drop_last()));
            assert(small_gates_all(cs));
        } else if sel == 3 {
            let n = threshold_arity(rest);
            lemma_built_chunks_well_formed(rest, rest.len() / n, n);
        }
    }
}

/// The chunks build well-formed policies, one per chunk.
proof fn lemma_built_chunks_well_formed(rest: Seq<u8>, chunk: nat, count: nat)
    ensures
        well_formed_all(built_chunks(rest, chunk, count)),
        small_gates_all(built_chunks(rest, chunk, count)),
        built_chunks(rest, chunk, count).len() == count,
    decreases rest.len() + 1, count,
{
    if count > 0 {
        let start = (count - 1) * chunk;
        let end = if count * chunk <= rest.len() {
            count * chunk
        } else {
            rest.len() as nat
        };
        lemma_built_chunks_well_formed(rest, chunk, (count - 1) as nat);
        if start <= end {
            lemma_built_policy_well_formed(rest.subrange(start as int, end as int));
        } else {
            lemma_built_policy_well_formed(Seq::empty());
        }
        let cs = built_chunks(rest, chunk, count);
        assert(cs.drop_last() == built_chunks(rest, chunk, (count - 1) as nat));
    }
}

} // verus!
