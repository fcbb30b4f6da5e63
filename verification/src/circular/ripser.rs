//! Normalizing Ripser-shaped H1 terms into a canonical cocycle.

use vstd::prelude::*;

use crate::certificate::complex::simple_graph;
use crate::certificate::evaluate::value_greater;
use crate::classes::{Cocycle, CocycleTerm};
use crate::diagram::INFINITY_BITS;
use crate::error::{fails_with, Error};
use crate::field::{inverse_mod, is_prime, spec_inverse_mod, supported_modulus, MODULUS_LIMIT};
use crate::graph::{at_most, WeightedEdge, SIGN_MASK};
use crate::text::literal;

use super::edge_lt;

verus! {

/// The edge `{a, b}` with its endpoints in ascending order.
pub open spec fn ordered_pair(a: usize, b: usize) -> (usize, usize) {
    if a < b {
        (a, b)
    } else {
        (b, a)
    }
}

/// Length of the listed edge joining `a` and `b`; an unlisted pair is
/// absent from every filtration, as if infinitely long.
pub open spec fn pair_length(edges: Seq<WeightedEdge>, a: usize, b: usize) -> u64 {
    let key = ordered_pair(a, b);
    if exists|i: int| 0 <= i < edges.len() && (#[trigger] edges[i]).0 == key.0 && edges[i].1 == key.1 {
        edges[choose|i: int| 0 <= i < edges.len() && (#[trigger] edges[i]).0 == key.0 && edges[i].1 == key.1].2
    } else {
        INFINITY_BITS
    }
}

/// A Ripser term `(a, b, c)` names two different vertices of the graph and
/// a coefficient of the field.
pub open spec fn valid_ripser_term(term: (usize, usize, u32), vertex_count: usize, modulus: u32) -> bool {
    term.0 != term.1 && term.0 < vertex_count && term.1 < vertex_count && term.2 < modulus
}

/// A scale that is finite and not below zero; negative zero compares equal
/// to zero and passes.
pub open spec fn valid_scale(scale: u64) -> bool {
    scale < INFINITY_BITS || scale == SIGN_MASK
}

/// The coefficients of the oriented sum of the first `count` terms whose
/// edge lies within `scale`, modulo `p`: a reversed term counts with the
/// opposite sign, and a coefficient that cancels leaves the map.
pub open spec fn ripser_sum(
    terms: Seq<(usize, usize, u32)>,
    edges: Seq<WeightedEdge>,
    scale: u64,
    p: nat,
    count: int,
) -> Map<(usize, usize), nat>
    decreases count,
{
    if count <= 0 {
        Map::empty()
    } else {
        let sum = ripser_sum(terms, edges, scale, p, count - 1);
        let (a, b, c) = terms[count - 1];
        if value_greater(pair_length(edges, a, b), scale) {
            sum
        } else {
            let edge = ordered_pair(a, b);
            let value = if a < b {
                c as nat
            } else {
                ((p - c) % (p as int)) as nat
            };
            add_coefficient(sum, edge, value, p)
        }
    }
}

/// `sum` with `value` added to the coefficient of `edge`, modulo `p`.
pub open spec fn add_coefficient(
    sum: Map<(usize, usize), nat>,
    edge: (usize, usize),
    value: nat,
    p: nat,
) -> Map<(usize, usize), nat> {
    let next = ((if sum.contains_key(edge) {
        sum[edge]
    } else {
        0
    }) + value) % p;
    if next == 0 {
        sum.remove(edge)
    } else {
        sum.insert(edge, next)
    }
}

/// `entries` lists the coefficients of `sum` in ascending edge order, each
/// nonzero and below `p`.
pub open spec fn lists_sum(entries: Seq<(usize, usize, u64)>, sum: Map<(usize, usize), nat>, p: nat) -> bool {
    &&& forall|i: int, j: int|
        0 <= i < j < entries.len() ==> edge_lt((entries[i].0, entries[i].1), (entries[j].0, entries[j].1))
    &&& forall|i: int|
        0 <= i < entries.len() ==> 0 < (#[trigger] entries[i]).2 < p && sum.contains_key((entries[i].0, entries[i].1))
            && sum[(entries[i].0, entries[i].1)] == entries[i].2
    &&& forall|edge: (usize, usize)|
        #[trigger] sum.contains_key(edge) ==> exists|i: int|
            0 <= i < entries.len() && (#[trigger] entries[i]).0 == edge.0 && entries[i].1 == edge.1
}

/// The terms list exactly the edges of `sum`, in ascending edge order, each
/// coefficient scaled by the inverse of the first one.
pub open spec fn normalized_terms(terms: Seq<CocycleTerm>, sum: Map<(usize, usize), nat>, p: nat) -> bool {
    &&& terms.len() > 0
    &&& forall|i: int, j: int| 0 <= i < j < terms.len() ==> edge_lt((terms[i].u, terms[i].v), (terms[j].u, terms[j].v))
    &&& forall|edge: (usize, usize)|
        sum.contains_key(edge) <==> exists|i: int| 0 <= i < terms.len() && (#[trigger] terms[i]).u == edge.0 && terms[i].v == edge.1
    &&& forall|i: int|
        0 <= i < terms.len() ==> (#[trigger] terms[i]).coefficient == (sum[(terms[i].u, terms[i].v)]
            * spec_inverse_mod(sum[(terms[0].u, terms[0].v)], p)) % p
}

/// The listed length between `a` and `b`, or infinity when none is listed.
fn listed_pair_length(edges: &[WeightedEdge], a: usize, b: usize) -> (length: u64)
    requires
        forall|i: int, j: int|
            0 <= i < j < edges@.len() ==> edges@[i].0 < edges@[j].0 || (edges@[i].0 == edges@[j].0 && edges@[i].1
                < edges@[j].1),
    ensures
        length == pair_length(edges@, a, b),
{
    let (low, high) = if a < b {
        (a, b)
    } else {
        (b, a)
    };
    let mut index: usize = 0;
    while index < edges.len()
        invariant
            index <= edges@.len(),
            (low, high) == ordered_pair(a, b),
            forall|i: int, j: int|
                0 <= i < j < edges@.len() ==> edges@[i].0 < edges@[j].0 || (edges@[i].0 == edges@[j].0 && edges@[i].1
                    < edges@[j].1),
            forall|i: int| 0 <= i < index ==> !((#[trigger] edges@[i]).0 == low && edges@[i].1 == high),
        decreases edges@.len() - index,
    {
        if edges[index].0 == low && edges[index].1 == high {
            proof {
                let k = choose|i: int| 0 <= i < edges@.len() && (#[trigger] edges@[i]).0 == low && edges@[i].1 == high;
                if k > index {
                    assert(edges@[index as int].0 < edges@[k].0 || (edges@[index as int].0 == edges@[k].0
                        && edges@[index as int].1 < edges@[k].1));
                }
                assert(k == index);
            }
            return edges[index].2;
        }
        index += 1;
    }
    INFINITY_BITS
}

/// Adds `value` to the coefficient of edge `(u, v)`, modulo `p`.
fn add_entry(entries: &mut Vec<(usize, usize, u64)>, u: usize, v: usize, value: u64, p: u64, sum: Ghost<Map<(usize, usize), nat>>)
    requires
        2 <= p <= u32::MAX,
        value < p,
        lists_sum(old(entries)@, sum@, p as nat),
    ensures
        lists_sum(final(entries)@, add_coefficient(sum@, (u, v), value as nat, p as nat), p as nat),
{
    let ghost before = entries@;
    let ghost next_sum = add_coefficient(sum@, (u, v), value as nat, p as nat);
    let mut position: usize = 0;
    while position < entries.len() && (entries[position].0 < u || (entries[position].0 == u && entries[position].1 < v))
        invariant
            position <= entries@.len(),
            entries@ == before,
            forall|k: int| 0 <= k < position ==> edge_lt((#[trigger] before[k].0, before[k].1), (u, v)),
        decreases entries@.len() - position,
    {
        position += 1;
    }
    proof {
        assert forall|k: int| position <= k < before.len() implies !edge_lt((#[trigger] before[k].0, before[k].1), (u, v)) by {
            if k > position {
                assert(edge_lt((before[position as int].0, before[position as int].1), (before[k].0, before[k].1)));
            }
        }
    }
    if position < entries.len() && entries[position].0 == u && entries[position].1 == v {
        let next = (entries[position].2 + value) % p;
        proof {
            assert(sum@.contains_key((u, v)));
            assert(sum@[(u, v)] == before[position as int].2);
        }
        if next == 0 {
            entries.remove(position);
            proof {
                assert(next_sum == sum@.remove((u, v)));
                let after = entries@;
                assert(after =~= before.remove(position as int));
                assert forall|i: int, j: int| 0 <= i < j < after.len() implies edge_lt((after[i].0, after[i].1), (after[j].0, after[j].1)) by {
                    let i0 = if i < position { i } else { i + 1 };
                    let j0 = if j < position { j } else { j + 1 };
                    assert(after[i] == before[i0] && after[j] == before[j0]);
                }
                assert forall|i: int| 0 <= i < after.len() implies 0 < (#[trigger] after[i]).2 < p && next_sum.contains_key(
                    (after[i].0, after[i].1),
                ) && next_sum[(after[i].0, after[i].1)] == after[i].2 by {
                    let i0 = if i < position { i } else { i + 1 };
                    assert(after[i] == before[i0]);
                    assert((before[i0].0, before[i0].1) != (u, v));
                }
                assert forall|edge: (usize, usize)| #[trigger] next_sum.contains_key(edge) implies exists|i: int|
                    0 <= i < after.len() && (#[trigger] after[i]).0 == edge.0 && after[i].1 == edge.1 by {
                    let k = choose|k: int| 0 <= k < before.len() && (#[trigger] before[k]).0 == edge.0 && before[k].1 == edge.1;
                    assert(k != position);
                    let i = if k < position { k } else { k - 1 };
                    assert(after[i] == before[k]);
                }
            }
        } else {
            entries.set(position, (u, v, next));
            proof {
                assert(next_sum == sum@.insert((u, v), next as nat));
                let after = entries@;
                assert forall|i: int, j: int| 0 <= i < j < after.len() implies edge_lt((after[i].0, after[i].1), (after[j].0, after[j].1)) by {
                    assert(before[i].0 == after[i].0 && before[i].1 == after[i].1);
                    assert(before[j].0 == after[j].0 && before[j].1 == after[j].1);
                }
                assert forall|i: int| 0 <= i < after.len() implies 0 < (#[trigger] after[i]).2 < p && next_sum.contains_key(
                    (after[i].0, after[i].1),
                ) && next_sum[(after[i].0, after[i].1)] == after[i].2 by {
                    if i != position {
                        assert(after[i] == before[i]);
                        assert(edge_lt((before[i].0, before[i].1), (before[position as int].0, before[position as int].1))
                            || edge_lt((before[position as int].0, before[position as int].1), (before[i].0, before[i].1)));
                    }
                }
                assert forall|edge: (usize, usize)| #[trigger] next_sum.contains_key(edge) implies exists|i: int|
                    0 <= i < after.len() && (#[trigger] after[i]).0 == edge.0 && after[i].1 == edge.1 by {
                    if edge == (u, v) {
                        assert(after[position as int].0 == u && after[position as int].1 == v);
                    } else {
                        let k = choose|k: int| 0 <= k < before.len() && (#[trigger] before[k]).0 == edge.0 && before[k].1 == edge.1;
                        assert(after[k].0 == before[k].0 && after[k].1 == before[k].1);
                    }
                }
            }
        }
    } else {
        proof {
            if sum@.contains_key((u, v)) {
                let k = choose|k: int| 0 <= k < before.len() && (#[trigger] before[k]).0 == u && before[k].1 == v;
                if k < position {
                    assert(edge_lt((before[k].0, before[k].1), (u, v)));
                } else if k > position {
                    assert(edge_lt((before[position as int].0, before[position as int].1), (before[k].0, before[k].1)));
                    assert(!edge_lt((before[position as int].0, before[position as int].1), (u, v)));
                }
            }
            assert(!sum@.contains_key((u, v)));
            vstd::arithmetic::div_mod::lemma_small_mod(value as nat, p as nat);
            assert((0 + value as nat) % (p as nat) == value as nat);
        }
        if value != 0 {
            entries.insert(position, (u, v, value));
            proof {
                assert(next_sum == sum@.insert((u, v), value as nat));
                let after = entries@;
                assert(after =~= before.insert(position as int, (u, v, value)));
                assert forall|i: int, j: int| 0 <= i < j < after.len() implies edge_lt((after[i].0, after[i].1), (after[j].0, after[j].1)) by {
                    if j < position {
                        assert(after[i] == before[i] && after[j] == before[j]);
                    } else if j == position {
                        assert(after[i] == before[i]);
                    } else if i < position {
                        assert(after[i] == before[i] && after[j] == before[j - 1]);
                        assert(edge_lt((before[i].0, before[i].1), (u, v)));
                        assert(!edge_lt((before[j - 1].0, before[j - 1].1), (u, v)));
                    } else if i == position {
                        assert(after[j] == before[j - 1]);
                        assert(!edge_lt((before[j - 1].0, before[j - 1].1), (u, v)));
                        assert((before[j - 1].0, before[j - 1].1) != (u, v)) by {
                            assert(!sum@.contains_key((u, v)));
                            assert(sum@.contains_key((before[j - 1].0, before[j - 1].1)));
                        }
                    } else {
                        assert(after[i] == before[i - 1] && after[j] == before[j - 1]);
                    }
                }
                assert forall|i: int| 0 <= i < after.len() implies 0 < (#[trigger] after[i]).2 < p && next_sum.contains_key(
                    (after[i].0, after[i].1),
                ) && next_sum[(after[i].0, after[i].1)] == after[i].2 by {
                    if i != position {
                        let i0 = if i < position { i } else { i - 1 };
                        assert(after[i] == before[i0]);
                        assert(sum@.contains_key((before[i0].0, before[i0].1)));
                    }
                }
                assert forall|edge: (usize, usize)| #[trigger] next_sum.contains_key(edge) implies exists|i: int|
                    0 <= i < after.len() && (#[trigger] after[i]).0 == edge.0 && after[i].1 == edge.1 by {
                    if edge == (u, v) {
                        assert(after[position as int].0 == u && after[position as int].1 == v);
                    } else {
                        let k = choose|k: int| 0 <= k < before.len() && (#[trigger] before[k]).0 == edge.0 && before[k].1 == edge.1;
                        let i = if k < position { k } else { k + 1 };
                        assert(after[i] == before[k]);
                    }
                }
            }
        } else {
            proof {
                assert(next_sum =~= sum@);
            }
        }
    }
}

/// Normalizes Ripser-shaped H1 terms into a canonical cocycle on the graph
/// with `vertex_count` vertices and the listed `edges`.
///
/// Each term is `(u, v, coefficient)`. Reversed endpoints are accepted and
/// change the coefficient's sign. Terms whose edge lies above `scale` are
/// removed before the result is normalized projectively: its first
/// coefficient is one.
pub fn cocycle_from_ripser_terms(
    vertex_count: usize,
    edges: &[WeightedEdge],
    modulus: u32,
    scale: u64,
    terms: &[(usize, usize, u32)],
) -> (result: Result<Cocycle, Error>)
    requires
        simple_graph(vertex_count, edges@),
    ensures
        !supported_modulus(modulus as nat) ==> fails_with(result, "circular cocycle modulus must be a supported prime"@),
        supported_modulus(modulus as nat) && !valid_scale(scale) ==> fails_with(
            result,
            "circular cocycle scale must be finite and non-negative"@,
        ),
        supported_modulus(modulus as nat) && valid_scale(scale) && !(forall|i: int|
            0 <= i < terms@.len() ==> valid_ripser_term(#[trigger] terms@[i], vertex_count, modulus)) ==> fails_with(
            result,
            "Ripser cocycle term is not a valid oriented edge coefficient"@,
        ),
        ({
            let sum = ripser_sum(terms@, edges@, scale, modulus as nat, terms@.len() as int);
            supported_modulus(modulus as nat) && valid_scale(scale) && (forall|i: int|
                0 <= i < terms@.len() ==> valid_ripser_term(#[trigger] terms@[i], vertex_count, modulus)) ==> {
                &&& sum.dom().is_empty() ==> fails_with(result, "Ripser cocycle is zero"@)
                &&& !sum.dom().is_empty() ==> (result matches Ok(cocycle) && cocycle.modulus == modulus
                    && cocycle.scale == scale && normalized_terms(cocycle.terms@, sum, modulus as nat))
            }
        }),
{
    if !(is_prime(modulus as u64) && (modulus as u64) < MODULUS_LIMIT) {
        return Err(Error::InvalidInput(literal("circular cocycle modulus must be a supported prime")));
    }
    if !(scale < INFINITY_BITS || scale == SIGN_MASK) {
        return Err(Error::InvalidInput(literal("circular cocycle scale must be finite and non-negative")));
    }
    let p = modulus as u64;
    let ghost q = p as nat;
    let mut entries: Vec<(usize, usize, u64)> = Vec::new();
    let mut index: usize = 0;
    proof {
        assert(lists_sum(entries@, ripser_sum(terms@, edges@, scale, q, 0), q));
    }
    while index < terms.len()
        invariant
            2 <= p < MODULUS_LIMIT,
            p == modulus,
            q == p as nat,
            supported_modulus(modulus as nat),
            valid_scale(scale),
            simple_graph(vertex_count, edges@),
            index <= terms@.len(),
            forall|i: int| 0 <= i < index ==> valid_ripser_term(#[trigger] terms@[i], vertex_count, modulus),
            lists_sum(entries@, ripser_sum(terms@, edges@, scale, q, index as int), q),
        decreases terms@.len() - index,
    {
        let (a, b, c) = terms[index];
        if a == b || a >= vertex_count || b >= vertex_count || c >= modulus {
            return Err(Error::InvalidInput(literal("Ripser cocycle term is not a valid oriented edge coefficient")));
        }
        let length = listed_pair_length(edges, a, b);
        let ghost sum = ripser_sum(terms@, edges@, scale, q, index as int);
        if at_most(scale, length) && !at_most(length, scale) {
            proof {
                assert(ripser_sum(terms@, edges@, scale, q, index + 1) == sum);
            }
        } else {
            let (u, v, value) = if a < b {
                (a, b, c as u64)
            } else {
                (b, a, (p - c as u64) % p)
            };
            add_entry(&mut entries, u, v, value, p, Ghost(sum));
            proof {
                assert(ripser_sum(terms@, edges@, scale, q, index + 1) == add_coefficient(sum, (u, v), value as nat, q));
            }
        }
        index += 1;
    }
    let ghost sum = ripser_sum(terms@, edges@, scale, q, terms@.len() as int);
    if entries.len() == 0 {
        proof {
            assert(sum.dom() =~= Set::empty()) by {
                assert forall|edge: (usize, usize)| !sum.contains_key(edge) by {
                    if sum.contains_key(edge) {
                        let i = choose|i: int| 0 <= i < entries@.len() && (#[trigger] entries@[i]).0 == edge.0 && entries@[i].1 == edge.1;
                    }
                }
            }
        }
        return Err(Error::InvalidInput(literal("Ripser cocycle is zero")));
    }
    let inverse = inverse_mod(entries[0].2, p);
    let mut normalized: Vec<CocycleTerm> = Vec::new();
    let mut k: usize = 0;
    while k < entries.len()
        invariant
            2 <= p < MODULUS_LIMIT,
            q == p as nat,
            entries@.len() > 0,
            lists_sum(entries@, sum, q),
            inverse == spec_inverse_mod(entries@[0].2 as nat, q),
            inverse < p,
            k <= entries@.len(),
            normalized@.len() == k,
            forall|i: int|
                0 <= i < k ==> (#[trigger] normalized@[i]).u == entries@[i].0 && normalized@[i].v == entries@[i].1
                    && normalized@[i].coefficient as int == (entries@[i].2 * inverse) as int % (p as int),
        decreases entries@.len() - k,
    {
        let (u, v, value) = entries[k];
        proof {
            assert(entries@[k as int].2 < p);
            assert(value * inverse < 0x4000_0000) by (nonlinear_arith)
                requires
                    value < p,
                    inverse < p,
                    p < 32768,
            ;
        }
        normalized.push(CocycleTerm { u, v, coefficient: ((value * inverse) % p) as u32 });
        k += 1;
    }
    proof {
        let terms_out = normalized@;
        assert(sum[(entries@[0].0, entries@[0].1)] == entries@[0].2);
        assert forall|i: int, j: int| 0 <= i < j < terms_out.len() implies edge_lt(
            (terms_out[i].u, terms_out[i].v),
            (terms_out[j].u, terms_out[j].v),
        ) by {
            assert(terms_out[i].u == entries@[i].0 && terms_out[i].v == entries@[i].1);
            assert(terms_out[j].u == entries@[j].0 && terms_out[j].v == entries@[j].1);
        }
        assert forall|edge: (usize, usize)| sum.contains_key(edge) <==> exists|i: int|
            0 <= i < terms_out.len() && (#[trigger] terms_out[i]).u == edge.0 && terms_out[i].v == edge.1 by {
            if sum.contains_key(edge) {
                let i = choose|i: int| 0 <= i < entries@.len() && (#[trigger] entries@[i]).0 == edge.0 && entries@[i].1 == edge.1;
                assert(terms_out[i].u == edge.0 && terms_out[i].v == edge.1);
            }
            if exists|i: int| 0 <= i < terms_out.len() && (#[trigger] terms_out[i]).u == edge.0 && terms_out[i].v == edge.1 {
                let i = choose|i: int| 0 <= i < terms_out.len() && (#[trigger] terms_out[i]).u == edge.0 && terms_out[i].v == edge.1;
                assert(entries@[i].0 == edge.0 && entries@[i].1 == edge.1);
                assert(sum.contains_key((entries@[i].0, entries@[i].1)));
            }
        }
        assert forall|i: int| 0 <= i < terms_out.len() implies (#[trigger] terms_out[i]).coefficient == (sum[(
            terms_out[i].u,
            terms_out[i].v,
        )] * spec_inverse_mod(sum[(terms_out[0].u, terms_out[0].v)], q)) % q by {
            assert(sum[(entries@[i].0, entries@[i].1)] == entries@[i].2);
            assert(terms_out[0].u == entries@[0].0 && terms_out[0].v == entries@[0].1);
        }
        assert(!sum.dom().is_empty()) by {
            assert(sum.dom().contains((entries@[0].0, entries@[0].1)));
        }
    }
    Ok(Cocycle { modulus, scale, terms: normalized })
}

} // verus!
