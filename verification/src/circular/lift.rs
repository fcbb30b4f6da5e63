//! Integer lifts of a prime-field H1 cocycle: the check that a lift is
//! closed and reduces to a multiple of the field cocycle, the inference of
//! that multiple, and the search for a centered scalar lift.

use vstd::prelude::*;

use crate::classes::CocycleTerm;
use crate::error::{fails_with, fails_with_prefix, Error};
use crate::field::{inverse_mod, spec_inverse_mod};
use crate::text::literal;

use crate::graph::edges_within;

use super::{
    check_integer_triangle_closure, closed_on, edge_lt, integral_coefficient,
    integral_value, sorted_terms, IntegralCocycleTerm, INTEGRAL_COEFFICIENT_LIMIT, TRIANGLE_MESSAGE,
};

verus! {

/// Coefficient of the last source term on edge `(u, v)`, or zero.
pub open spec fn field_value(source: Seq<CocycleTerm>, u: usize, v: usize) -> int
    decreases source.len(),
{
    if source.len() == 0 {
        0
    } else if source.last().u == u && source.last().v == v {
        source.last().coefficient as int
    } else {
        field_value(source.drop_last(), u, v)
    }
}

/// A lift term on an active edge `u < v < vertex_count`, with a nonzero
/// coefficient of magnitude at most [`INTEGRAL_COEFFICIENT_LIMIT`].
pub open spec fn valid_lift_term(
    vertex_count: usize,
    active: Seq<(usize, usize)>,
    term: IntegralCocycleTerm,
) -> bool {
    &&& term.u < term.v
    &&& term.v < vertex_count
    &&& term.coefficient != 0
    &&& -INTEGRAL_COEFFICIENT_LIMIT <= term.coefficient <= INTEGRAL_COEFFICIENT_LIMIT
    &&& active.contains((term.u, term.v))
}

/// Every lift term is valid.
pub open spec fn valid_lift_terms(
    vertex_count: usize,
    active: Seq<(usize, usize)>,
    terms: Seq<IntegralCocycleTerm>,
) -> bool {
    forall|i: int| 0 <= i < terms.len() ==> #[trigger] valid_lift_term(vertex_count, active, terms[i])
}

/// On active edge `edge`, the lift agrees modulo `modulus` with the source
/// coefficient times `multiplier`.
pub open spec fn reduces_at(
    modulus: u32,
    source: Seq<CocycleTerm>,
    multiplier: u32,
    terms: Seq<IntegralCocycleTerm>,
    edge: (usize, usize),
) -> bool {
    integral_value(terms, edge.0, edge.1) % (modulus as int) == (field_value(source, edge.0, edge.1)
        * multiplier) % (modulus as int)
}

/// The lift reduces to `multiplier` times the source on every active edge.
pub open spec fn reduces_on(
    active: Seq<(usize, usize)>,
    modulus: u32,
    source: Seq<CocycleTerm>,
    multiplier: u32,
    terms: Seq<IntegralCocycleTerm>,
) -> bool {
    forall|i: int| 0 <= i < active.len() ==> #[trigger] reduces_at(modulus, source, multiplier, terms, active[i])
}

/// Everything [`check_integral_lift`] accepts.
pub open spec fn lift_accepted(
    vertex_count: usize,
    active: Seq<(usize, usize)>,
    modulus: u32,
    source: Seq<CocycleTerm>,
    multiplier: u32,
    terms: Seq<IntegralCocycleTerm>,
) -> bool {
    &&& 0 < multiplier < modulus
    &&& terms.len() > 0
    &&& sorted_terms(terms)
    &&& valid_lift_terms(vertex_count, active, terms)
    &&& closed_on(active, terms)
    &&& reduces_on(active, modulus, source, multiplier, terms)
}

/// `value mod modulus` in `0..modulus`.
fn residue(value: i64, modulus: i64) -> (r: i64)
    requires
        modulus > 0,
    ensures
        r == value % modulus,
        0 <= r < modulus,
{
    match value.checked_rem_euclid(modulus) {
        Some(r) => r,
        None => 0,
    }
}

/// Whether `edge` is one of `edges`.
fn contains_edge(edges: &[(usize, usize)], edge: (usize, usize)) -> (found: bool)
    ensures
        found == edges@.contains(edge),
{
    let mut index: usize = 0;
    while index < edges.len()
        invariant
            index <= edges@.len(),
            forall|i: int| 0 <= i < index ==> edges@[i] != edge,
        decreases edges@.len() - index,
    {
        if edges[index].0 == edge.0 && edges[index].1 == edge.1 {
            proof {
                assert(edges@[index as int] == edge);
            }
            return true;
        }
        index += 1;
    }
    false
}

/// The source coefficient on `(u, v)`: the last matching term, or zero.
fn source_coefficient(source: &[CocycleTerm], u: usize, v: usize) -> (value: u32)
    ensures
        value == field_value(source@, u, v),
{
    let mut value: u32 = 0;
    let mut index: usize = 0;
    while index < source.len()
        invariant
            index <= source@.len(),
            value == field_value(source@.take(index as int), u, v),
        decreases source@.len() - index,
    {
        proof {
            assert(source@.take(index + 1).drop_last() =~= source@.take(index as int));
        }
        if source[index].u == u && source[index].v == v {
            value = source[index].coefficient;
        }
        index += 1;
    }
    proof {
        assert(source@.take(source@.len() as int) =~= source@);
    }
    value
}

/// The first position where `terms` fails to rise strictly in edge order.
pub open spec fn rises_until(terms: Seq<IntegralCocycleTerm>, end: int) -> bool {
    forall|i: int, j: int| 0 <= i < j < end ==> edge_lt((terms[i].u, terms[i].v), (terms[j].u, terms[j].v))
}

/// Whether the terms rise strictly in edge order.
fn terms_canonical(terms: &[IntegralCocycleTerm]) -> (canonical: bool)
    ensures
        canonical == sorted_terms(terms@),
{
    let mut index: usize = 1;
    while index < terms.len()
        invariant
            1 <= index,
            index <= terms@.len() || terms@.len() == 0,
            rises_until(terms@, index as int),
        decreases terms@.len() - index,
    {
        let previous = terms[index - 1];
        let current = terms[index];
        if !(previous.u < current.u || (previous.u == current.u && previous.v < current.v)) {
            proof {
                assert(!edge_lt((terms@[index - 1].u, terms@[index - 1].v), (terms@[index as int].u, terms@[index as int].v)));
            }
            return false;
        }
        proof {
            assert forall|i: int, j: int| 0 <= i < j < index + 1 implies edge_lt(
                (terms@[i].u, terms@[i].v),
                (terms@[j].u, terms@[j].v),
            ) by {
                if j == index && i < index - 1 {
                    assert(edge_lt((terms@[i].u, terms@[i].v), (terms@[index - 1].u, terms@[index - 1].v)));
                }
            }
        }
        index += 1;
    }
    true
}

/// Whether every lift term is valid.
fn lift_terms_valid(vertex_count: usize, active: &[(usize, usize)], terms: &[IntegralCocycleTerm]) -> (valid:
    bool)
    ensures
        valid == valid_lift_terms(vertex_count, active@, terms@),
{
    let mut index: usize = 0;
    while index < terms.len()
        invariant
            index <= terms@.len(),
            forall|i: int| 0 <= i < index ==> #[trigger] valid_lift_term(vertex_count, active@, terms@[i]),
        decreases terms@.len() - index,
    {
        let term = terms[index];
        if term.u >= term.v || term.v >= vertex_count || term.coefficient == 0
            || term.coefficient < -INTEGRAL_COEFFICIENT_LIMIT || term.coefficient > INTEGRAL_COEFFICIENT_LIMIT
            || !contains_edge(active, (term.u, term.v)) {
            proof {
                assert(!valid_lift_term(vertex_count, active@, terms@[index as int]));
            }
            return false;
        }
        index += 1;
    }
    true
}

/// Checks an integer lift of a field cocycle on the graph with
/// `vertex_count` vertices and the given active edges: the multiplier is a
/// unit below the modulus, the terms are canonical and lie on active
/// edges, the lift is closed on every triangle, and on every active edge it
/// reduces to `field_multiplier` times the source coefficient. Each failed
/// rule is reported in that order.
pub fn check_integral_lift(
    vertex_count: usize,
    active: &[(usize, usize)],
    modulus: u32,
    source: &[CocycleTerm],
    field_multiplier: u32,
    terms: &[IntegralCocycleTerm],
) -> (result: Result<(), Error>)
    requires
        edges_within(vertex_count, active@),
        2 <= modulus <= 0x8000,
    ensures
        result is Ok <==> lift_accepted(vertex_count, active@, modulus, source@, field_multiplier, terms@),
        !(0 < field_multiplier < modulus) ==> fails_with(
            result,
            "circular field multiplier must be nonzero and below the modulus"@,
        ),
        0 < field_multiplier < modulus && (terms@.len() == 0 || !sorted_terms(terms@)) ==> fails_with(
            result,
            "integral cocycle terms are empty or not canonical"@,
        ),
        0 < field_multiplier < modulus && terms@.len() > 0 && sorted_terms(terms@) && !valid_lift_terms(
            vertex_count,
            active@,
            terms@,
        ) ==> fails_with(result, "integral cocycle has an invalid active-edge term"@),
        0 < field_multiplier < modulus && terms@.len() > 0 && sorted_terms(terms@) && valid_lift_terms(
            vertex_count,
            active@,
            terms@,
        ) && !closed_on(active@, terms@) ==> fails_with_prefix(result, TRIANGLE_MESSAGE@),
        0 < field_multiplier < modulus && terms@.len() > 0 && sorted_terms(terms@) && valid_lift_terms(
            vertex_count,
            active@,
            terms@,
        ) && closed_on(active@, terms@) && !reduces_on(active@, modulus, source@, field_multiplier, terms@)
            ==> fails_with(result, "integral cocycle does not reduce to the multiplied field cocycle"@),
{
    if field_multiplier == 0 || field_multiplier >= modulus {
        return Err(Error::InvalidInput(literal("circular field multiplier must be nonzero and below the modulus")));
    }
    if terms.len() == 0 || !terms_canonical(terms) {
        return Err(Error::InvalidInput(literal("integral cocycle terms are empty or not canonical")));
    }
    if !lift_terms_valid(vertex_count, active, terms) {
        return Err(Error::InvalidInput(literal("integral cocycle has an invalid active-edge term")));
    }
    proof {
        assert forall|i: int| 0 <= i < terms@.len() implies -INTEGRAL_COEFFICIENT_LIMIT <= #[trigger] terms@[i].coefficient
            <= INTEGRAL_COEFFICIENT_LIMIT by {
            assert(valid_lift_term(vertex_count, active@, terms@[i]));
        }
    }
    match check_integer_triangle_closure(vertex_count, active, terms) {
        Ok(()) => {},
        Err(error) => {
            return Err(error);
        },
    }
    let wide_modulus = modulus as i64;
    let mut index: usize = 0;
    while index < active.len()
        invariant
            index <= active@.len(),
            wide_modulus == modulus,
            2 <= modulus <= 0x8000,
            0 < field_multiplier < modulus,
            terms@.len() > 0,
            sorted_terms(terms@),
            valid_lift_terms(vertex_count, active@, terms@),
            closed_on(active@, terms@),
            forall|i: int| 0 <= i < index ==> #[trigger] reduces_at(modulus, source@, field_multiplier, terms@, active@[i]),
        decreases active@.len() - index,
    {
        let (u, v) = active[index];
        let actual = residue(integral_coefficient(terms, u, v), wide_modulus);
        let source_value = source_coefficient(source, u, v) as i64;
        proof {
            assert(source_value * field_multiplier <= 0xffff_ffff * 0x8000) by (nonlinear_arith)
                requires
                    0 <= source_value <= 0xffff_ffff,
                    field_multiplier <= 0x8000,
            ;
        }
        let expected = residue(source_value * (field_multiplier as i64), wide_modulus);
        if actual != expected {
            proof {
                assert(!reduces_at(modulus, source@, field_multiplier, terms@, active@[index as int]));
            }
            return Err(Error::InvalidInput(literal("integral cocycle does not reduce to the multiplied field cocycle")));
        }
        index += 1;
    }
    Ok(())
}

/// Coefficient of the first lift term on edge `(u, v)`, or zero.
pub open spec fn first_value(terms: Seq<IntegralCocycleTerm>, u: usize, v: usize) -> int
    decreases terms.len(),
{
    if terms.len() == 0 {
        0
    } else if terms[0].u == u && terms[0].v == v {
        terms[0].coefficient as int
    } else {
        first_value(terms.subrange(1, terms.len() as int), u, v)
    }
}

/// The coefficient of the first lift term on `(u, v)`, or zero.
fn first_coefficient(terms: &[IntegralCocycleTerm], u: usize, v: usize) -> (value: i64)
    ensures
        value == first_value(terms@, u, v),
{
    let mut index: usize = 0;
    proof {
        assert(terms@.subrange(0, terms@.len() as int) =~= terms@);
    }
    while index < terms.len()
        invariant
            index <= terms@.len(),
            first_value(terms@, u, v) == first_value(terms@.subrange(index as int, terms@.len() as int), u, v),
        decreases terms@.len() - index,
    {
        let ghost rest = terms@.subrange(index as int, terms@.len() as int);
        proof {
            assert(rest[0] == terms@[index as int]);
            assert(rest.subrange(1, rest.len() as int) =~= terms@.subrange(index + 1, terms@.len() as int));
        }
        if terms[index].u == u && terms[index].v == v {
            return terms[index].coefficient;
        }
        index += 1;
    }
    0
}

/// The field multiplier that a lift carries: its coefficient on the first
/// source edge, reduced and divided by the source coefficient there.
pub open spec fn inferred_multiplier(
    modulus: u32,
    first: CocycleTerm,
    terms: Seq<IntegralCocycleTerm>,
) -> int {
    (first_value(terms, first.u, first.v) % (modulus as int)) * spec_inverse_mod(
        first.coefficient as nat,
        modulus as nat,
    ) % (modulus as int)
}

/// Infers the field multiplier of an integral lift from the first source
/// term: the lift's coefficient there, reduced modulo the modulus, times
/// the inverse of the source coefficient. A lift that vanishes modulo the
/// modulus on that edge carries no multiplier.
pub fn infer_field_multiplier(modulus: u32, source: &[CocycleTerm], terms: &[IntegralCocycleTerm]) -> (result:
    Result<u32, Error>)
    requires
        2 <= modulus <= 0x8000,
        source@.len() > 0,
        source@[0].coefficient < modulus,
    ensures
        first_value(terms@, source@[0].u, source@[0].v) % (modulus as int) == 0 <==> result is Err,
        result is Err ==> fails_with(result, "integral cocycle has no nonzero field multiplier"@),
        result matches Ok(multiplier) ==> multiplier == inferred_multiplier(modulus, source@[0], terms@),
{
    let first = source[0];
    let integral = first_coefficient(terms, first.u, first.v);
    let wide_modulus = modulus as i64;
    let reduced = residue(integral, wide_modulus) as u64;
    if reduced == 0 {
        return Err(Error::InvalidInput(literal("integral cocycle has no nonzero field multiplier")));
    }
    let inverse = inverse_mod(first.coefficient as u64, modulus as u64);
    proof {
        assert(reduced * inverse < 0x8000 * 0x8000) by (nonlinear_arith)
            requires
                reduced < 0x8000,
                inverse < 0x8000,
        ;
    }
    let multiplier = reduced * inverse % (modulus as u64);
    Ok(multiplier as u32)
}

/// The centered representative in `(-modulus/2, modulus/2]` of
/// `coefficient * multiplier` modulo `modulus`.
pub open spec fn centered_value(coefficient: u32, multiplier: u32, modulus: u32) -> int {
    let r = (coefficient as int * multiplier as int) % (modulus as int);
    if r > modulus as int / 2 {
        r - modulus as int
    } else {
        r
    }
}

/// The centered scalar lift of `multiplier` times the source: the nonzero
/// centered values, in source order.
pub open spec fn centered_terms(source: Seq<CocycleTerm>, multiplier: u32, modulus: u32) -> Seq<
    IntegralCocycleTerm,
>
    decreases source.len(),
{
    if source.len() == 0 {
        Seq::empty()
    } else {
        let rest = centered_terms(source.drop_last(), multiplier, modulus);
        let term = source.last();
        let value = centered_value(term.coefficient, multiplier, modulus);
        if value != 0 {
            rest.push(IntegralCocycleTerm { u: term.u, v: term.v, coefficient: value as i64 })
        } else {
            rest
        }
    }
}

/// The centered scalar lift of `multiplier` times the source.
fn centered_lift(source: &[CocycleTerm], multiplier: u32, modulus: u32) -> (terms: Vec<IntegralCocycleTerm>)
    requires
        2 <= modulus <= 0x8000,
        multiplier < modulus,
    ensures
        terms@ == centered_terms(source@, multiplier, modulus),
{
    let mut terms: Vec<IntegralCocycleTerm> = Vec::new();
    let mut index: usize = 0;
    while index < source.len()
        invariant
            2 <= modulus <= 0x8000,
            multiplier < modulus,
            index <= source@.len(),
            terms@ == centered_terms(source@.take(index as int), multiplier, modulus),
        decreases source@.len() - index,
    {
        let term = source[index];
        proof {
            assert(source@.take(index + 1).drop_last() =~= source@.take(index as int));
            assert(source@.take(index + 1).last() == term);
            assert(term.coefficient as u64 * multiplier as u64 <= 0xffff_ffff * 0x8000) by (nonlinear_arith)
                requires
                    term.coefficient <= 0xffff_ffff,
                    multiplier <= 0x8000,
            ;
        }
        let reduced = (term.coefficient as u64) * (multiplier as u64) % (modulus as u64);
        let centered: i64 = if reduced > (modulus as u64) / 2 {
            reduced as i64 - modulus as i64
        } else {
            reduced as i64
        };
        if centered != 0 {
            terms.push(IntegralCocycleTerm { u: term.u, v: term.v, coefficient: centered });
        }
        index += 1;
    }
    proof {
        assert(source@.take(source@.len() as int) =~= source@);
    }
    terms
}

/// Searches the multipliers `1..modulus` in order for the first whose
/// centered scalar lift passes [`check_integral_lift`], and returns that
/// multiplier with its lift.
pub fn centered_integral_lift(
    vertex_count: usize,
    active: &[(usize, usize)],
    modulus: u32,
    source: &[CocycleTerm],
) -> (result: Result<(u32, Vec<IntegralCocycleTerm>), Error>)
    requires
        edges_within(vertex_count, active@),
        2 <= modulus <= 0x8000,
    ensures
        match result {
            Ok((multiplier, terms)) => {
                &&& 0 < multiplier < modulus
                &&& terms@ == centered_terms(source@, multiplier, modulus)
                &&& forall|k: int|
                    0 <= k < terms@.len() ==> -(modulus as int) < 2 * (#[trigger] terms@[k]).coefficient <= modulus as int
                &&& lift_accepted(vertex_count, active@, modulus, source@, multiplier, terms@)
                &&& forall|k: u32|
                    0 < k < multiplier ==> !#[trigger] lift_accepted(
                        vertex_count,
                        active@,
                        modulus,
                        source@,
                        k,
                        centered_terms(source@, k, modulus),
                    )
            },
            Err(error) => {
                &&& error.spec_message() == "no centered scalar integral lift is closed; supply a checked integral lift"@
                &&& forall|k: u32|
                    0 < k < modulus ==> !#[trigger] lift_accepted(
                        vertex_count,
                        active@,
                        modulus,
                        source@,
                        k,
                        centered_terms(source@, k, modulus),
                    )
            },
        },
{
    let mut multiplier: u32 = 1;
    while multiplier < modulus
        invariant
            edges_within(vertex_count, active@),
            2 <= modulus <= 0x8000,
            1 <= multiplier <= modulus,
            forall|k: u32|
                0 < k < multiplier ==> !#[trigger] lift_accepted(
                    vertex_count,
                    active@,
                    modulus,
                    source@,
                    k,
                    centered_terms(source@, k, modulus),
                ),
        decreases modulus - multiplier,
    {
        let terms = centered_lift(source, multiplier, modulus);
        if check_integral_lift(vertex_count, active, modulus, source, multiplier, terms.as_slice()).is_ok() {
            proof {
                lemma_centered_terms_are_centered(source@, multiplier, modulus);
                assert forall|k: int| 0 <= k < terms@.len() implies -(modulus as int) < 2 * (
                #[trigger] terms@[k]).coefficient <= modulus as int by {
                    assert(terms@[k] == centered_terms(source@, multiplier, modulus)[k]);
                }
            }
            return Ok((multiplier, terms));
        }
        multiplier += 1;
    }
    Err(Error::InvalidInput(literal("no centered scalar integral lift is closed; supply a checked integral lift")))
}

/// The centered value of `coefficient * multiplier` is congruent to it
/// modulo `modulus` and lies in `(-modulus/2, modulus/2]`.
proof fn lemma_centered_value(coefficient: u32, multiplier: u32, modulus: u32)
    requires
        modulus >= 2,
    ensures
        -(modulus as int) < 2 * centered_value(coefficient, multiplier, modulus) <= modulus as int,
        (centered_value(coefficient, multiplier, modulus) - coefficient as int * multiplier as int) % (modulus as int)
            == 0,
{
    let p = modulus as int;
    let x = coefficient as int * multiplier as int;
    let r = x % p;
    vstd::arithmetic::div_mod::lemma_fundamental_div_mod(x, p);
    vstd::arithmetic::div_mod::lemma_mod_bound(x, p);
    vstd::arithmetic::div_mod::lemma_fundamental_div_mod(p, 2);
    vstd::arithmetic::div_mod::lemma_mod_bound(p, 2);
    let q = x / p;
    if r > p / 2 {
        assert(centered_value(coefficient, multiplier, modulus) - x == p * (-(q + 1))) by (nonlinear_arith)
            requires
                x == p * q + r,
                centered_value(coefficient, multiplier, modulus) == r - p,
        ;
        vstd::arithmetic::div_mod::lemma_mod_multiples_basic(-(q + 1), p);
        assert(p * (-(q + 1)) == (-(q + 1)) * p) by (nonlinear_arith);
    } else {
        assert(centered_value(coefficient, multiplier, modulus) - x == p * (-q)) by (nonlinear_arith)
            requires
                x == p * q + r,
                centered_value(coefficient, multiplier, modulus) == r,
        ;
        vstd::arithmetic::div_mod::lemma_mod_multiples_basic(-q, p);
        assert(p * (-q) == (-q) * p) by (nonlinear_arith);
    }
}

/// Every coefficient of the centered scalar lift is nonzero, lies in
/// `(-modulus/2, modulus/2]`, and is congruent modulo `modulus` to the
/// multiplied coefficient of a source term on the same edge.
pub proof fn lemma_centered_terms_are_centered(source: Seq<CocycleTerm>, multiplier: u32, modulus: u32)
    requires
        modulus >= 2,
    ensures
        forall|k: int|
            0 <= k < centered_terms(source, multiplier, modulus).len() ==> {
                let term = #[trigger] centered_terms(source, multiplier, modulus)[k];
                &&& term.coefficient != 0
                &&& -(modulus as int) < 2 * term.coefficient <= modulus as int
                &&& exists|i: int|
                    0 <= i < source.len() && source[i].u == term.u && source[i].v == term.v && (term.coefficient
                        - source[i].coefficient as int * multiplier as int) % (modulus as int) == 0
            },
    decreases source.len(),
{
    if source.len() > 0 {
        let front = source.drop_last();
        lemma_centered_terms_are_centered(front, multiplier, modulus);
        let rest = centered_terms(front, multiplier, modulus);
        let last = source.last();
        let value = centered_value(last.coefficient, multiplier, modulus);
        lemma_centered_value(last.coefficient, multiplier, modulus);
        let all = centered_terms(source, multiplier, modulus);
        assert forall|k: int| 0 <= k < all.len() implies {
            let term = #[trigger] all[k];
            &&& term.coefficient != 0
            &&& -(modulus as int) < 2 * term.coefficient <= modulus as int
            &&& exists|i: int|
                0 <= i < source.len() && source[i].u == term.u && source[i].v == term.v && (term.coefficient
                    - source[i].coefficient as int * multiplier as int) % (modulus as int) == 0
        } by {
            if k < rest.len() {
                assert(all[k] == rest[k]);
                let term = rest[k];
                let i = choose|i: int|
                    0 <= i < front.len() && front[i].u == term.u && front[i].v == term.v && (term.coefficient
                        - front[i].coefficient as int * multiplier as int) % (modulus as int) == 0;
                assert(source[i] == front[i]);
            } else {
                assert(value != 0);
                assert(all[k].coefficient as int == value);
                assert(source[source.len() - 1] == last);
            }
        }
    }
}

/// The source coefficient read on an edge is that of the last source term
/// on exactly that edge, and zero when no source term lies on it.
pub proof fn lemma_field_value_reads_edge(source: Seq<CocycleTerm>, u: usize, v: usize)
    ensures
        (forall|i: int| 0 <= i < source.len() ==> !(#[trigger] source[i].u == u && source[i].v == v)) ==> field_value(
            source,
            u,
            v,
        ) == 0,
        forall|i: int|
            0 <= i < source.len() && #[trigger] source[i].u == u && source[i].v == v && (forall|j: int|
                i < j < source.len() ==> !(#[trigger] source[j].u == u && source[j].v == v)) ==> field_value(source, u, v)
                == source[i].coefficient,
    decreases source.len(),
{
    if source.len() > 0 {
        let front = source.drop_last();
        lemma_field_value_reads_edge(front, u, v);
        let n = source.len() - 1;
        assert(source.last() == source[n]);
        if forall|i: int| 0 <= i < source.len() ==> !(#[trigger] source[i].u == u && source[i].v == v) {
            assert(!(source[n].u == u && source[n].v == v));
            assert forall|i: int| 0 <= i < front.len() implies !(#[trigger] front[i].u == u && front[i].v == v) by {
                assert(front[i] == source[i]);
            }
        }
        assert forall|i: int|
            0 <= i < source.len() && #[trigger] source[i].u == u && source[i].v == v && (forall|j: int|
                i < j < source.len() ==> !(#[trigger] source[j].u == u && source[j].v == v)) implies field_value(
            source,
            u,
            v,
        ) == source[i].coefficient by {
            if i < n {
                assert(!(source[n].u == u && source[n].v == v));
                assert(front[i] == source[i]);
                assert forall|j: int| i < j < front.len() implies !(#[trigger] front[j].u == u && front[j].v == v) by {
                    assert(front[j] == source[j]);
                }
            }
        }
    }
}

/// A field cocycle read as an integer cocycle, term by term.
pub open spec fn integral_copy(source: Seq<CocycleTerm>) -> Seq<IntegralCocycleTerm> {
    Seq::new(
        source.len(),
        |i: int| IntegralCocycleTerm { u: source[i].u, v: source[i].v, coefficient: source[i].coefficient as i64 },
    )
}

proof fn lemma_copy_values(source: Seq<CocycleTerm>, u: usize, v: usize)
    ensures
        integral_value(integral_copy(source), u, v) == field_value(source, u, v),
    decreases source.len(),
{
    if source.len() > 0 {
        lemma_copy_values(source.drop_last(), u, v);
        assert(integral_copy(source).drop_last() =~= integral_copy(source.drop_last()));
    }
}

/// A field cocycle read as an integer cocycle reduces to itself with the
/// multiplier one on every edge; so when it is canonical, valid and
/// closed, it is an accepted lift with that multiplier.
pub proof fn lemma_copy_is_accepted(
    vertex_count: usize,
    active: Seq<(usize, usize)>,
    modulus: u32,
    source: Seq<CocycleTerm>,
)
    requires
        modulus >= 2,
        source.len() > 0,
        sorted_terms(integral_copy(source)),
        valid_lift_terms(vertex_count, active, integral_copy(source)),
        closed_on(active, integral_copy(source)),
    ensures
        forall|u: usize, v: usize| #[trigger] integral_value(integral_copy(source), u, v) == field_value(source, u, v),
        lift_accepted(vertex_count, active, modulus, source, 1, integral_copy(source)),
{
    assert forall|u: usize, v: usize| #[trigger] integral_value(integral_copy(source), u, v) == field_value(source, u, v) by {
        lemma_copy_values(source, u, v);
    }
    assert forall|i: int| 0 <= i < active.len() implies #[trigger] reduces_at(
        modulus,
        source,
        1,
        integral_copy(source),
        active[i],
    ) by {
        lemma_copy_values(source, active[i].0, active[i].1);
    }
}

} // verus!
