//! Validation of a prime-field H1 cocycle on the graph active at its scale:
//! a canonical header, canonical terms on active edges, closure on every
//! triangle, and nontriviality (no vertex potential has it as coboundary).
//!
//! The graph is given by its vertex count and the edges whose length is at
//! most the cocycle's scale, each as `(u, v)` with `u < v`; the scale itself
//! is held by its IEEE-754 bit pattern.

use rustc_hash::FxHashMap;
use vstd::prelude::*;

use std::collections::VecDeque;
use vstd::arithmetic::div_mod::{
    lemma_add_mod_noop, lemma_add_mod_noop_right, lemma_mod_add_multiples_vanish, lemma_small_mod,
};

use crate::certificate::verify::{is_negative_bits, SIGN_BIT};
use crate::diagram::INFINITY_BITS;
use crate::error::{fails_with, Error};
use crate::field::{is_prime, supported_modulus, MODULUS_LIMIT};
use crate::graph::{active_adjacency, adjacent, edges_within, first_above, is_triangle, neighbor_lists};
use crate::text::{append_decimal, decimal, literal, with_number, with_numbers};

use super::CocycleTerm;

verus! {

/// A table from oriented edges `(u, v)` to field coefficients.
pub type CoefficientTable = FxHashMap<(usize, usize), u64>;

/// The `edge -> coefficient` entries a coefficient table holds.
pub uninterp spec fn coefficient_table(table: CoefficientTable) -> Map<(usize, usize), u64>;

/// Calls `FxHashMap::default`: the new table holds no entry.
#[verifier::external_body]
pub(crate) fn new_coefficient_table() -> (created: CoefficientTable)
    ensures
        coefficient_table(created) =~= Map::empty(),
{
    FxHashMap::default()
}

/// Calls `HashMap::insert` on the table: `edge` now maps to `value`.
#[verifier::external_body]
pub(crate) fn coefficient_table_insert(table: &mut CoefficientTable, edge: (usize, usize), value: u64)
    ensures
        coefficient_table(*final(table)) == coefficient_table(*old(table)).insert(edge, value),
{
    table.insert(edge, value);
}

/// Calls `HashMap::get` on the table: the coefficient of `edge`, if any.
#[verifier::external_body]
fn coefficient_table_get(table: &CoefficientTable, edge: (usize, usize)) -> (value: Option<u64>)
    ensures
        value == if coefficient_table(*table).contains_key(edge) {
            Some(coefficient_table(*table)[edge])
        } else {
            None::<u64>
        },
{
    table.get(&edge).copied()
}

/// The coefficients of the terms, a later term on the same edge replacing
/// an earlier one.
pub open spec fn term_table(terms: Seq<CocycleTerm>) -> Map<(usize, usize), u64>
    decreases terms.len(),
{
    if terms.len() == 0 {
        Map::empty()
    } else {
        term_table(terms.drop_last()).insert(
            (terms.last().u, terms.last().v),
            terms.last().coefficient as u64,
        )
    }
}

/// The coefficient on `(u, v)`, zero where the table has none.
pub open spec fn table_value(table: Map<(usize, usize), u64>, u: usize, v: usize) -> int {
    if table.contains_key((u, v)) {
        table[(u, v)] as int
    } else {
        0
    }
}

/// The scale's bit pattern is a finite, non-negative double.
pub open spec fn valid_scale_bits(bits: u64) -> bool {
    bits % SIGN_BIT < INFINITY_BITS && !is_negative_bits(bits)
}

/// The header rules: a supported prime modulus, a finite non-negative
/// scale, and a first term with coefficient one.
pub open spec fn valid_cocycle_header(modulus: u32, scale_bits: u64, terms: Seq<CocycleTerm>) -> bool {
    &&& supported_modulus(modulus as nat)
    &&& valid_scale_bits(scale_bits)
    &&& terms.len() > 0
    &&& terms[0].coefficient == 1
}

/// Checks the cocycle header: the modulus, the scale, and the first term.
pub fn check_cocycle_header(modulus: u32, scale_bits: u64, terms: &[CocycleTerm]) -> (result: Result<
    (),
    Error,
>)
    ensures
        result is Ok <==> valid_cocycle_header(modulus, scale_bits, terms@),
        supported_modulus(modulus as nat) && !valid_scale_bits(scale_bits) ==> fails_with(
            result,
            "cocycle scale must be finite and non-negative"@,
        ),
        supported_modulus(modulus as nat) && valid_scale_bits(scale_bits) && terms@.len() == 0
            ==> fails_with(result, "cocycle has no terms"@),
        supported_modulus(modulus as nat) && valid_scale_bits(scale_bits) && terms@.len() > 0
            && terms@[0].coefficient != 1 ==> fails_with(
            result,
            "cocycle first coefficient must be one"@,
        ),
{
    if !is_prime(modulus as u64) || modulus as u64 >= MODULUS_LIMIT {
        return Err(
            Error::InvalidInput(
                with_numbers(
                    "modulus must be a prime below ",
                    MODULUS_LIMIT as usize,
                    ", got ",
                    modulus as usize,
                    "",
                ),
            ),
        );
    }
    let magnitude = scale_bits % SIGN_BIT;
    if magnitude >= INFINITY_BITS || (scale_bits >= SIGN_BIT && magnitude != 0) {
        return Err(Error::InvalidInput(literal("cocycle scale must be finite and non-negative")));
    }
    if terms.len() == 0 {
        return Err(Error::InvalidInput(literal("cocycle has no terms")));
    }
    if terms[0].coefficient != 1 {
        return Err(Error::InvalidInput(literal("cocycle first coefficient must be one")));
    }
    Ok(())
}

/// `first` comes strictly before `second` in endpoint order.
pub open spec fn endpoint_lt(first: (usize, usize), second: (usize, usize)) -> bool {
    first.0 < second.0 || (first.0 == second.0 && first.1 < second.1)
}

/// One term on its own: an active edge `u < v < vertex_count` with a
/// coefficient in `1..modulus`.
pub open spec fn valid_cocycle_term(
    vertex_count: usize,
    active: Seq<(usize, usize)>,
    modulus: u32,
    term: CocycleTerm,
) -> bool {
    &&& term.u < term.v
    &&& term.v < vertex_count
    &&& 0 < term.coefficient < modulus
    &&& active.contains((term.u, term.v))
}

/// Every term is valid and the terms rise strictly in endpoint order.
pub open spec fn valid_cocycle_terms(
    vertex_count: usize,
    active: Seq<(usize, usize)>,
    modulus: u32,
    terms: Seq<CocycleTerm>,
) -> bool {
    &&& forall|i: int| 0 <= i < terms.len() ==> #[trigger] valid_cocycle_term(vertex_count, active, modulus, terms[i])
    &&& forall|i: int|
        0 < i < terms.len() ==> endpoint_lt((terms[i - 1].u, terms[i - 1].v), (#[trigger] terms[i].u, terms[i].v))
}

/// Whether `edge` is one of `edges`.
fn has_edge(edges: &[(usize, usize)], edge: (usize, usize)) -> (found: bool)
    ensures
        found == edges@.contains(edge),
{
    let mut index: usize = 0;
    while index < edges.len()
        invariant
            index <= edges@.len(),
            forall|i: int| 0 <= i < index ==> edges@[i] != edge,
        decreases edges@.len() - index,
    {
        if edges[index].0 == edge.0 && edges[index].1 == edge.1 {
            proof {
                assert(edges@[index as int] == edge);
            }
            return true;
        }
        index += 1;
    }
    false
}

/// The error text of a term with an invalid edge.
fn invalid_edge_message(index: usize, u: usize, v: usize) -> (message: String)
    ensures
        message@ == "cocycle term "@ + decimal(index as nat) + " has invalid edge ("@ + decimal(u as nat) + ", "@
            + decimal(v as nat) + ")"@,
{
    let mut message = with_numbers("cocycle term ", index, " has invalid edge (", u, ", ");
    append_decimal(&mut message, v);
    message.append(")");
    message
}

/// Checks term `index` of a cocycle, given the edge of the term before it.
pub fn check_cocycle_term(
    vertex_count: usize,
    active: &[(usize, usize)],
    modulus: u32,
    index: usize,
    term: CocycleTerm,
    previous: Option<(usize, usize)>,
) -> (result: Result<(), Error>)
    ensures
        result is Ok <==> valid_cocycle_term(vertex_count, active@, modulus, term) && match previous {
            Some(edge) => endpoint_lt(edge, (term.u, term.v)),
            None => true,
        },
        term.u < term.v < vertex_count && 0 < term.coefficient < modulus && (previous matches Some(edge)
            && !endpoint_lt(edge, (term.u, term.v))) ==> fails_with(
            result,
            "cocycle terms are not in strict endpoint order"@,
        ),
{
    if term.u >= term.v || term.v >= vertex_count {
        return Err(Error::InvalidInput(invalid_edge_message(index, term.u, term.v)));
    }
    if term.coefficient == 0 || term.coefficient >= modulus {
        let mut message = with_numbers(
            "cocycle term ",
            index,
            " has coefficient ",
            term.coefficient as usize,
            " outside 1..",
        );
        let digits = modulus.to_string();
        message.append(digits.as_str());
        return Err(Error::InvalidInput(message));
    }
    match previous {
        Some(edge) => {
            if !(edge.0 < term.u || (edge.0 == term.u && edge.1 < term.v)) {
                return Err(Error::InvalidInput(literal("cocycle terms are not in strict endpoint order")));
            }
        },
        None => {},
    }
    if !has_edge(active, (term.u, term.v)) {
        return Err(
            Error::InvalidInput(with_numbers("cocycle term (", term.u, ", ", term.v, ") is absent at its scale")),
        );
    }
    Ok(())
}

/// Checks every term in order and collects the coefficients by edge.
pub fn checked_cocycle_terms(
    vertex_count: usize,
    active: &[(usize, usize)],
    modulus: u32,
    terms: &[CocycleTerm],
) -> (result: Result<CoefficientTable, Error>)
    ensures
        result is Ok <==> valid_cocycle_terms(vertex_count, active@, modulus, terms@),
        result matches Ok(table) ==> coefficient_table(table) == term_table(terms@),
{
    let mut table = new_coefficient_table();
    let mut previous: Option<(usize, usize)> = None;
    let mut index: usize = 0;
    while index < terms.len()
        invariant
            index <= terms@.len(),
            valid_cocycle_terms(vertex_count, active@, modulus, terms@.take(index as int)),
            coefficient_table(table) == term_table(terms@.take(index as int)),
            index == 0 ==> previous is None,
            index > 0 ==> previous == Some((terms@[index - 1].u, terms@[index - 1].v)),
        decreases terms@.len() - index,
    {
        let term = terms[index];
        let checked = check_cocycle_term(vertex_count, active, modulus, index, term, previous);
        if checked.is_err() {
            proof {
                let prefix = terms@.take(index + 1);
                assert(prefix[index as int] == term);
                if valid_cocycle_terms(vertex_count, active@, modulus, terms@) {
                    assert(valid_cocycle_term(vertex_count, active@, modulus, terms@[index as int]));
                    if index > 0 {
                        assert(endpoint_lt(
                            (terms@[index - 1].u, terms@[index - 1].v),
                            (terms@[index as int].u, terms@[index as int].v),
                        ));
                    }
                }
            }
            return Err(checked.unwrap_err());
        }
        coefficient_table_insert(&mut table, (term.u, term.v), term.coefficient as u64);
        proof {
            let prefix = terms@.take(index + 1);
            assert(prefix.drop_last() =~= terms@.take(index as int));
            assert(prefix.last() == term);
            assert forall|i: int| 0 <= i < prefix.len() implies #[trigger] valid_cocycle_term(
                vertex_count,
                active@,
                modulus,
                prefix[i],
            ) by {
                if i < index {
                    assert(prefix[i] == terms@.take(index as int)[i]);
                }
            }
            assert forall|i: int| 0 < i < prefix.len() implies endpoint_lt(
                (prefix[i - 1].u, prefix[i - 1].v),
                (#[trigger] prefix[i].u, prefix[i].v),
            ) by {
                if i < index {
                    assert(prefix[i] == terms@.take(index as int)[i]);
                    assert(prefix[i - 1] == terms@.take(index as int)[i - 1]);
                }
            }
        }
        previous = Some((term.u, term.v));
        index += 1;
    }
    proof {
        assert(terms@.take(terms@.len() as int) =~= terms@);
    }
    Ok(table)
}

/// Every coefficient of the table lies below the modulus.
pub open spec fn table_below(table: Map<(usize, usize), u64>, modulus: u32) -> bool {
    forall|edge: (usize, usize)| #[trigger] table.contains_key(edge) ==> table[edge] < modulus
}

/// The field cocycle sums to zero around `(u, v, w)` if that is a
/// triangle of the graph.
pub open spec fn field_closed_at(
    edges: Seq<(usize, usize)>,
    table: Map<(usize, usize), u64>,
    modulus: u32,
    u: usize,
    v: usize,
    w: usize,
) -> bool {
    is_triangle(edges, u, v, w) ==> (table_value(table, u, v) + table_value(table, v, w) + modulus
        - table_value(table, u, w)) % (modulus as int) == 0
}

/// The field cocycle sums to zero around every triangle of the graph.
pub open spec fn field_closed_on(edges: Seq<(usize, usize)>, table: Map<(usize, usize), u64>, modulus: u32) -> bool {
    forall|u: usize, v: usize, w: usize| #[trigger] field_closed_at(edges, table, modulus, u, v, w)
}

/// The coefficient on `(u, v)`, zero where the table has none.
pub(crate) fn table_coefficient(table: &CoefficientTable, u: usize, v: usize) -> (value: u64)
    ensures
        value == table_value(coefficient_table(*table), u, v),
{
    match coefficient_table_get(table, (u, v)) {
        Some(value) => value,
        None => 0,
    }
}

/// The text refusing a cocycle that is not closed on the triangle
/// `(u, v, w)`.
pub open spec fn open_triangle_text(u: usize, v: usize, w: usize) -> Seq<char> {
    "cocycle is not closed on triangle ("@ + decimal(u as nat) + ", "@ + decimal(v as nat) + ", "@ + decimal(w as nat)
        + ")"@
}

/// The error is the refusal of a triangle `(u, v, w)` on which the cocycle
/// is not closed.
pub open spec fn open_triangle_error(
    edges: Seq<(usize, usize)>,
    table: Map<(usize, usize), u64>,
    modulus: u32,
    error: Error,
) -> bool {
    exists|u: usize, v: usize, w: usize|
        !#[trigger] field_closed_at(edges, table, modulus, u, v, w) && error.spec_message() == open_triangle_text(u, v, w)
}

/// The error text naming the open triangle `(u, v, w)`.
fn open_triangle_message(u: usize, v: usize, w: usize) -> (message: String)
    ensures
        message@ == open_triangle_text(u, v, w),
{
    let mut message = with_numbers("cocycle is not closed on triangle (", u, ", ", v, ", ");
    append_decimal(&mut message, w);
    message.append(")");
    message
}

/// Checks that the cocycle sums to zero modulo `modulus` around the
/// triangle `u < v < w`.
fn check_triangle(table: &CoefficientTable, modulus: u32, u: usize, v: usize, w: usize) -> (result: Result<
    (),
    Error,
>)
    requires
        modulus > 0,
        table_below(coefficient_table(*table), modulus),
    ensures
        result is Ok <==> (table_value(coefficient_table(*table), u, v) + table_value(
            coefficient_table(*table),
            v,
            w,
        ) + modulus - table_value(coefficient_table(*table), u, w)) % (modulus as int) == 0,
        result matches Err(error) ==> error.spec_message() == open_triangle_text(u, v, w),
{
    let uv = table_coefficient(table, u, v);
    let uw = table_coefficient(table, u, w);
    let vw = table_coefficient(table, v, w);
    let wide = modulus as u64;
    if (uv + vw + wide - uw) % wide != 0 {
        return Err(Error::InvalidInput(open_triangle_message(u, v, w)));
    }
    Ok(())
}

/// Checks every triangle on the edge `u < v`: walks the neighbors above
/// `v` of both endpoints together and checks each common one.
fn check_edge_triangles(
    vertex_count: usize,
    edges: Ghost<Seq<(usize, usize)>>,
    adjacency: &Vec<Vec<usize>>,
    table: &CoefficientTable,
    modulus: u32,
    u: usize,
    v: usize,
) -> (result: Result<(), Error>)
    requires
        neighbor_lists(vertex_count, edges@, adjacency@),
        modulus > 0,
        table_below(coefficient_table(*table), modulus),
        u < v < vertex_count,
        adjacent(edges@, u, v),
    ensures
        result is Ok <==> forall|w: usize| #[trigger] field_closed_at(edges@, coefficient_table(*table), modulus, u, v, w),
        result matches Err(error) ==> open_triangle_error(edges@, coefficient_table(*table), modulus, error),
{
    let ghost map = coefficient_table(*table);
    let first = &adjacency[u];
    let second = &adjacency[v];
    let mut a = first_above(first.as_slice(), v);
    let mut b = first_above(second.as_slice(), v);
    let ghost a0 = a;
    let ghost b0 = b;
    while a < first.len() && b < second.len()
        invariant
            neighbor_lists(vertex_count, edges@, adjacency@),
            modulus > 0,
            table_below(map, modulus),
            map == coefficient_table(*table),
            u < v < vertex_count,
            adjacent(edges@, u, v),
            first@ == adjacency@[u as int]@,
            second@ == adjacency@[v as int]@,
            a0 <= a <= first@.len(),
            b0 <= b <= second@.len(),
            forall|i: int| 0 <= i < a0 ==> first@[i] <= v,
            forall|i: int| a0 <= i < first@.len() ==> first@[i] > v,
            forall|j: int| 0 <= j < b0 ==> second@[j] <= v,
            forall|j: int| b0 <= j < second@.len() ==> second@[j] > v,
            forall|i: int, j: int|
                #![trigger first@[i], second@[j]]
                a0 <= i < a && b0 <= j < second@.len() && first@[i] == second@[j] ==> field_closed_at(
                    edges@,
                    map,
                    modulus,
                    u,
                    v,
                    first@[i],
                ),
            forall|i: int, j: int|
                #![trigger first@[i], second@[j]]
                a0 <= i < first@.len() && b0 <= j < b && first@[i] == second@[j] ==> field_closed_at(
                    edges@,
                    map,
                    modulus,
                    u,
                    v,
                    second@[j],
                ),
        decreases first@.len() - a + second@.len() - b,
    {
        let left = first[a];
        let right = second[b];
        if left < right {
            a += 1;
        } else if left > right {
            b += 1;
        } else {
            let checked = check_triangle(table, modulus, u, v, left);
            if checked.is_err() {
                proof {
                    assert(adjacency@[u as int]@.contains(left));
                    assert(adjacency@[v as int]@.contains(left));
                    assert(!field_closed_at(edges@, map, modulus, u, v, left));
                }
                return checked;
            }
            a += 1;
            b += 1;
        }
    }
    proof {
        assert forall|w: usize| #[trigger] field_closed_at(edges@, map, modulus, u, v, w) by {
            if is_triangle(edges@, u, v, w) {
                assert(adjacency@[u as int]@.contains(w));
                assert(adjacency@[v as int]@.contains(w));
                let i = choose|i: int| 0 <= i < first@.len() && first@[i] == w;
                let j = choose|j: int| 0 <= j < second@.len() && second@[j] == w;
                assert(first@[i] == second@[j]);
            }
        }
    }
    Ok(())
}

/// Checks every triangle of the graph, edge by edge in vertex order.
fn check_field_triangle_closure(
    vertex_count: usize,
    edges: Ghost<Seq<(usize, usize)>>,
    adjacency: &Vec<Vec<usize>>,
    table: &CoefficientTable,
    modulus: u32,
) -> (result: Result<(), Error>)
    requires
        edges_within(vertex_count, edges@),
        neighbor_lists(vertex_count, edges@, adjacency@),
        modulus > 0,
        table_below(coefficient_table(*table), modulus),
    ensures
        result is Ok <==> field_closed_on(edges@, coefficient_table(*table), modulus),
        result matches Err(error) ==> open_triangle_error(edges@, coefficient_table(*table), modulus, error),
{
    let ghost map = coefficient_table(*table);
    let mut u: usize = 0;
    while u < vertex_count
        invariant
            edges_within(vertex_count, edges@),
            neighbor_lists(vertex_count, edges@, adjacency@),
            modulus > 0,
            table_below(map, modulus),
            map == coefficient_table(*table),
            u <= vertex_count,
            forall|a: usize, b: usize, c: usize| a < u ==> #[trigger] field_closed_at(edges@, map, modulus, a, b, c),
        decreases vertex_count - u,
    {
        let neighbors = &adjacency[u];
        let mut j: usize = 0;
        while j < neighbors.len()
            invariant
                edges_within(vertex_count, edges@),
                neighbor_lists(vertex_count, edges@, adjacency@),
                modulus > 0,
                table_below(map, modulus),
                map == coefficient_table(*table),
                u < vertex_count,
                neighbors@ == adjacency@[u as int]@,
                j <= neighbors@.len(),
                forall|a: usize, b: usize, c: usize| a < u ==> #[trigger] field_closed_at(edges@, map, modulus, a, b, c),
                forall|i: int, c: usize| 0 <= i < j ==> #[trigger] field_closed_at(edges@, map, modulus, u, neighbors@[i], c),
            decreases neighbors@.len() - j,
        {
            let v = neighbors[j];
            proof {
                assert(adjacency@[u as int]@.contains(v));
                let i = choose|i: int| 0 <= i < edges@.len() && (#[trigger] edges@[i] == (u, v) || edges@[i] == (v, u));
                assert(edges_within(vertex_count, edges@));
            }
            if v > u {
                let checked = check_edge_triangles(vertex_count, edges, adjacency, table, modulus, u, v);
                if checked.is_err() {
                    return checked;
                }
            }
            j += 1;
        }
        proof {
            assert forall|a: usize, b: usize, c: usize| a < u + 1 implies #[trigger] field_closed_at(edges@, map, modulus, a, b, c) by {
                if a == u && is_triangle(edges@, a, b, c) {
                    assert(adjacency@[u as int]@.contains(b));
                    let i = choose|i: int| 0 <= i < neighbors@.len() && neighbors@[i] == b;
                    assert(field_closed_at(edges@, map, modulus, u, neighbors@[i], c));
                }
            }
        }
        u += 1;
    }
    proof {
        assert forall|a: usize, b: usize, c: usize| #[trigger] field_closed_at(edges@, map, modulus, a, b, c) by {
            if a >= vertex_count && is_triangle(edges@, a, b, c) {
                let i = choose|i: int| 0 <= i < edges@.len() && (#[trigger] edges@[i] == (a, b) || edges@[i] == (b, a));
            }
        }
    }
    Ok(())
}

/// The cocycle's value on `from -> to`: the coefficient on an increasing
/// edge, its negation modulo `modulus` on a decreasing one.
pub open spec fn oriented_table_value(
    table: Map<(usize, usize), u64>,
    from: usize,
    to: usize,
    modulus: u32,
) -> int {
    if from < to {
        table_value(table, from, to)
    } else {
        let value = table_value(table, to, from);
        if value == 0 {
            0
        } else {
            modulus - value
        }
    }
}

/// `potential` assigns each vertex a value whose difference across every
/// edge `u -> v` is the cocycle's value there, modulo `modulus`.
pub open spec fn is_vertex_potential(
    vertex_count: usize,
    edges: Seq<(usize, usize)>,
    table: Map<(usize, usize), u64>,
    modulus: u32,
    potential: Seq<int>,
) -> bool {
    &&& potential.len() == vertex_count
    &&& forall|i: int|
        0 <= i < edges.len() ==> (potential[(#[trigger] edges[i]).0 as int] + oriented_table_value(
            table,
            edges[i].0,
            edges[i].1,
            modulus,
        )) % (modulus as int) == potential[edges[i].1 as int] % (modulus as int)
}

/// The cocycle is the coboundary of some vertex potential.
pub open spec fn has_vertex_potential(
    vertex_count: usize,
    edges: Seq<(usize, usize)>,
    table: Map<(usize, usize), u64>,
    modulus: u32,
) -> bool {
    exists|potential: Seq<int>| #[trigger] is_vertex_potential(vertex_count, edges, table, modulus, potential)
}

/// The cocycle's value on `from -> to`.
pub(crate) fn oriented_coefficient(table: &CoefficientTable, from: usize, to: usize, modulus: u32) -> (value: u64)
    requires
        modulus > 0,
        table_below(coefficient_table(*table), modulus),
    ensures
        value == oriented_table_value(coefficient_table(*table), from, to, modulus),
        value < modulus,
{
    if from < to {
        table_coefficient(table, from, to)
    } else {
        let value = table_coefficient(table, to, from);
        if value == 0 {
            0
        } else {
            modulus as u64 - value
        }
    }
}

proof fn lemma_mod_shift(a: int, b: int, c: int, m: int)
    requires
        m > 0,
        a % m == b % m,
    ensures
        (a + c) % m == (b + c) % m,
{
    lemma_add_mod_noop(a, c, m);
    lemma_add_mod_noop(b, c, m);
}

/// Across an edge, a potential steps by the cocycle's value, in either
/// orientation.
proof fn lemma_potential_step(
    vertex_count: usize,
    edges: Seq<(usize, usize)>,
    table: Map<(usize, usize), u64>,
    modulus: u32,
    q: Seq<int>,
    u: usize,
    v: usize,
)
    requires
        modulus > 0,
        table_below(table, modulus),
        is_vertex_potential(vertex_count, edges, table, modulus, q),
        adjacent(edges, u, v),
    ensures
        (q[u as int] + oriented_table_value(table, u, v, modulus)) % (modulus as int) == q[v as int] % (
        modulus as int),
{
    let m = modulus as int;
    let i = choose|i: int| 0 <= i < edges.len() && (#[trigger] edges[i] == (u, v) || edges[i] == (v, u));
    if edges[i] != (u, v) {
        assert(edges[i] == (v, u));
        assert((q[v as int] + oriented_table_value(table, v, u, modulus)) % m == q[u as int] % m);
        let forward = oriented_table_value(table, u, v, modulus);
        let backward = oriented_table_value(table, v, u, modulus);
        if u < v {
            let c = table_value(table, u, v);
            if c != 0 {
                assert(table.contains_key((u, v)));
                assert(backward == m - c);
                lemma_mod_shift(q[v as int] + backward, q[u as int], c, m);
                lemma_mod_add_multiples_vanish(q[v as int], m);
            }
        } else if u > v {
            let c = table_value(table, v, u);
            if c != 0 {
                assert(table.contains_key((v, u)));
                assert(forward == m - c);
                lemma_mod_shift(q[v as int] + backward, q[u as int], m - c, m);
                lemma_mod_add_multiples_vanish(q[v as int], m);
            }
        }
    }
}

/// A vertex reached across an edge inherits the forced offset.
proof fn lemma_forced_step(qr: int, pu: int, o: int, qu: int, qv: int, m: int)
    requires
        m > 0,
        (qr + pu) % m == qu % m,
        (qu + o) % m == qv % m,
    ensures
        (qr + (pu + o) % m) % m == qv % m,
{
    lemma_add_mod_noop_right(qr, pu + o, m);
    lemma_mod_shift(qr + pu, qu, o, m);
}

/// Two forced offsets across an edge agree with the step.
proof fn lemma_forced_agree(qr: int, pu: int, pv: int, o: int, qu: int, qv: int, m: int)
    requires
        m > 0,
        0 <= pv < m,
        (qr + pu) % m == qu % m,
        (qr + pv) % m == qv % m,
        (qu + o) % m == qv % m,
    ensures
        pv == (pu + o) % m,
{
    lemma_mod_shift(qr + pu, qu, o, m);
    lemma_mod_shift(qr + pu + o, qr + pv, -qr, m);
    lemma_small_mod(pv as nat, m as nat);
}

/// Vertices still without a potential.
pub(crate) open spec fn unassigned(potential: Seq<Option<u64>>) -> nat
    decreases potential.len(),
{
    if potential.len() == 0 {
        0
    } else {
        unassigned(potential.drop_last()) + if potential.last() is None {
            1nat
        } else {
            0nat
        }
    }
}

pub(crate) proof fn lemma_assign_one(potential: Seq<Option<u64>>, index: int, value: u64)
    requires
        0 <= index < potential.len(),
        potential[index] is None,
    ensures
        unassigned(potential.update(index, Some(value))) + 1 == unassigned(potential),
    decreases potential.len(),
{
    let updated = potential.update(index, Some(value));
    if index < potential.len() - 1 {
        assert(updated.drop_last() =~= potential.drop_last().update(index, Some(value)));
        lemma_assign_one(potential.drop_last(), index, value);
    } else {
        assert(updated.drop_last() =~= potential.drop_last());
    }
}

/// For every potential of the cocycle, each assigned vertex sits at its
/// recorded offset from its root.
spec fn all_forced(
    vertex_count: usize,
    edges: Seq<(usize, usize)>,
    table: Map<(usize, usize), u64>,
    modulus: u32,
    potential: Seq<Option<u64>>,
    roots: Seq<int>,
) -> bool {
    forall|q: Seq<int>|
        #[trigger] is_vertex_potential(vertex_count, edges, table, modulus, q) ==> forall|x: int|
            0 <= x < vertex_count && #[trigger] potential[x] is Some ==> (q[roots[x]] + potential[x]->0) % (
            modulus as int) == q[x] % (modulus as int)
}

/// Every finished vertex has each neighbor assigned, in its component and
/// at the stepped value.
spec fn finished_closed(
    vertex_count: usize,
    adjacency: Seq<Vec<usize>>,
    table: Map<(usize, usize), u64>,
    modulus: u32,
    potential: Seq<Option<u64>>,
    roots: Seq<int>,
    done: Seq<bool>,
) -> bool {
    forall|x: int, y: usize|
        0 <= x < vertex_count && done[x] && #[trigger] adjacency[x]@.contains(y) ==> {
            &&& y < vertex_count
            &&& potential[y as int] is Some
            &&& roots[y as int] == roots[x]
            &&& (potential[x]->0 + oriented_table_value(table, x as usize, y, modulus)) % (modulus as int)
                == potential[y as int]->0
        }
}

/// Shapes of the search state.
spec fn search_shape(
    vertex_count: usize,
    modulus: u32,
    potential: Seq<Option<u64>>,
    roots: Seq<int>,
    done: Seq<bool>,
) -> bool {
    &&& potential.len() == vertex_count
    &&& roots.len() == vertex_count
    &&& done.len() == vertex_count
    &&& forall|x: int|
        0 <= x < vertex_count && #[trigger] potential[x] is Some ==> potential[x]->0 < modulus && 0 <= roots[x]
            < vertex_count
    &&& forall|x: int| 0 <= x < vertex_count && #[trigger] done[x] ==> potential[x] is Some
}

/// Whether the cocycle is the coboundary of a vertex potential: assigns
/// potentials breadth-first from each unassigned root and reports whether
/// every edge agrees with them.
fn is_vertex_coboundary(
    vertex_count: usize,
    edges: Ghost<Seq<(usize, usize)>>,
    adjacency: &Vec<Vec<usize>>,
    table: &CoefficientTable,
    modulus: u32,
) -> (coboundary: bool)
    requires
        edges_within(vertex_count, edges@),
        neighbor_lists(vertex_count, edges@, adjacency@),
        modulus > 0,
        table_below(coefficient_table(*table), modulus),
    ensures
        coboundary == has_vertex_potential(vertex_count, edges@, coefficient_table(*table), modulus),
{
    let ghost map = coefficient_table(*table);
    let ghost m = modulus as int;
    let wide = modulus as u64;
    let mut potential: Vec<Option<u64>> = Vec::new();
    while potential.len() < vertex_count
        invariant
            potential@.len() <= vertex_count,
            forall|x: int| 0 <= x < potential@.len() ==> #[trigger] potential@[x] is None,
        decreases vertex_count - potential@.len(),
    {
        potential.push(None);
    }
    let ghost mut roots: Seq<int> = Seq::new(vertex_count as nat, |i: int| 0int);
    let ghost mut done: Seq<bool> = Seq::new(vertex_count as nat, |i: int| false);
    let mut queue: VecDeque<usize> = VecDeque::new();
    let mut root: usize = 0;
    while root < vertex_count
        invariant
            edges_within(vertex_count, edges@),
            neighbor_lists(vertex_count, edges@, adjacency@),
            modulus > 0,
            wide == modulus,
            m == modulus,
            table_below(map, modulus),
            map == coefficient_table(*table),
            root <= vertex_count,
            queue@.len() == 0,
            search_shape(vertex_count, modulus, potential@, roots, done),
            all_forced(vertex_count, edges@, map, modulus, potential@, roots),
            finished_closed(vertex_count, adjacency@, map, modulus, potential@, roots, done),
            forall|x: int| 0 <= x < vertex_count && #[trigger] potential@[x] is Some ==> done[x],
            forall|x: int| 0 <= x < root ==> #[trigger] potential@[x] is Some,
        decreases vertex_count - root,
    {
        if potential[root].is_none() {
            proof {
                lemma_assign_one(potential@, root as int, 0);
            }
            let ghost before = potential@;
            potential.set(root, Some(0));
            proof {
                roots = roots.update(root as int, root as int);
                assert forall|q: Seq<int>| #[trigger] is_vertex_potential(vertex_count, edges@, map, modulus, q) implies forall|x: int|
                    0 <= x < vertex_count && #[trigger] potential@[x] is Some ==> (q[roots[x]] + potential@[x]->0) % m == q[x] % m by {
                    assert forall|x: int| 0 <= x < vertex_count && #[trigger] potential@[x] is Some implies (q[roots[x]] + potential@[x]->0) % m == q[x] % m by {
                        if x != root {
                            assert(before[x] is Some);
                        }
                    }
                }
            }
            queue.push_back(root);
            proof {
                assert(queue@[0] == root);
                assert forall|x: int| 0 <= x < vertex_count && #[trigger] potential@[x] is Some && !done[x] implies queue@.contains(x as usize) by {
                    if x != root {
                        assert(before[x] is Some);
                    }
                }
            }
            while queue.len() > 0
                invariant
                    edges_within(vertex_count, edges@),
                    neighbor_lists(vertex_count, edges@, adjacency@),
                    modulus > 0,
                    wide == modulus,
                    m == modulus,
                    table_below(map, modulus),
                    map == coefficient_table(*table),
                    root < vertex_count,
                    search_shape(vertex_count, modulus, potential@, roots, done),
                    all_forced(vertex_count, edges@, map, modulus, potential@, roots),
                    finished_closed(vertex_count, adjacency@, map, modulus, potential@, roots, done),
                    forall|i: int|
                        0 <= i < queue@.len() ==> #[trigger] queue@[i] < vertex_count && potential@[queue@[i] as int] is Some
                            && !done[queue@[i] as int] && roots[queue@[i] as int] == root,
                    forall|x: int|
                        0 <= x < vertex_count && #[trigger] potential@[x] is Some && !done[x] ==> queue@.contains(x as usize),
                    forall|x: int|
                        0 <= x < vertex_count && #[trigger] potential@[x] is Some && roots[x] != root ==> done[x],
                    forall|x: int| 0 <= x <= root ==> #[trigger] potential@[x] is Some,
                    forall|i: int, j: int| 0 <= i < j < queue@.len() ==> queue@[i] != queue@[j],
                decreases 2 * unassigned(potential@) + queue@.len(),
            {
                let ghost measure = 2 * unassigned(potential@) + queue@.len();
                let ghost waiting = queue@;
                let u = match queue.pop_front() {
                    Some(u) => u,
                    None => 0,
                };
                proof {
                    assert(u == waiting[0]);
                    assert(queue@ =~= waiting.subrange(1, waiting.len() as int));
                    assert forall|x: int| 0 <= x < vertex_count && #[trigger] potential@[x] is Some && !done[x] && x != u implies queue@.contains(x as usize) by {
                        assert(waiting.contains(x as usize));
                        let i = choose|i: int| 0 <= i < waiting.len() && waiting[i] == x as usize;
                        assert(i != 0);
                        assert(queue@[i - 1] == x as usize);
                    }
                    assert forall|i: int| 0 <= i < queue@.len() implies #[trigger] queue@[i] != u by {
                        assert(waiting[i + 1] == queue@[i]);
                    }
                }
                let base = match potential[u] {
                    Some(value) => value,
                    None => 0,
                };
                let neighbors = &adjacency[u];
                let mut k: usize = 0;
                while k < neighbors.len()
                    invariant
                        edges_within(vertex_count, edges@),
                        neighbor_lists(vertex_count, edges@, adjacency@),
                        modulus > 0,
                        wide == modulus,
                        m == modulus,
                        table_below(map, modulus),
                        map == coefficient_table(*table),
                        root < vertex_count,
                        u < vertex_count,
                        neighbors@ == adjacency@[u as int]@,
                        k <= neighbors@.len(),
                        potential@[u as int] == Some(base),
                        !done[u as int],
                        roots[u as int] == root,
                        2 * unassigned(potential@) + queue@.len() < measure,
                        search_shape(vertex_count, modulus, potential@, roots, done),
                        all_forced(vertex_count, edges@, map, modulus, potential@, roots),
                        finished_closed(vertex_count, adjacency@, map, modulus, potential@, roots, done),
                        forall|i: int|
                            0 <= i < queue@.len() ==> #[trigger] queue@[i] < vertex_count && potential@[queue@[i] as int] is Some
                                && !done[queue@[i] as int] && roots[queue@[i] as int] == root,
                        forall|x: int|
                            0 <= x < vertex_count && #[trigger] potential@[x] is Some && !done[x] && x != u ==> queue@.contains(x as usize),
                        forall|x: int|
                            0 <= x < vertex_count && #[trigger] potential@[x] is Some && roots[x] != root ==> done[x],
                        forall|x: int| 0 <= x <= root ==> #[trigger] potential@[x] is Some,
                        forall|i: int, j: int| 0 <= i < j < queue@.len() ==> queue@[i] != queue@[j],
                        forall|i: int| 0 <= i < queue@.len() ==> #[trigger] queue@[i] != u,
                        forall|i: int|
                            0 <= i < k ==> {
                                let y = #[trigger] neighbors@[i];
                                &&& y < vertex_count
                                &&& potential@[y as int] is Some
                                &&& roots[y as int] == root
                                &&& (base + oriented_table_value(map, u, y, modulus)) % m == potential@[y as int]->0
                            },
                    decreases neighbors@.len() - k,
                {
                    let v = neighbors[k];
                    proof {
                        assert(adjacency@[u as int]@.contains(v));
                        let i = choose|i: int| 0 <= i < edges@.len() && (#[trigger] edges@[i] == (u, v) || edges@[i] == (v, u));
                        assert(edges_within(vertex_count, edges@));
                    }
                    let step = oriented_coefficient(table, u, v, modulus);
                    let expected = (base + step) % wide;
                    match potential[v] {
                        None => {
                            proof {
                                lemma_assign_one(potential@, v as int, expected);
                            }
                            let ghost before = potential@;
                            potential.set(v, Some(expected));
                            proof {
                                roots = roots.update(v as int, root as int);
                                assert forall|q: Seq<int>| #[trigger] is_vertex_potential(vertex_count, edges@, map, modulus, q) implies forall|x: int|
                                    0 <= x < vertex_count && #[trigger] potential@[x] is Some ==> (q[roots[x]] + potential@[x]->0) % m == q[x] % m by {
                                    assert(before[u as int] is Some);
                                    lemma_potential_step(vertex_count, edges@, map, modulus, q, u, v);
                                    lemma_forced_step(q[root as int], base as int, step as int, q[u as int], q[v as int], m);
                                    assert forall|x: int| 0 <= x < vertex_count && #[trigger] potential@[x] is Some implies (q[roots[x]] + potential@[x]->0) % m == q[x] % m by {
                                        if x != v {
                                            assert(before[x] is Some);
                                        }
                                    }
                                }
                                assert forall|x: int, y: usize| 0 <= x < vertex_count && done[x] && #[trigger] adjacency@[x]@.contains(y) implies {
                                    &&& y < vertex_count
                                    &&& potential@[y as int] is Some
                                    &&& roots[y as int] == roots[x]
                                    &&& (potential@[x]->0 + oriented_table_value(map, x as usize, y, modulus)) % m == potential@[y as int]->0
                                } by {
                                    assert(before[x] is Some);
                                }
                            }
                            let ghost pending = queue@;
                            queue.push_back(v);
                            proof {
                                assert forall|x: int| 0 <= x < vertex_count && #[trigger] potential@[x] is Some && !done[x] && x != u implies queue@.contains(x as usize) by {
                                    if x == v {
                                        assert(queue@[pending.len() as int] == v);
                                    } else {
                                        assert(before[x] is Some);
                                        let i = choose|i: int| 0 <= i < pending.len() && pending[i] == x as usize;
                                        assert(queue@[i] == x as usize);
                                    }
                                }
                                assert forall|i: int| 0 <= i < pending.len() implies pending[i] != v by {
                                    assert(before[pending[i] as int] is Some);
                                }
                            }
                        },
                        Some(value) => {
                            if value != expected {
                                proof {
                                    assert(potential@[v as int] is Some);
                                    if roots[v as int] != root {
                                        assert(done[v as int]);
                                        assert(adjacency@[v as int]@.contains(u));
                                        assert(false);
                                    }
                                    if has_vertex_potential(vertex_count, edges@, map, modulus) {
                                        let q = choose|q: Seq<int>| #[trigger] is_vertex_potential(vertex_count, edges@, map, modulus, q);
                                        assert(potential@[u as int] is Some);
                                        lemma_potential_step(vertex_count, edges@, map, modulus, q, u, v);
                                        lemma_forced_agree(q[root as int], base as int, value as int, step as int, q[u as int], q[v as int], m);
                                        assert(false);
                                    }
                                }
                                return false;
                            }
                            proof {
                                if roots[v as int] != root {
                                    assert(done[v as int]);
                                    assert(adjacency@[v as int]@.contains(u));
                                    assert(false);
                                }
                            }
                        },
                    }
                    k += 1;
                }
                proof {
                    done = done.update(u as int, true);
                    assert forall|x: int, y: usize| 0 <= x < vertex_count && done[x] && #[trigger] adjacency@[x]@.contains(y) implies {
                        &&& y < vertex_count
                        &&& potential@[y as int] is Some
                        &&& roots[y as int] == roots[x]
                        &&& (potential@[x]->0 + oriented_table_value(map, x as usize, y, modulus)) % m == potential@[y as int]->0
                    } by {
                        if x == u {
                            let i = choose|i: int| 0 <= i < neighbors@.len() && neighbors@[i] == y;
                            assert(neighbors@[i] == y);
                        }
                    }
                    assert forall|x: int| 0 <= x < vertex_count && #[trigger] potential@[x] is Some && !done[x] implies queue@.contains(x as usize) by {
                        assert(x != u);
                    }
                }
            }
            proof {
                assert forall|x: int| 0 <= x < vertex_count && #[trigger] potential@[x] is Some implies done[x] by {
                    if !done[x] {
                        assert(queue@.contains(x as usize));
                    }
                }
            }
        }
        root += 1;
    }
    proof {
        let witness = Seq::new(vertex_count as nat, |x: int| potential@[x]->0 as int);
        assert forall|i: int| 0 <= i < edges@.len() implies (witness[(#[trigger] edges@[i]).0 as int] + oriented_table_value(
            map,
            edges@[i].0,
            edges@[i].1,
            modulus,
        )) % m == witness[edges@[i].1 as int] % m by {
            let (a, b) = edges@[i];
            assert(edges_within(vertex_count, edges@));
            assert(adjacent(edges@, a, b));
            assert(adjacency@[a as int]@.contains(b));
            assert(potential@[a as int] is Some);
            assert(done[a as int]);
            lemma_small_mod(witness[b as int] as nat, m as nat);
        }
        assert(is_vertex_potential(vertex_count, edges@, map, modulus, witness));
    }
    true
}

pub(crate) proof fn lemma_term_table_below(terms: Seq<CocycleTerm>, modulus: u32)
    requires
        forall|i: int| 0 <= i < terms.len() ==> (#[trigger] terms[i]).coefficient < modulus,
    ensures
        table_below(term_table(terms), modulus),
    decreases terms.len(),
{
    if terms.len() > 0 {
        let rest = terms.drop_last();
        assert forall|i: int| 0 <= i < rest.len() implies (#[trigger] rest[i]).coefficient < modulus by {
            assert(rest[i] == terms[i]);
        }
        lemma_term_table_below(rest, modulus);
        assert(terms.last() == terms[terms.len() - 1]);
    }
}

/// Every rule of an H1 cocycle at its scale: the header, the terms, closure
/// on every triangle of the active graph, and no vertex potential.
pub open spec fn valid_h1_cocycle(
    vertex_count: usize,
    active: Seq<(usize, usize)>,
    modulus: u32,
    scale_bits: u64,
    terms: Seq<CocycleTerm>,
) -> bool {
    &&& valid_cocycle_header(modulus, scale_bits, terms)
    &&& valid_cocycle_terms(vertex_count, active, modulus, terms)
    &&& field_closed_on(active, term_table(terms), modulus)
    &&& !has_vertex_potential(vertex_count, active, term_table(terms), modulus)
}

/// Checks that an H1 cocycle is canonical, closed, and nontrivial on the
/// graph with `vertex_count` vertices and the edges active at its scale.
pub fn validate_h1_cocycle(
    vertex_count: usize,
    active: &[(usize, usize)],
    modulus: u32,
    scale_bits: u64,
    terms: &[CocycleTerm],
) -> (result: Result<(), Error>)
    requires
        edges_within(vertex_count, active@),
    ensures
        result is Ok <==> valid_h1_cocycle(vertex_count, active@, modulus, scale_bits, terms@),
        valid_cocycle_header(modulus, scale_bits, terms@) && valid_cocycle_terms(
            vertex_count,
            active@,
            modulus,
            terms@,
        ) && field_closed_on(active@, term_table(terms@), modulus) && has_vertex_potential(
            vertex_count,
            active@,
            term_table(terms@),
            modulus,
        ) ==> fails_with(result, "cocycle is a vertex coboundary at its scale"@),
        valid_cocycle_header(modulus, scale_bits, terms@) && valid_cocycle_terms(vertex_count, active@, modulus, terms@)
            && !field_closed_on(active@, term_table(terms@), modulus) ==> (result matches Err(error)
            && open_triangle_error(active@, term_table(terms@), modulus, error)),
{
    check_cocycle_header(modulus, scale_bits, terms)?;
    let table = checked_cocycle_terms(vertex_count, active, modulus, terms)?;
    proof {
        assert forall|i: int| 0 <= i < terms@.len() implies (#[trigger] terms@[i]).coefficient < modulus by {
            assert(valid_cocycle_term(vertex_count, active@, modulus, terms@[i]));
        }
        lemma_term_table_below(terms@, modulus);
    }
    let adjacency = active_adjacency(vertex_count, active);
    check_field_triangle_closure(vertex_count, Ghost(active@), &adjacency, &table, modulus)?;
    if is_vertex_coboundary(vertex_count, Ghost(active@), &adjacency, &table, modulus) {
        return Err(Error::InvalidInput(literal("cocycle is a vertex coboundary at its scale")));
    }
    Ok(())
}

} // verus!
