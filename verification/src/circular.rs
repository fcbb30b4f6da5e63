//! Integer lifts of prime-field H1 cocycles on a graph, and the plain
//! records of circular-coordinate artifacts.

use vstd::prelude::*;

use crate::error::{fails_with_prefix, Error};
use crate::graph::{
    active_adjacency, adjacent, ascending, contains_sorted, edges_within, is_triangle,
};
use crate::text::{literal, with_number, with_numbers};
use vstd::string::StringExecFns;

pub mod lift;
pub mod ripser;

pub use lift::check_integral_lift;

verus! {

/// One nonzero coefficient of an integer cocycle on an oriented edge.
#[derive(Debug, Clone, Copy, PartialEq, Eq, PartialOrd, Ord)]
pub struct IntegralCocycleTerm {
    /// Lower endpoint. The edge is oriented from `u` to `v`.
    pub u: usize,
    /// Higher endpoint.
    pub v: usize,
    /// Nonzero integer coefficient.
    pub coefficient: i64,
}

/// One nonzero coordinate in a canonical fixed-scale H1 basis.
#[derive(Debug, Clone, Copy, PartialEq, Eq, PartialOrd, Ord)]
pub struct CircularClassTerm {
    /// Position in the canonical cohomology basis.
    pub basis_index: usize,
    /// Coefficient in `1..modulus`.
    pub coefficient: u32,
}

/// Failure while constructing or encoding a circular-coordinate artifact.
#[derive(Debug, Clone, PartialEq, Eq)]
pub struct CircularArtifactError {
    message: String,
}

impl CircularArtifactError {
    /// Text of the error.
    pub closed spec fn spec_message(&self) -> Seq<char> {
        self.message@
    }

    /// Error carrying `message`.
    pub(crate) fn new(message: String) -> (error: Self)
        ensures
            error.spec_message() == message@,
    {
        Self { message }
    }

    /// Description of the violated artifact rule.
    pub fn message(&self) -> (text: &str)
        ensures
            text@ == self.spec_message(),
    {
        self.message.as_str()
    }
}

/// Structural counts for one circular-coordinate artifact.
#[derive(Debug, Clone, Copy, PartialEq, Eq)]
pub struct CircularArtifactSummary {
    /// Graph states carried by the artifact.
    pub states: usize,
    /// States that carry a harmonic coordinate.
    pub coordinates: usize,
    /// Total active edge count.
    pub edges: usize,
    /// Whether the artifact carries a two-state continuation claim.
    pub continuation: bool,
}

/// Largest accepted magnitude of an integral coefficient.
pub const INTEGRAL_COEFFICIENT_LIMIT: i64 = 0x8000_0000;

/// Edge order: by lower endpoint, then by higher endpoint.
pub open spec fn edge_lt(first: (usize, usize), second: (usize, usize)) -> bool {
    first.0 < second.0 || (first.0 == second.0 && first.1 < second.1)
}

/// Terms in strictly increasing edge order.
pub open spec fn sorted_terms(terms: Seq<IntegralCocycleTerm>) -> bool {
    forall|i: int, j: int| 0 <= i < j < terms.len() ==> edge_lt((terms[i].u, terms[i].v), (terms[j].u, terms[j].v))
}

/// Coefficients small enough to add three of them in an `i64`.
pub open spec fn bounded_terms(terms: Seq<IntegralCocycleTerm>) -> bool {
    forall|i: int|
        0 <= i < terms.len() ==> -INTEGRAL_COEFFICIENT_LIMIT <= #[trigger] terms[i].coefficient
            <= INTEGRAL_COEFFICIENT_LIMIT
}

/// Coefficient of the term on edge `(u, v)`, or zero.
pub open spec fn integral_value(terms: Seq<IntegralCocycleTerm>, u: usize, v: usize) -> int
    decreases terms.len(),
{
    if terms.len() == 0 {
        0
    } else if terms.last().u == u && terms.last().v == v {
        terms.last().coefficient as int
    } else {
        integral_value(terms.drop_last(), u, v)
    }
}

/// The cocycle's value on `u -> v`: the term's coefficient on an
/// increasing edge, its negation on a decreasing one.
pub open spec fn oriented_value(terms: Seq<IntegralCocycleTerm>, u: usize, v: usize) -> int {
    if u < v {
        integral_value(terms, u, v)
    } else {
        -integral_value(terms, v, u)
    }
}

proof fn lemma_integral_value_at(terms: Seq<IntegralCocycleTerm>, k: int)
    requires
        sorted_terms(terms),
        0 <= k < terms.len(),
    ensures
        integral_value(terms, terms[k].u, terms[k].v) == terms[k].coefficient,
    decreases terms.len(),
{
    if k < terms.len() - 1 {
        let rest = terms.drop_last();
        assert(edge_lt((terms[k].u, terms[k].v), (terms.last().u, terms.last().v)));
        assert forall|i: int, j: int| 0 <= i < j < rest.len() implies edge_lt((rest[i].u, rest[i].v), (rest[j].u, rest[j].v)) by {
            assert(rest[i] == terms[i] && rest[j] == terms[j]);
        }
        assert(rest[k] == terms[k]);
        lemma_integral_value_at(rest, k);
    }
}

proof fn lemma_integral_value_absent(terms: Seq<IntegralCocycleTerm>, u: usize, v: usize)
    requires
        forall|i: int| 0 <= i < terms.len() ==> !((#[trigger] terms[i]).u == u && terms[i].v == v),
    ensures
        integral_value(terms, u, v) == 0,
    decreases terms.len(),
{
    if terms.len() > 0 {
        let rest = terms.drop_last();
        assert(terms.last() == terms[terms.len() - 1]);
        assert forall|i: int| 0 <= i < rest.len() implies !((#[trigger] rest[i]).u == u && rest[i].v == v) by {
            assert(rest[i] == terms[i]);
        }
        lemma_integral_value_absent(rest, u, v);
    }
}

/// Coefficient of the term on edge `(u, v)`, found by binary search.
pub fn integral_coefficient(terms: &[IntegralCocycleTerm], u: usize, v: usize) -> (value: i64)
    requires
        sorted_terms(terms@),
    ensures
        value == integral_value(terms@, u, v),
{
    let mut low: usize = 0;
    let mut high: usize = terms.len();
    while low < high
        invariant
            sorted_terms(terms@),
            low <= high <= terms@.len(),
            forall|i: int| 0 <= i < low ==> edge_lt((terms@[i].u, terms@[i].v), (u, v)),
            forall|i: int| high <= i < terms@.len() ==> edge_lt((u, v), (terms@[i].u, terms@[i].v)),
        decreases high - low,
    {
        let middle = low + (high - low) / 2;
        let term = terms[middle];
        if term.u == u && term.v == v {
            proof {
                lemma_integral_value_at(terms@, middle as int);
            }
            return term.coefficient;
        }
        if term.u < u || (term.u == u && term.v < v) {
            proof {
                assert forall|i: int| 0 <= i < middle + 1 implies edge_lt((terms@[i].u, terms@[i].v), (u, v)) by {
                    if i < middle {
                        assert(edge_lt((terms@[i].u, terms@[i].v), (terms@[middle as int].u, terms@[middle as int].v)));
                    }
                }
            }
            low = middle + 1;
        } else {
            proof {
                assert forall|i: int| middle <= i < terms@.len() implies edge_lt((u, v), (terms@[i].u, terms@[i].v)) by {
                    if i > middle {
                        assert(edge_lt((terms@[middle as int].u, terms@[middle as int].v), (terms@[i].u, terms@[i].v)));
                    }
                }
            }
            high = middle;
        }
    }
    proof {
        lemma_integral_value_absent(terms@, u, v);
    }
    0
}

/// The cocycle's value on `u -> v`.
pub fn coefficient(terms: &[IntegralCocycleTerm], u: usize, v: usize) -> (value: i64)
    requires
        sorted_terms(terms@),
        bounded_terms(terms@),
    ensures
        value == oriented_value(terms@, u, v),
{
    if u < v {
        integral_coefficient(terms, u, v)
    } else {
        let value = integral_coefficient(terms, v, u);
        proof {
            if integral_value(terms@, v, u) != 0 {
                lemma_integral_value_bounded(terms@, v, u);
            }
        }
        -value
    }
}

proof fn lemma_integral_value_bounded(terms: Seq<IntegralCocycleTerm>, u: usize, v: usize)
    requires
        bounded_terms(terms),
    ensures
        -INTEGRAL_COEFFICIENT_LIMIT <= integral_value(terms, u, v) <= INTEGRAL_COEFFICIENT_LIMIT,
    decreases terms.len(),
{
    if terms.len() > 0 {
        assert(terms.last() == terms[terms.len() - 1]);
        let rest = terms.drop_last();
        assert forall|i: int| 0 <= i < rest.len() implies -INTEGRAL_COEFFICIENT_LIMIT <= #[trigger] rest[i].coefficient
            <= INTEGRAL_COEFFICIENT_LIMIT by {
            assert(rest[i] == terms[i]);
        }
        lemma_integral_value_bounded(rest, u, v);
    }
}

/// The coboundary of the cocycle on the triangle `u < v < w`.
pub open spec fn triangle_boundary(terms: Seq<IntegralCocycleTerm>, u: usize, v: usize, w: usize) -> int {
    integral_value(terms, u, v) + integral_value(terms, v, w) - integral_value(terms, u, w)
}

/// The cocycle sums to zero around `(u, v, w)` if that is a triangle.
pub open spec fn closed_at(
    edges: Seq<(usize, usize)>,
    terms: Seq<IntegralCocycleTerm>,
    u: usize,
    v: usize,
    w: usize,
) -> bool {
    is_triangle(edges, u, v, w) ==> triangle_boundary(terms, u, v, w) == 0
}

/// The cocycle sums to zero around every triangle of the graph.
pub open spec fn closed_on(edges: Seq<(usize, usize)>, terms: Seq<IntegralCocycleTerm>) -> bool {
    forall|u: usize, v: usize, w: usize| #[trigger] closed_at(edges, terms, u, v, w)
}

/// Checks that an integer cocycle is closed on every triangle of the
/// graph on `vertex_count` vertices with the given active edges.
pub fn check_integer_triangle_closure(
    vertex_count: usize,
    edges: &[(usize, usize)],
    terms: &[IntegralCocycleTerm],
) -> (result: Result<(), Error>)
    requires
        edges_within(vertex_count, edges@),
        sorted_terms(terms@),
        bounded_terms(terms@),
    ensures
        result is Ok <==> closed_on(edges@, terms@),
        result is Err ==> fails_with_prefix(result, TRIANGLE_MESSAGE@),
{
    let adjacency = active_adjacency(vertex_count, edges);
    let mut u: usize = 0;
    while u < vertex_count
        invariant
            u <= vertex_count,
            edges_within(vertex_count, edges@),
            sorted_terms(terms@),
            bounded_terms(terms@),
            adjacency.len() == vertex_count,
            forall|x: int| 0 <= x < vertex_count ==> ascending(#[trigger] adjacency@[x]@),
            forall|x: usize, y: usize|
                x < vertex_count ==> (#[trigger] adjacency@[x as int]@.contains(y) <==> adjacent(edges@, x, y)),
            forall|a: usize, b: usize, c: usize| a < u ==> #[trigger] closed_at(edges@, terms@, a, b, c),
        decreases vertex_count - u,
    {
        let neighbors = &adjacency[u];
        let mut j: usize = 0;
        while j < neighbors.len()
            invariant
                u < vertex_count,
                j <= neighbors@.len(),
                neighbors@ == adjacency@[u as int]@,
                edges_within(vertex_count, edges@),
                sorted_terms(terms@),
                bounded_terms(terms@),
                adjacency.len() == vertex_count,
                forall|x: int| 0 <= x < vertex_count ==> ascending(#[trigger] adjacency@[x]@),
                forall|x: usize, y: usize|
                    x < vertex_count ==> (#[trigger] adjacency@[x as int]@.contains(y) <==> adjacent(edges@, x, y)),
                forall|a: usize, b: usize, c: usize| a < u ==> #[trigger] closed_at(edges@, terms@, a, b, c),
                forall|i: int, c: usize| 0 <= i < j ==> #[trigger] closed_at(edges@, terms@, u, neighbors@[i], c),
            decreases neighbors@.len() - j,
        {
            let v = neighbors[j];
            proof {
                assert(adjacency@[u as int]@.contains(v));
                let i = choose|i: int| 0 <= i < edges@.len() && (#[trigger] edges@[i] == (u, v) || edges@[i] == (v, u));
                assert(edges_within(vertex_count, edges@));
            }
            if v > u {
                let second = &adjacency[v];
                let mut k: usize = 0;
                while k < second.len()
                    invariant
                        u < v < vertex_count,
                        adjacent(edges@, u, v),
                        k <= second@.len(),
                        second@ == adjacency@[v as int]@,
                        neighbors@ == adjacency@[u as int]@,
                        sorted_terms(terms@),
                        bounded_terms(terms@),
                        adjacency.len() == vertex_count,
                        forall|x: int| 0 <= x < vertex_count ==> ascending(#[trigger] adjacency@[x]@),
                        forall|x: usize, y: usize|
                            x < vertex_count ==> (#[trigger] adjacency@[x as int]@.contains(y)
                                <==> adjacent(edges@, x, y)),
                        forall|i: int| 0 <= i < k ==> #[trigger] closed_at(edges@, terms@, u, v, second@[i]),
                    decreases second@.len() - k,
                {
                    let w = second[k];
                    proof {
                        assert(adjacency@[v as int]@.contains(w));
                    }
                    if w > v && contains_sorted(neighbors.as_slice(), w) {
                        proof {
                            lemma_integral_value_bounded(terms@, u, v);
                            lemma_integral_value_bounded(terms@, v, w);
                            lemma_integral_value_bounded(terms@, u, w);
                        }
                        let boundary = coefficient(terms, u, v) + coefficient(terms, v, w) - coefficient(
                            terms,
                            u,
                            w,
                        );
                        if boundary != 0 {
                            proof {
                                assert(!closed_at(edges@, terms@, u, v, w));
                            }
                            return Err(Error::InvalidInput(triangle_message(u, v, w)));
                        }
                    }
                    k += 1;
                }
                proof {
                    assert forall|c: usize| #[trigger] closed_at(edges@, terms@, u, v, c) by {
                        if is_triangle(edges@, u, v, c) {
                            assert(adjacency@[v as int]@.contains(c));
                            let i = choose|i: int| 0 <= i < second@.len() && second@[i] == c;
                            assert(closed_at(edges@, terms@, u, v, second@[i]));
                        }
                    }
                }
            }
            j += 1;
        }
        proof {
            assert forall|a: usize, b: usize, c: usize| a < u + 1 implies #[trigger] closed_at(edges@, terms@, a, b, c) by {
                if a == u && is_triangle(edges@, a, b, c) {
                    assert(adjacency@[u as int]@.contains(b));
                    let i = choose|i: int| 0 <= i < neighbors@.len() && neighbors@[i] == b;
                    assert(closed_at(edges@, terms@, u, neighbors@[i], c));
                }
            }
        }
        u += 1;
    }
    proof {
        assert forall|a: usize, b: usize, c: usize| #[trigger] closed_at(edges@, terms@, a, b, c) by {
            if a >= vertex_count && is_triangle(edges@, a, b, c) {
                let i = choose|i: int| 0 <= i < edges@.len() && (#[trigger] edges@[i] == (a, b) || edges@[i] == (b, a));
                assert(edges_within(vertex_count, edges@));
            }
        }
    }
    Ok(())
}

/// Opening words of the error for an open triangle.
pub const TRIANGLE_MESSAGE: &'static str = "integral cocycle is not closed on triangle (";

/// The error text naming the open triangle `(u, v, w)`.
fn triangle_message(u: usize, v: usize, w: usize) -> (message: String)
    ensures
        message@.len() >= TRIANGLE_MESSAGE@.len(),
        message@.take(TRIANGLE_MESSAGE@.len() as int) == TRIANGLE_MESSAGE@,
{
    let mut message = with_numbers(TRIANGLE_MESSAGE, u, ", ", v, ", ");
    let ghost start = message@;
    let digits = w.to_string();
    message.append(digits.as_str());
    message.append(")");
    proof {
        assert(message@.take(TRIANGLE_MESSAGE@.len() as int) =~= start.take(TRIANGLE_MESSAGE@.len() as int));
    }
    message
}

/// The coboundary of any integer function on the vertices is closed on
/// every triangle: `f(v) - f(u) + f(w) - f(v) = f(w) - f(u)`.
pub proof fn lemma_coboundary_closed(
    edges: Seq<(usize, usize)>,
    terms: Seq<IntegralCocycleTerm>,
    potential: spec_fn(usize) -> int,
)
    requires
        forall|u: usize, v: usize|
            u < v && adjacent(edges, u, v) ==> #[trigger] integral_value(terms, u, v) == potential(v) - potential(u),
    ensures
        closed_on(edges, terms),
{
    assert forall|u: usize, v: usize, w: usize| #[trigger] closed_at(edges, terms, u, v, w) by {
        if is_triangle(edges, u, v, w) {
            assert(integral_value(terms, u, v) == potential(v) - potential(u));
            assert(integral_value(terms, v, w) == potential(w) - potential(v));
            assert(integral_value(terms, u, w) == potential(w) - potential(u));
        }
    }
}

/// A cocycle is closed exactly when its oriented values sum to zero around
/// every triangle `u -> v -> w -> u` of the graph.
pub proof fn lemma_closed_iff_cycles_vanish(edges: Seq<(usize, usize)>, terms: Seq<IntegralCocycleTerm>)
    ensures
        closed_on(edges, terms) <==> forall|u: usize, v: usize, w: usize|
            #[trigger] is_triangle(edges, u, v, w) ==> oriented_value(terms, u, v) + oriented_value(terms, v, w)
                + oriented_value(terms, w, u) == 0,
{
    if closed_on(edges, terms) {
        assert forall|u: usize, v: usize, w: usize| #[trigger] is_triangle(edges, u, v, w) implies oriented_value(
            terms,
            u,
            v,
        ) + oriented_value(terms, v, w) + oriented_value(terms, w, u) == 0 by {
            assert(closed_at(edges, terms, u, v, w));
        }
    }
    if forall|u: usize, v: usize, w: usize|
        #[trigger] is_triangle(edges, u, v, w) ==> oriented_value(terms, u, v) + oriented_value(terms, v, w)
            + oriented_value(terms, w, u) == 0 {
        assert forall|u: usize, v: usize, w: usize| #[trigger] closed_at(edges, terms, u, v, w) by {
            if is_triangle(edges, u, v, w) {
                assert(oriented_value(terms, u, v) + oriented_value(terms, v, w) + oriented_value(terms, w, u) == 0);
            }
        }
    }
}

} // verus!
