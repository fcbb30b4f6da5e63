//! Two reductions of one boundary matrix end their columns at the same
//! rows: the pivots, and with them the intervals a checked reduction
//! determines, do not depend on which change columns certify it.
//!
//! The argument works with combinations of boundary columns under any
//! coefficients: the row at which such a combination ends is the pivot of
//! a reduced column no later than its last coefficient. Peeling the last
//! coefficient off with the change column at that position either keeps
//! the end row or exposes two reduced columns with one pivot.
//!
//! The filtered complex of a graph is itself determined by the graph, so
//! every certificate of one graph under one modulus and threshold records
//! the same diagram.

use vstd::arithmetic::div_mod::*;
use vstd::arithmetic::mul::*;
use vstd::prelude::*;

use vstd::relations::{sorted_by, total_ordering};
use vstd::seq_lib::lemma_sorted_unique;

use crate::diagram::{bar_before, Bar};
use crate::field::{lemma_prime_divides_product, spec_is_prime, supported_modulus};
use crate::graph::{active_at, WeightedEdge};

use super::algebra::{combination, lemma_linear_step, reduced_entry, term_pairs};
use super::checked::{
    canonical_form, distinct_pivot_rows, h0_essential_bars, h0_finite_bars, h1_bars, h1_death, killed, pivot_row,
    raw_bars, reduces_to, reduction_certified, certifies, threshold_bits,
};
use super::complex::{
    edge_key, filtered_edge, is_filtered_triangle, lists_all_triangles, lists_triangle, orders_edges, plain_edges,
    rows_of, total_key, triangle_order_le, true_triangles, spec_triangle_rank, edge_boundary_views, edge_row_table, triangle_boundary_views, FilteredComplex, FilteredEdge, FilteredTriangle};
use super::order::{is_permutation, key_le, key_lt, lists, SimplexKey};
use super::compile::{edge_views, triangle_views};
use super::matrix::{distinct_pivots, has_pivot, valid_change_columns};
use super::model::{CertificateLimits, CertificateTerm, CertificateView};
use super::sparse::{lemma_lookup_absent, lemma_pivot_is_last_nonzero, lookup};

verus! {

/// Entry `row` of `sum_{i < n} coefficients(i) * boundaries[i]` over the
/// field of `p` elements.
pub open spec fn span_entry(
    boundaries: Seq<Seq<(usize, u64)>>,
    coefficients: spec_fn(int) -> int,
    n: nat,
    p: nat,
    row: usize,
) -> int
    decreases n,
{
    if n == 0 {
        0
    } else {
        (span_entry(boundaries, coefficients, (n - 1) as nat, p, row) + coefficients(n - 1) * lookup(
            boundaries[n - 1],
            row,
        )) % (p as int)
    }
}

/// The coefficient a change column gives each boundary column.
pub open spec fn term_coefficients(terms: Seq<CertificateTerm>) -> spec_fn(int) -> int {
    |i: int| lookup(term_pairs(terms), i as usize) as int
}

/// The combination of every boundary column under `coefficients` is
/// nonzero at `row` and zero at every later row.
pub open spec fn ends_at(
    boundaries: Seq<Seq<(usize, u64)>>,
    coefficients: spec_fn(int) -> int,
    p: nat,
    row: usize,
) -> bool {
    &&& span_entry(boundaries, coefficients, boundaries.len(), p, row) != 0
    &&& forall|later: usize|
        later > row ==> #[trigger] span_entry(boundaries, coefficients, boundaries.len(), p, later) == 0
}

pub(crate) proof fn lemma_span_residue(
    boundaries: Seq<Seq<(usize, u64)>>,
    coefficients: spec_fn(int) -> int,
    n: nat,
    p: nat,
    row: usize,
)
    requires
        p > 0,
    ensures
        0 <= span_entry(boundaries, coefficients, n, p, row) < p,
{
    if n > 0 {
        lemma_mod_bound(
            span_entry(boundaries, coefficients, (n - 1) as nat, p, row) + coefficients(n - 1) * lookup(
                boundaries[n - 1],
                row,
            ),
            p as int,
        );
    }
}

/// A change column's combination is the reduced entry it certifies.
pub(crate) proof fn lemma_span_of_terms(
    boundaries: Seq<Seq<(usize, u64)>>,
    terms: Seq<CertificateTerm>,
    n: nat,
    p: nat,
    row: usize,
)
    requires
        n <= usize::MAX,
    ensures
        span_entry(boundaries, term_coefficients(terms), n, p, row) == combination(
            boundaries,
            term_pairs(terms),
            n,
            p,
            row,
        ) as int,
    decreases n,
{
    if n > 0 {
        lemma_span_of_terms(boundaries, terms, (n - 1) as nat, p, row);
        assert(term_coefficients(terms)(n - 1) == lookup(term_pairs(terms), (n - 1) as usize) as int);
    }
}

/// Coefficients that all vanish modulo `p` form the zero column.
pub(crate) proof fn lemma_span_zero(
    boundaries: Seq<Seq<(usize, u64)>>,
    coefficients: spec_fn(int) -> int,
    n: nat,
    p: nat,
    row: usize,
)
    requires
        p > 0,
        forall|i: int| 0 <= i < n ==> #[trigger] coefficients(i) % (p as int) == 0,
    ensures
        span_entry(boundaries, coefficients, n, p, row) == 0,
    decreases n,
{
    if n > 0 {
        lemma_span_zero(boundaries, coefficients, (n - 1) as nat, p, row);
        let c = coefficients(n - 1);
        let d = lookup(boundaries[n - 1], row) as int;
        assert(c % (p as int) == 0);
        lemma_mul_mod_noop_left(c, d, p as int);
        assert((c % (p as int)) * d == 0);
        lemma_small_mod(0, p);
        assert(0 + c * d == c * d);
    }
}

/// A pointwise scaled sum of coefficients forms the scaled sum of the
/// combinations.
pub(crate) proof fn lemma_span_linear(
    boundaries: Seq<Seq<(usize, u64)>>,
    first: spec_fn(int) -> int,
    second: spec_fn(int) -> int,
    sum: spec_fn(int) -> int,
    factor: int,
    n: nat,
    p: nat,
    row: usize,
)
    requires
        p > 0,
        forall|i: int| 0 <= i < n ==> #[trigger] sum(i) == (first(i) + factor * second(i)) % (p as int),
    ensures
        span_entry(boundaries, sum, n, p, row) == (span_entry(boundaries, first, n, p, row) + factor
            * span_entry(boundaries, second, n, p, row)) % (p as int),
    decreases n,
{
    if n == 0 {
        lemma_small_mod(0, p);
        assert(factor * 0 == 0);
    } else {
        let k = (n - 1) as nat;
        lemma_span_linear(boundaries, first, second, sum, factor, k, p, row);
        assert(sum(k as int) == (first(k as int) + factor * second(k as int)) % (p as int));
        lemma_linear_step(
            span_entry(boundaries, first, k, p, row),
            span_entry(boundaries, second, k, p, row),
            first(k as int),
            second(k as int),
            factor,
            lookup(boundaries[k as int], row) as int,
            p as int,
        );
    }
}

/// A change column at position `j` gives its own boundary column the
/// coefficient one and every later column zero.
pub(crate) proof fn lemma_change_column_coefficients(terms: Seq<CertificateTerm>, j: int, p: nat)
    requires
        terms.len() > 0,
        forall|i: int| 0 <= i < terms.len() ==> (#[trigger] terms[i]).index <= j,
        terms.last().index == j,
        terms.last().coefficient == 1,
    ensures
        term_coefficients(terms)(j) == 1,
        forall|i: int| j < i <= usize::MAX ==> #[trigger] term_coefficients(terms)(i) == 0,
{
    let pairs = term_pairs(terms);
    assert(pairs.last() == (terms.last().index, terms.last().coefficient as u64));
    assert(term_coefficients(terms)(j) == lookup(pairs, j as usize) as int);
    assert forall|i: int| j < i <= usize::MAX implies #[trigger] term_coefficients(terms)(i) == 0 by {
        assert forall|t: int| 0 <= t < pairs.len() implies #[trigger] pairs[t].0 != i as usize by {
            assert(pairs[t].0 == terms[t].index);
        }
        lemma_lookup_absent(pairs, i as usize);
    }
}

/// A product of two nonzero residues of a prime is nonzero.
proof fn lemma_unit_product(p: nat, x: int, y: int)
    requires
        spec_is_prime(p),
        0 < x < p,
        0 < y < p,
    ensures
        (x * y) % (p as int) != 0,
{
    if (x * y) % (p as int) == 0 {
        lemma_small_mod(x as nat, p);
        lemma_prime_divides_product(p, x, y);
        lemma_small_mod(y as nat, p);
    }
}

/// A nonempty canonical reduced column has its pivot at its last row.
pub(crate) proof fn lemma_pivot_at_last(
    boundaries: Seq<Seq<(usize, u64)>>,
    terms: Seq<CertificateTerm>,
    p: nat,
    reduced: Seq<(usize, u64)>,
)
    requires
        reduces_to(boundaries, terms, p, reduced),
        reduced.len() > 0,
    ensures
        has_pivot(boundaries, terms, p, reduced.last().0),
{
    lemma_pivot_is_last_nonzero(reduced, p);
    assert(lookup(reduced, reduced.last().0) == reduced_entry(boundaries, terms, p, reduced.last().0));
    assert forall|later: usize| later > reduced.last().0 implies #[trigger] reduced_entry(
        boundaries,
        terms,
        p,
        later,
    ) == 0 by {
        assert(lookup(reduced, later) == reduced_entry(boundaries, terms, p, later));
    }
}

/// `has_pivot` read as the end row of the change column's combination.
pub(crate) proof fn lemma_pivot_ends(boundaries: Seq<Seq<(usize, u64)>>, terms: Seq<CertificateTerm>, p: nat, row: usize)
    requires
        boundaries.len() <= usize::MAX,
    ensures
        has_pivot(boundaries, terms, p, row) <==> ends_at(boundaries, term_coefficients(terms), p, row),
{
    let n = boundaries.len();
    lemma_span_of_terms(boundaries, terms, n, p, row);
    let coefficients = term_coefficients(terms);
    if has_pivot(boundaries, terms, p, row) {
        assert forall|later: usize| later > row implies #[trigger] span_entry(
            boundaries,
            coefficients,
            n,
            p,
            later,
        ) == 0 by {
            lemma_span_of_terms(boundaries, terms, n, p, later);
            assert(reduced_entry(boundaries, terms, p, later) == 0);
        }
    }
    if ends_at(boundaries, coefficients, p, row) {
        assert forall|later: usize| later > row implies #[trigger] reduced_entry(boundaries, terms, p, later)
            == 0 by {
            lemma_span_of_terms(boundaries, terms, n, p, later);
            assert(span_entry(boundaries, coefficients, n, p, later) == 0);
        }
    }
}

/// The reduction that `columns` certify for `boundaries`, with its reduced
/// columns.
pub open spec fn certified_reduction(
    boundaries: Seq<Seq<(usize, u64)>>,
    columns: Seq<Seq<CertificateTerm>>,
    reduced: Seq<Seq<(usize, u64)>>,
    p: nat,
) -> bool {
    &&& boundaries.len() <= usize::MAX
    &&& columns.len() == boundaries.len()
    &&& reduced.len() == boundaries.len()
    &&& valid_change_columns(columns, p)
    &&& distinct_pivots(boundaries, columns, p)
    &&& forall|j: int| 0 <= j < reduced.len() ==> reduces_to(boundaries, columns[j], p, #[trigger] reduced[j])
}

/// A combination of the boundary columns up to position `last` ends at the
/// pivot of a reduced column up to that position.
pub(crate) proof fn lemma_end_is_pivot(
    boundaries: Seq<Seq<(usize, u64)>>,
    columns: Seq<Seq<CertificateTerm>>,
    reduced: Seq<Seq<(usize, u64)>>,
    p: nat,
    coefficients: spec_fn(int) -> int,
    last: int,
    row: usize,
)
    requires
        spec_is_prime(p),
        certified_reduction(boundaries, columns, reduced, p),
        -1 <= last < boundaries.len(),
        forall|i: int| last < i < boundaries.len() ==> #[trigger] coefficients(i) % (p as int) == 0,
        ends_at(boundaries, coefficients, p, row),
    ensures
        exists|k: int| 0 <= k <= last && #[trigger] has_pivot(boundaries, columns[k], p, row),
    decreases last + 1,
{
    let n = boundaries.len();
    let m = p as int;
    if last == -1 {
        lemma_span_zero(boundaries, coefficients, n, p, row);
        return;
    }
    let a = coefficients(last) % m;
    lemma_mod_bound(coefficients(last), m);
    if a == 0 {
        lemma_end_is_pivot(boundaries, columns, reduced, p, coefficients, last - 1, row);
        let k = choose|k: int| 0 <= k <= last - 1 && #[trigger] has_pivot(boundaries, columns[k], p, row);
        assert(has_pivot(boundaries, columns[k], p, row));
        return;
    }
    let terms = columns[last];
    assert(crate::certificate::matrix::valid_change_column(terms, last as nat, p));
    lemma_change_column_coefficients(terms, last, p);
    let own = term_coefficients(terms);
    let factor = m - a;
    let peeled = |i: int| (coefficients(i) + factor * own(i)) % m;
    assert forall|i: int| last - 1 < i < n implies #[trigger] peeled(i) % m == 0 by {
        if i == last {
            lemma_fundamental_div_mod(coefficients(last), m);
            let q = coefficients(last) / m;
            assert(coefficients(i) + factor * own(i) == (q + 1) * m) by (nonlinear_arith)
                requires
                    coefficients(i) == m * q + a,
                    factor == m - a,
                    own(i) == 1,
            ;
            lemma_mod_multiples_basic(q + 1, m);
        } else {
            assert(own(i) == 0);
            assert(coefficients(i) + factor * own(i) == coefficients(i));
        }
        lemma_mod_twice(coefficients(i) + factor * own(i), m);
    }
    // Each entry of the peeled combination, against the two it comes from.
    assert forall|r: usize| #[trigger] span_entry(boundaries, peeled, n, p, r) == (span_entry(
        boundaries,
        coefficients,
        n,
        p,
        r,
    ) + factor * span_entry(boundaries, own, n, p, r)) % m by {
        lemma_span_linear(boundaries, coefficients, own, peeled, factor, n, p, r);
    }
    assert forall|r: usize| #[trigger] span_entry(boundaries, own, n, p, r) == lookup(reduced[last], r) as int by {
        lemma_span_of_terms(boundaries, terms, n, p, r);
        assert(lookup(reduced[last], r) == reduced_entry(boundaries, terms, p, r));
    }
    assert forall|r: usize| 0 <= #[trigger] span_entry(boundaries, coefficients, n, p, r) < m by {
        lemma_span_residue(boundaries, coefficients, n, p, r);
    }
    // Where the own column vanishes, the peeled combination keeps the entry.
    assert forall|r: usize| lookup(reduced[last], r) == 0 implies #[trigger] span_entry(
        boundaries,
        peeled,
        n,
        p,
        r,
    ) == span_entry(boundaries, coefficients, n, p, r) by {
        assert(span_entry(boundaries, own, n, p, r) == 0);
        assert(factor * 0 == 0);
        lemma_small_mod(span_entry(boundaries, coefficients, n, p, r) as nat, p);
    }
    if reduced[last].len() == 0 {
        assert forall|r: usize| lookup(reduced[last], r) == 0 by {}
        assert(ends_at(boundaries, peeled, p, row));
        lemma_end_is_pivot(boundaries, columns, reduced, p, peeled, last - 1, row);
        let k = choose|k: int| 0 <= k <= last - 1 && #[trigger] has_pivot(boundaries, columns[k], p, row);
        assert(has_pivot(boundaries, columns[k], p, row));
        return;
    }
    let own_row = reduced[last].last().0;
    lemma_pivot_at_last(boundaries, terms, p, reduced[last]);
    lemma_pivot_is_last_nonzero(reduced[last], p);
    if own_row == row {
        assert(has_pivot(boundaries, columns[last], p, row));
    } else if own_row < row {
        assert forall|r: usize| r >= row implies lookup(reduced[last], r) == 0 by {}
        assert(span_entry(boundaries, peeled, n, p, row) == span_entry(boundaries, coefficients, n, p, row));
        assert forall|later: usize| later > row implies #[trigger] span_entry(boundaries, peeled, n, p, later)
            == 0 by {
            assert(span_entry(boundaries, peeled, n, p, later) == span_entry(
                boundaries,
                coefficients,
                n,
                p,
                later,
            ));
        }
        assert(ends_at(boundaries, peeled, p, row));
        lemma_end_is_pivot(boundaries, columns, reduced, p, peeled, last - 1, row);
        let k = choose|k: int| 0 <= k <= last - 1 && #[trigger] has_pivot(boundaries, columns[k], p, row);
        assert(has_pivot(boundaries, columns[k], p, row));
    } else {
        // The peeled combination ends at the own pivot, which an earlier
        // reduced column would then share.
        let own_entry = lookup(reduced[last], own_row) as int;
        assert(own_entry == reduced[last].last().1);
        assert(0 < own_entry < m) by {
            assert(reduced[last][reduced[last].len() - 1] == reduced[last].last());
        }
        assert(span_entry(boundaries, coefficients, n, p, own_row) == 0);
        assert(span_entry(boundaries, peeled, n, p, own_row) == (factor * own_entry) % m) by {
            assert(0 + factor * own_entry == factor * own_entry);
        }
        lemma_unit_product(p, factor, own_entry);
        assert forall|later: usize| later > own_row implies #[trigger] span_entry(
            boundaries,
            peeled,
            n,
            p,
            later,
        ) == 0 by {
            assert(lookup(reduced[last], later) == 0);
            assert(span_entry(boundaries, peeled, n, p, later) == span_entry(
                boundaries,
                coefficients,
                n,
                p,
                later,
            ));
        }
        assert(ends_at(boundaries, peeled, p, own_row));
        lemma_end_is_pivot(boundaries, columns, reduced, p, peeled, last - 1, own_row);
        let k = choose|k: int| 0 <= k <= last - 1 && #[trigger] has_pivot(boundaries, columns[k], p, own_row);
        assert(has_pivot(boundaries, columns[k], p, own_row));
        assert(has_pivot(boundaries, columns[last], p, own_row));
        assert(false);
    }
}

/// A pivot of the first reduction at column `j` is the pivot of the second
/// reduction at the same column.
proof fn lemma_pivot_carries(
    boundaries: Seq<Seq<(usize, u64)>>,
    first: Seq<Seq<CertificateTerm>>,
    first_reduced: Seq<Seq<(usize, u64)>>,
    second: Seq<Seq<CertificateTerm>>,
    second_reduced: Seq<Seq<(usize, u64)>>,
    p: nat,
    j: int,
    row: usize,
)
    requires
        spec_is_prime(p),
        certified_reduction(boundaries, first, first_reduced, p),
        certified_reduction(boundaries, second, second_reduced, p),
        0 <= j < boundaries.len(),
        has_pivot(boundaries, first[j], p, row),
    ensures
        has_pivot(boundaries, second[j], p, row),
{
    let n = boundaries.len();
    assert(crate::certificate::matrix::valid_change_column(first[j], j as nat, p));
    lemma_change_column_coefficients(first[j], j, p);
    lemma_pivot_ends(boundaries, first[j], p, row);
    assert forall|i: int| j < i < n implies #[trigger] term_coefficients(first[j])(i) % (p as int) == 0 by {
        assert(term_coefficients(first[j])(i) == 0);
    }
    lemma_end_is_pivot(boundaries, second, second_reduced, p, term_coefficients(first[j]), j, row);
    let k = choose|k: int| 0 <= k <= j && #[trigger] has_pivot(boundaries, second[k], p, row);
    if k < j {
        assert(crate::certificate::matrix::valid_change_column(second[k], k as nat, p));
        lemma_change_column_coefficients(second[k], k, p);
        lemma_pivot_ends(boundaries, second[k], p, row);
        assert forall|i: int| j - 1 < i < n implies #[trigger] term_coefficients(second[k])(i) % (p as int) == 0 by {
            assert(term_coefficients(second[k])(i) == 0);
        }
        lemma_end_is_pivot(boundaries, first, first_reduced, p, term_coefficients(second[k]), j - 1, row);
        let other = choose|other: int| 0 <= other <= j - 1 && #[trigger] has_pivot(boundaries, first[other], p, row);
        assert(has_pivot(boundaries, first[other], p, row));
        assert(false);
    }
}

/// Two certified reductions of one boundary matrix have the same pivots:
/// the reduced column at each position ends at the same row under either.
pub proof fn lemma_reductions_share_pivots(
    boundaries: Seq<Seq<(usize, u64)>>,
    first: Seq<Seq<CertificateTerm>>,
    first_reduced: Seq<Seq<(usize, u64)>>,
    second: Seq<Seq<CertificateTerm>>,
    second_reduced: Seq<Seq<(usize, u64)>>,
    p: nat,
)
    requires
        spec_is_prime(p),
        certified_reduction(boundaries, first, first_reduced, p),
        certified_reduction(boundaries, second, second_reduced, p),
    ensures
        forall|j: int|
            0 <= j < boundaries.len() ==> #[trigger] pivot_row(first_reduced[j]) == pivot_row(second_reduced[j]),
{
    assert forall|j: int| 0 <= j < boundaries.len() implies #[trigger] pivot_row(first_reduced[j]) == pivot_row(
        second_reduced[j],
    ) by {
        assert(reduces_to(boundaries, first[j], p, first_reduced[j]));
        assert(reduces_to(boundaries, second[j], p, second_reduced[j]));
        if first_reduced[j].len() > 0 {
            let row = first_reduced[j].last().0;
            lemma_pivot_at_last(boundaries, first[j], p, first_reduced[j]);
            lemma_pivot_carries(boundaries, first, first_reduced, second, second_reduced, p, j, row);
            lemma_pivot_rows_agree(boundaries, second[j], p, second_reduced[j], row);
        } else if second_reduced[j].len() > 0 {
            let row = second_reduced[j].last().0;
            lemma_pivot_at_last(boundaries, second[j], p, second_reduced[j]);
            lemma_pivot_carries(boundaries, second, second_reduced, first, first_reduced, p, j, row);
            lemma_pivot_rows_agree(boundaries, first[j], p, first_reduced[j], row);
        }
    }
}

/// A reduced column with a pivot at `row` is nonempty and ends there.
pub(crate) proof fn lemma_pivot_rows_agree(
    boundaries: Seq<Seq<(usize, u64)>>,
    terms: Seq<CertificateTerm>,
    p: nat,
    reduced: Seq<(usize, u64)>,
    row: usize,
)
    requires
        reduces_to(boundaries, terms, p, reduced),
        has_pivot(boundaries, terms, p, row),
    ensures
        pivot_row(reduced) == Some(row),
{
    assert(lookup(reduced, row) == reduced_entry(boundaries, terms, p, row));
    if reduced.len() == 0 {
        assert(lookup(reduced, row) == 0);
    } else {
        lemma_pivot_at_last(boundaries, terms, p, reduced);
        let last = reduced.last().0;
        if last > row {
            assert(reduced_entry(boundaries, terms, p, last) == 0);
        } else if last < row {
            assert(reduced_entry(boundaries, terms, p, row) == 0);
        }
    }
}

/// Reduced columns of a certified reduction end at distinct rows.
pub proof fn lemma_distinct_rows(
    boundaries: Seq<Seq<(usize, u64)>>,
    columns: Seq<Seq<CertificateTerm>>,
    reduced: Seq<Seq<(usize, u64)>>,
    p: nat,
)
    requires
        certified_reduction(boundaries, columns, reduced, p),
    ensures
        distinct_pivot_rows(reduced),
{
    assert forall|a: int, b: int|
        0 <= a < b < reduced.len() && reduced[a].len() > 0 && reduced[b].len() > 0 implies reduced[a].last().0
        != reduced[b].last().0 by {
        assert(reduces_to(boundaries, columns[a], p, reduced[a]));
        assert(reduces_to(boundaries, columns[b], p, reduced[b]));
        lemma_pivot_at_last(boundaries, columns[a], p, reduced[a]);
        lemma_pivot_at_last(boundaries, columns[b], p, reduced[b]);
        if reduced[a].last().0 == reduced[b].last().0 {
            assert(has_pivot(boundaries, columns[a], p, reduced[a].last().0));
            assert(has_pivot(boundaries, columns[b], p, reduced[a].last().0));
        }
    }
}

/// Finite H0 intervals read only whether each reduced edge column is zero.
proof fn lemma_finite_bars_follow(
    edges: Seq<FilteredEdge>,
    first: Seq<Seq<(usize, u64)>>,
    second: Seq<Seq<(usize, u64)>>,
    count: int,
)
    requires
        count <= first.len(),
        first.len() == second.len(),
        forall|j: int| 0 <= j < first.len() ==> #[trigger] pivot_row(first[j]) == pivot_row(second[j]),
    ensures
        h0_finite_bars(edges, first, count) == h0_finite_bars(edges, second, count),
    decreases count,
{
    if count > 0 {
        lemma_finite_bars_follow(edges, first, second, count - 1);
        assert(pivot_row(first[count - 1]) == pivot_row(second[count - 1]));
    }
}

/// Essential H0 intervals read only the rows at which reduced edge columns
/// end.
proof fn lemma_essential_bars_follow(first: Seq<Seq<(usize, u64)>>, second: Seq<Seq<(usize, u64)>>, count: int)
    requires
        first.len() == second.len(),
        forall|j: int| 0 <= j < first.len() ==> #[trigger] pivot_row(first[j]) == pivot_row(second[j]),
    ensures
        h0_essential_bars(first, count) == h0_essential_bars(second, count),
    decreases count,
{
    if count > 0 {
        lemma_essential_bars_follow(first, second, count - 1);
        let x = (count - 1) as usize;
        if killed(first, x) {
            let j = choose|j: int| 0 <= j < first.len() && #[trigger] pivot_row(first[j]) == Some(x);
            assert(pivot_row(second[j]) == Some(x));
        }
        if killed(second, x) {
            let j = choose|j: int| 0 <= j < second.len() && #[trigger] pivot_row(second[j]) == Some(x);
            assert(pivot_row(first[j]) == Some(x));
        }
    }
}

/// The death of a class reads only the rows at which reduced triangle
/// columns end, when those rows are distinct.
proof fn lemma_death_follows(
    triangles: Seq<FilteredTriangle>,
    first: Seq<Seq<(usize, u64)>>,
    second: Seq<Seq<(usize, u64)>>,
    edge: usize,
)
    requires
        first.len() == second.len(),
        forall|j: int| 0 <= j < first.len() ==> #[trigger] pivot_row(first[j]) == pivot_row(second[j]),
        distinct_pivot_rows(first),
    ensures
        h1_death(triangles, first, edge) == h1_death(triangles, second, edge),
{
    if exists|t: int| 0 <= t < first.len() && #[trigger] pivot_row(first[t]) == Some(edge) {
        let a = choose|t: int| 0 <= t < first.len() && #[trigger] pivot_row(first[t]) == Some(edge);
        assert(pivot_row(second[a]) == Some(edge));
        let b = choose|t: int| 0 <= t < second.len() && #[trigger] pivot_row(second[t]) == Some(edge);
        assert(pivot_row(first[b]) == Some(edge));
        if a != b {
            if a < b {
                assert(first[a].last().0 != first[b].last().0);
            } else {
                assert(first[b].last().0 != first[a].last().0);
            }
        }
    } else {
        assert forall|t: int| 0 <= t < second.len() implies #[trigger] pivot_row(second[t]) != Some(edge) by {
            assert(pivot_row(first[t]) == pivot_row(second[t]));
        }
    }
}

/// H1 intervals read only the rows at which reduced columns end.
proof fn lemma_h1_bars_follow(
    edges: Seq<FilteredEdge>,
    first_edges: Seq<Seq<(usize, u64)>>,
    second_edges: Seq<Seq<(usize, u64)>>,
    triangles: Seq<FilteredTriangle>,
    first_triangles: Seq<Seq<(usize, u64)>>,
    second_triangles: Seq<Seq<(usize, u64)>>,
    count: int,
)
    requires
        count <= first_edges.len(),
        first_edges.len() == second_edges.len(),
        forall|j: int|
            0 <= j < first_edges.len() ==> #[trigger] pivot_row(first_edges[j]) == pivot_row(second_edges[j]),
        first_triangles.len() == second_triangles.len(),
        forall|j: int|
            0 <= j < first_triangles.len() ==> #[trigger] pivot_row(first_triangles[j]) == pivot_row(
                second_triangles[j],
            ),
        distinct_pivot_rows(first_triangles),
    ensures
        h1_bars(edges, first_edges, triangles, first_triangles, count) == h1_bars(
            edges,
            second_edges,
            triangles,
            second_triangles,
            count,
        ),
    decreases count,
{
    if count > 0 {
        lemma_h1_bars_follow(
            edges,
            first_edges,
            second_edges,
            triangles,
            first_triangles,
            second_triangles,
            count - 1,
        );
        assert(pivot_row(first_edges[count - 1]) == pivot_row(second_edges[count - 1]));
        lemma_death_follows(triangles, first_triangles, second_triangles, (count - 1) as usize);
    }
}

/// A sequence read through a permutation holds the same elements.
pub(crate) proof fn lemma_permuted_multiset<A>(permuted: Seq<A>, items: Seq<A>, order: Seq<int>)
    requires
        is_permutation(order, items.len()),
        permuted.len() == items.len(),
        forall|j: int| 0 <= j < permuted.len() ==> #[trigger] permuted[j] == items[order[j]],
    ensures
        permuted.to_multiset() == items.to_multiset(),
    decreases items.len(),
{
    broadcast use vstd::seq_lib::group_to_multiset_ensures;
    broadcast use vstd::multiset::group_multiset_axioms;

    let n = items.len();
    if n == 0 {
        assert(permuted =~= items);
    } else {
        let k = order[n - 1];
        let rest = items.remove(k);
        let rest_order = Seq::new(
            (n - 1) as nat,
            |j: int|
                if order[j] < k {
                    order[j]
                } else {
                    order[j] - 1
                },
        );
        assert forall|j: int| 0 <= j < n - 1 implies 0 <= #[trigger] rest_order[j] < n - 1 by {
            assert(order[j] != order[n - 1]);
        }
        assert forall|a: int, b: int| 0 <= a < b < n - 1 implies rest_order[a] != rest_order[b] by {
            assert(order[a] != order[b]);
            assert(order[a] != k);
            assert(order[b] != k);
        }
        assert forall|i: int| 0 <= i < n - 1 implies #[trigger] lists(rest_order, (n - 1) as nat, i) by {
            let target = if i < k {
                i
            } else {
                i + 1
            };
            assert(lists(order, n, target));
            let j = choose|j: int| 0 <= j < n && #[trigger] order[j] == target;
            assert(j != n - 1);
            assert(rest_order[j] == i);
        }
        let front = permuted.drop_last();
        assert forall|j: int| 0 <= j < front.len() implies #[trigger] front[j] == rest[rest_order[j]] by {
            assert(order[j] != k);
        }
        lemma_permuted_multiset(front, rest, rest_order);
        assert(permuted =~= front.push(permuted.last()));
        assert(permuted.last() == items[k]);
        assert(items.to_multiset().contains(items[k]));
        assert(items.to_multiset() =~= rest.to_multiset().insert(items[k]));
    }
}

/// Canonical order is a total order on intervals.
proof fn lemma_bar_order_total()
    ensures
        total_ordering(|first: Bar, second: Bar| bar_before(first, second)),
{
}

/// A list of intervals has one canonical form.
pub proof fn lemma_canonical_form_unique(first: Seq<Bar>, second: Seq<Bar>, bars: Seq<Bar>)
    requires
        canonical_form(first, bars),
        canonical_form(second, bars),
    ensures
        first == second,
{
    let first_order = choose|order: Seq<int>|
        #[trigger] is_permutation(order, bars.len()) && first.len() == bars.len() && forall|j: int|
            0 <= j < first.len() ==> #[trigger] first[j] == bars[order[j]];
    lemma_permuted_multiset(first, bars, first_order);
    let second_order = choose|order: Seq<int>|
        #[trigger] is_permutation(order, bars.len()) && second.len() == bars.len() && forall|j: int|
            0 <= j < second.len() ==> #[trigger] second[j] == bars[order[j]];
    lemma_permuted_multiset(second, bars, second_order);
    let leq = |a: Bar, b: Bar| bar_before(a, b);
    lemma_bar_order_total();
    assert(sorted_by(first, leq));
    assert(sorted_by(second, leq));
    lemma_sorted_unique(first, second, leq);
}

/// Two certificates whose reductions are checked on one filtered complex
/// under one modulus record the same diagram: which change columns
/// certify the reduction does not decide the intervals.
pub proof fn lemma_checked_diagram_unique(
    first: CertificateView,
    second: CertificateView,
    vertex_count: usize,
    edges: Seq<WeightedEdge>,
    first_limits: CertificateLimits,
    second_limits: CertificateLimits,
    complex: FilteredComplex,
    first_edges: Seq<Seq<(usize, u64)>>,
    first_triangles: Seq<Seq<(usize, u64)>>,
    second_edges: Seq<Seq<(usize, u64)>>,
    second_triangles: Seq<Seq<(usize, u64)>>,
)
    requires
        supported_modulus(first.modulus as nat),
        first.modulus == second.modulus,
        reduction_certified(first, vertex_count, edges, first_limits, complex, first_edges, first_triangles),
        reduction_certified(second, vertex_count, edges, second_limits, complex, second_edges, second_triangles),
    ensures
        first.bars == second.bars,
{
    let p = first.modulus as nat;
    let edge_matrix = edge_boundary_views(complex.edges@, p);
    let triangle_matrix = triangle_boundary_views(edge_row_table(complex.edge_rows), complex.triangles@, p);
    assert(complex.edges@.len() == complex.edges.len());
    assert(complex.triangles@.len() == complex.triangles.len());
    assert(edge_matrix.len() <= usize::MAX);
    assert(triangle_matrix.len() <= usize::MAX);
    assert(certified_reduction(edge_matrix, first.edge_columns, first_edges, p));
    assert(certified_reduction(edge_matrix, second.edge_columns, second_edges, p));
    assert(certified_reduction(triangle_matrix, first.triangle_columns, first_triangles, p));
    assert(certified_reduction(triangle_matrix, second.triangle_columns, second_triangles, p));
    lemma_reductions_share_pivots(edge_matrix, first.edge_columns, first_edges, second.edge_columns, second_edges, p);
    lemma_reductions_share_pivots(
        triangle_matrix,
        first.triangle_columns,
        first_triangles,
        second.triangle_columns,
        second_triangles,
        p,
    );
    lemma_distinct_rows(triangle_matrix, first.triangle_columns, first_triangles, p);
    let count = complex.edges@.len() as int;
    lemma_finite_bars_follow(complex.edges@, first_edges, second_edges, count);
    lemma_essential_bars_follow(first_edges, second_edges, vertex_count as int);
    lemma_h1_bars_follow(
        complex.edges@,
        first_edges,
        second_edges,
        complex.triangles@,
        first_triangles,
        second_triangles,
        count,
    );
    let bars = raw_bars(vertex_count, complex.edges@, first_edges, complex.triangles@, first_triangles);
    assert(bars == raw_bars(vertex_count, complex.edges@, second_edges, complex.triangles@, second_triangles));
    lemma_canonical_form_unique(first.bars, second.bars, bars);
}

/// Number of vertex pairs below `v`.
pub(crate) open spec fn pairs_below(v: int) -> int {
    v * (v - 1) / 2
}

/// Number of vertex triples below `w`.
pub(crate) open spec fn triples_below(w: int) -> int {
    w * (w - 1) * (w - 2) / 6
}

pub(crate) proof fn lemma_pairs_step(v: int)
    requires
        v >= 0,
    ensures
        2 * pairs_below(v) == v * (v - 1),
        pairs_below(v + 1) == pairs_below(v) + v,
        pairs_below(v) >= 0,
    decreases v,
{
    if v > 0 {
        lemma_pairs_step(v - 1);
        assert(v * (v - 1) == (v - 1) * (v - 2) + 2 * (v - 1)) by (nonlinear_arith);
    }
    lemma_hoist_over_denominator(v * (v - 1), v, 2);
    assert((v + 1) * v == v * (v - 1) + v * 2) by (nonlinear_arith);
    assert(v * (v - 1) >= 0) by (nonlinear_arith)
        requires
            v >= 0,
    ;
}

proof fn lemma_triples_step(w: int)
    requires
        w >= 0,
    ensures
        triples_below(w + 1) == triples_below(w) + pairs_below(w),
{
    lemma_pairs_step(w);
    lemma_hoist_over_denominator(w * (w - 1) * (w - 2), pairs_below(w), 6);
    assert((w + 1) * w * (w - 1) == w * (w - 1) * (w - 2) + pairs_below(w) * 6) by (nonlinear_arith)
        requires
            2 * pairs_below(w) == w * (w - 1),
    ;
}

pub(crate) proof fn lemma_pairs_monotone(a: int, b: int)
    requires
        0 <= a <= b,
    ensures
        pairs_below(a) <= pairs_below(b),
        a < b ==> pairs_below(a) + a <= pairs_below(b),
    decreases b - a,
{
    lemma_pairs_step(a);
    if a < b {
        lemma_pairs_monotone(a + 1, b);
    }
}

proof fn lemma_triples_monotone(a: int, b: int)
    requires
        0 <= a <= b,
    ensures
        a < b ==> triples_below(a) + pairs_below(a) <= triples_below(b),
        triples_below(a) <= triples_below(b),
    decreases b - a,
{
    lemma_triples_step(a);
    lemma_pairs_step(a);
    if a < b {
        lemma_triples_monotone(a + 1, b);
    }
}

/// Distinct triangles `u < v < w` have distinct colexicographic ranks.
pub(crate) proof fn lemma_triangle_rank_injective(first: (usize, usize, usize), second: (usize, usize, usize))
    requires
        first.0 < first.1 < first.2,
        second.0 < second.1 < second.2,
        spec_triangle_rank(first) == spec_triangle_rank(second),
    ensures
        first == second,
{
    let (a, b, c) = first;
    let (x, y, z) = second;
    assert(spec_triangle_rank(first) == a + pairs_below(b as int) + triples_below(c as int)) by {
        if b == 0 {
            assert(pairs_below(0) == 0);
        }
        if c < 2 {
            assert(triples_below(c as int) == 0) by {
                assert(c * (c - 1) * (c - 2) == 0) by (nonlinear_arith)
                    requires
                        0 <= c < 2,
                ;
            }
        }
    }
    assert(spec_triangle_rank(second) == x + pairs_below(y as int) + triples_below(z as int)) by {
        if y == 0 {
            assert(pairs_below(0) == 0);
        }
        if z < 2 {
            assert(triples_below(z as int) == 0) by {
                assert(z * (z - 1) * (z - 2) == 0) by (nonlinear_arith)
                    requires
                        0 <= z < 2,
                ;
            }
        }
    }
    // Below the top vertex, the rest of the rank stays under the pairs
    // below it.
    lemma_pairs_monotone(b as int, c as int);
    lemma_pairs_monotone(y as int, z as int);
    if c < z {
        lemma_triples_monotone(c as int, z as int);
        lemma_pairs_step(b as int);
        lemma_pairs_monotone((b + 1) as int, c as int);
        lemma_pairs_step(y as int);
    } else if z < c {
        lemma_triples_monotone(z as int, c as int);
        lemma_pairs_step(y as int);
        lemma_pairs_monotone((y + 1) as int, z as int);
        lemma_pairs_step(b as int);
    }
    assert(c == z);
    assert(a + pairs_below(b as int) == x + pairs_below(y as int));
    if b < y {
        lemma_pairs_monotone(b as int, y as int);
    } else if y < b {
        lemma_pairs_monotone(y as int, b as int);
    }
}

/// Two complexes that list the same simplices in the same order have the
/// same boundary matrices.
pub proof fn lemma_same_boundaries(first: FilteredComplex, second: FilteredComplex, p: nat)
    requires
        rows_of(first.edges@, edge_row_table(first.edge_rows)),
        rows_of(second.edges@, edge_row_table(second.edge_rows)),
        true_triangles(first.edges@, first.triangles@),
        edge_views(first.edges@) == edge_views(second.edges@),
        triangle_views(first.triangles@) == triangle_views(second.triangles@),
    ensures
        edge_boundary_views(first.edges@, p) == edge_boundary_views(second.edges@, p),
        triangle_boundary_views(edge_row_table(first.edge_rows), first.triangles@, p) == triangle_boundary_views(
            edge_row_table(second.edge_rows),
            second.triangles@,
            p,
        ),
{
    let e = first.edges@;
    let f = second.edges@;
    let first_rows = edge_row_table(first.edge_rows);
    let second_rows = edge_row_table(second.edge_rows);
    assert(e.len() == edge_views(e).len());
    assert(f.len() == edge_views(f).len());
    assert forall|c: int| 0 <= c < e.len() implies #[trigger] e[c].vertices == f[c].vertices by {
        assert(edge_views(e)[c] == edge_views(f)[c]);
        assert(edge_views(e)[c][0] == e[c].vertices.0);
        assert(edge_views(f)[c][0] == f[c].vertices.0);
        assert(edge_views(e)[c][1] == e[c].vertices.1);
        assert(edge_views(f)[c][1] == f[c].vertices.1);
    }
    assert(edge_boundary_views(e, p) =~= edge_boundary_views(f, p));
    let t = first.triangles@;
    let s = second.triangles@;
    assert(t.len() == triangle_views(t).len());
    assert(s.len() == triangle_views(s).len());
    assert forall|k: int| 0 <= k < t.len() implies #[trigger] triangle_boundary_views(first_rows, t, p)[k]
        == triangle_boundary_views(second_rows, s, p)[k] by {
        assert(triangle_views(t)[k] == triangle_views(s)[k]);
        assert(triangle_views(t)[k][0] == t[k].vertices.0 && triangle_views(s)[k][0] == s[k].vertices.0);
        assert(triangle_views(t)[k][1] == t[k].vertices.1 && triangle_views(s)[k][1] == s[k].vertices.1);
        assert(triangle_views(t)[k][2] == t[k].vertices.2 && triangle_views(s)[k][2] == s[k].vertices.2);
        let (u, v, w) = t[k].vertices;
        assert(is_filtered_triangle(e, t[k].vertices));
        let a = choose|i: int| 0 <= i < e.len() && (#[trigger] e[i]).vertices == (u, v);
        let b = choose|i: int| 0 <= i < e.len() && (#[trigger] e[i]).vertices == (u, w);
        let c = choose|i: int| 0 <= i < e.len() && (#[trigger] e[i]).vertices == (v, w);
        assert(first_rows[e[a].vertices] == a && second_rows[f[a].vertices] == a);
        assert(first_rows[e[b].vertices] == b && second_rows[f[b].vertices] == b);
        assert(first_rows[e[c].vertices] == c && second_rows[f[c].vertices] == c);
    }
    assert(triangle_boundary_views(first_rows, t, p) =~= triangle_boundary_views(second_rows, s, p));
}

/// Filtration order of triangles, refined to a total order on all values.
spec fn triangle_le(first: FilteredTriangle, second: FilteredTriangle) -> bool {
    let a = total_key(first.value);
    let b = total_key(second.value);
    let r = spec_triangle_rank(first.vertices);
    let s = spec_triangle_rank(second.vertices);
    let (u, v, w) = first.vertices;
    let (x, y, z) = second.vertices;
    ||| a < b
    ||| a == b && s < r
    ||| a == b && s == r && u < x
    ||| a == b && s == r && u == x && v < y
    ||| a == b && s == r && u == x && v == y && w < z
    ||| a == b && s == r && u == x && v == y && w == z && first.value <= second.value
}

proof fn lemma_triangle_le_total()
    ensures
        total_ordering(|first: FilteredTriangle, second: FilteredTriangle| triangle_le(first, second)),
{
}

/// The edges of a graph below a threshold, in filtration order, are
/// determined by the graph.
proof fn lemma_filtered_edges_unique(first: Seq<FilteredEdge>, second: Seq<FilteredEdge>, active: Seq<WeightedEdge>)
    requires
        orders_edges(first, active),
        orders_edges(second, active),
        active.len() <= usize::MAX,
    ensures
        first == second,
{
    let n = active.len();
    let first_order = choose|order: Seq<int>|
        #[trigger] is_permutation(order, active.len()) && first.len() == active.len() && (forall|j: int|
            0 <= j < first.len() ==> #[trigger] first[j] == filtered_edge(active[order[j]])) && (forall|
            i: int,
            j: int,
        |
            0 <= i < j < first.len() ==> key_lt(
                edge_key(active[order[i]], order[i]),
                edge_key(active[order[j]], order[j]),
            ));
    let second_order = choose|order: Seq<int>|
        #[trigger] is_permutation(order, active.len()) && second.len() == active.len() && (forall|j: int|
            0 <= j < second.len() ==> #[trigger] second[j] == filtered_edge(active[order[j]])) && (forall|
            i: int,
            j: int,
        |
            0 <= i < j < second.len() ==> key_lt(
                edge_key(active[order[i]], order[i]),
                edge_key(active[order[j]], order[j]),
            ));
    let keys = Seq::new(n, |k: int| edge_key(active[k], k));
    let first_keys = Seq::new(n, |j: int| keys[first_order[j]]);
    let second_keys = Seq::new(n, |j: int| keys[second_order[j]]);
    lemma_permuted_multiset(first_keys, keys, first_order);
    lemma_permuted_multiset(second_keys, keys, second_order);
    let leq = |a: SimplexKey, b: SimplexKey| key_le(a, b);
    assert(total_ordering(leq));
    assert forall|i: int, j: int| 0 <= i < j < first_keys.len() implies #[trigger] leq(first_keys[i], first_keys[j]) by {
        assert(key_lt(edge_key(active[first_order[i]], first_order[i]), edge_key(active[first_order[j]], first_order[j])));
    }
    assert forall|i: int, j: int| 0 <= i < j < second_keys.len() implies #[trigger] leq(second_keys[i], second_keys[j]) by {
        assert(key_lt(edge_key(active[second_order[i]], second_order[i]), edge_key(active[second_order[j]], second_order[j])));
    }
    lemma_sorted_unique(first_keys, second_keys, leq);
    assert forall|j: int| 0 <= j < n implies #[trigger] first[j] == second[j] by {
        assert(first_keys[j] == second_keys[j]);
        assert(first_keys[j].2 == first_order[j] as usize);
        assert(second_keys[j].2 == second_order[j] as usize);
    }
    assert(first =~= second);
}

/// The triangles of one list of filtered edges, in filtration order, are
/// determined by the edges when every vertex label lies below the rank
/// bound.
proof fn lemma_filtered_triangles_unique(
    edges: Seq<FilteredEdge>,
    first: Seq<FilteredTriangle>,
    second: Seq<FilteredTriangle>,
)
    requires
        lists_all_triangles(edges, first),
        lists_all_triangles(edges, second),
        forall|a: int, b: int| 0 <= a < b < first.len() ==> triangle_order_le(first[a], first[b]),
        forall|a: int, b: int| 0 <= a < b < second.len() ==> triangle_order_le(second[a], second[b]),
        forall|c: int| 0 <= c < edges.len() ==> (#[trigger] edges[c]).vertices.1 < 0x400_0000_0000,
    ensures
        first == second,
{
    broadcast use vstd::seq_lib::group_to_multiset_ensures;
    broadcast use vstd::multiset::group_multiset_axioms;

    let leq = |a: FilteredTriangle, b: FilteredTriangle| triangle_le(a, b);
    lemma_triangle_le_total();
    lemma_listed_triangles_sorted(edges, first);
    lemma_listed_triangles_sorted(edges, second);
    assert(first.no_duplicates()) by {
        assert forall|a: int, b: int| 0 <= a < first.len() && 0 <= b < first.len() && a != b implies first[a] != first[b] by {
            if a < b {
                assert(first[a].vertices != first[b].vertices);
            } else {
                assert(first[b].vertices != first[a].vertices);
            }
        }
    }
    assert(second.no_duplicates()) by {
        assert forall|a: int, b: int| 0 <= a < second.len() && 0 <= b < second.len() && a != b implies second[a] != second[b] by {
            if a < b {
                assert(second[a].vertices != second[b].vertices);
            } else {
                assert(second[b].vertices != second[a].vertices);
            }
        }
    }
    first.lemma_multiset_has_no_duplicates();
    second.lemma_multiset_has_no_duplicates();
    assert forall|t: FilteredTriangle| #[trigger] first.contains(t) <==> second.contains(t) by {
        if first.contains(t) {
            let k = choose|k: int| 0 <= k < first.len() && first[k] == t;
            assert(is_filtered_triangle(edges, first[k].vertices));
            assert(lists_triangle(second, t.vertices));
            let m = choose|m: int| 0 <= m < second.len() && (#[trigger] second[m]).vertices == t.vertices;
            assert(second[m] == t);
        }
        if second.contains(t) {
            let k = choose|k: int| 0 <= k < second.len() && second[k] == t;
            assert(is_filtered_triangle(edges, second[k].vertices));
            assert(lists_triangle(first, t.vertices));
            let m = choose|m: int| 0 <= m < first.len() && (#[trigger] first[m]).vertices == t.vertices;
            assert(first[m] == t);
        }
    }
    assert forall|t: FilteredTriangle| #[trigger] first.to_multiset().count(t) == second.to_multiset().count(t) by {
        if first.contains(t) {
            assert(first.to_multiset().contains(t));
            assert(second.to_multiset().contains(t));
        } else {
            assert(!first.to_multiset().contains(t));
            assert(!second.to_multiset().contains(t));
        }
    }
    assert(first.to_multiset() =~= second.to_multiset());
    lemma_sorted_unique(first, second, leq);
}

/// A list of all filtered triangles in filtration order is ordered by the
/// refined total order: distinct triangles never share a key.
proof fn lemma_listed_triangles_sorted(edges: Seq<FilteredEdge>, listed: Seq<FilteredTriangle>)
    requires
        lists_all_triangles(edges, listed),
        forall|a: int, b: int| 0 <= a < b < listed.len() ==> triangle_order_le(listed[a], listed[b]),
        forall|c: int| 0 <= c < edges.len() ==> (#[trigger] edges[c]).vertices.1 < 0x400_0000_0000,
    ensures
        sorted_by(listed, |a: FilteredTriangle, b: FilteredTriangle| triangle_le(a, b)),
{
    assert forall|a: int, b: int| 0 <= a < b < listed.len() implies #[trigger] triangle_le(listed[a], listed[b]) by {
        assert(triangle_order_le(listed[a], listed[b]));
        assert(listed[a].vertices != listed[b].vertices);
        lemma_listed_rank_fits(edges, listed[a]);
        lemma_listed_rank_fits(edges, listed[b]);
        if spec_triangle_rank(listed[a].vertices) == spec_triangle_rank(listed[b].vertices) {
            lemma_triangle_rank_injective(listed[a].vertices, listed[b].vertices);
        }
    }
}

/// A filtered triangle over edges with small labels has a rank that fits
/// a `u128`.
pub(crate) proof fn lemma_listed_rank_fits(edges: Seq<FilteredEdge>, triangle: FilteredTriangle)
    requires
        is_filtered_triangle(edges, triangle.vertices),
        forall|c: int| 0 <= c < edges.len() ==> (#[trigger] edges[c]).vertices.1 < 0x400_0000_0000,
    ensures
        0 <= spec_triangle_rank(triangle.vertices) <= u128::MAX,
{
    let (u, v, w) = triangle.vertices;
    let k = choose|k: int| 0 <= k < edges.len() && (#[trigger] edges[k]).vertices == (v, w);
    assert(edges[k].vertices.1 == w);
    lemma_pairs_step(v as int);
    lemma_pairs_step(w as int);
    lemma_triples_step(w as int);
    lemma_pairs_monotone(v as int, w as int);
    assert(spec_triangle_rank(triangle.vertices) == u + pairs_below(v as int) + triples_below(w as int));
    assert(triples_below(w as int) <= w * w * w) by {
        assert(0 <= w * (w - 1) * (w - 2) <= w * w * w * 6) by (nonlinear_arith)
            requires
                2 <= w,
        ;
        lemma_div_is_ordered(w * (w - 1) * (w - 2), w * w * w * 6, 6);
        lemma_div_multiples_vanish(w * w * w, 6);
    }
    assert(w * w * w <= 0x400_0000_0000 * 0x400_0000_0000 * 0x400_0000_0000) by (nonlinear_arith)
        requires
            0 <= w < 0x400_0000_0000,
    ;
    assert(pairs_below(v as int) <= v * v) by {
        assert(0 <= v * (v - 1) <= v * v * 2) by (nonlinear_arith)
            requires
                1 <= v,
        ;
    }
    assert(v * v <= 0x400_0000_0000 * 0x400_0000_0000) by (nonlinear_arith)
        requires
            0 <= v < 0x400_0000_0000,
    ;
}

/// Two certificates that certify one graph under one modulus and one
/// threshold record the same diagram, when every vertex label lies below
/// the rank bound: the certified diagram is a function of the graph.
pub proof fn lemma_certified_diagram_unique(
    first: CertificateView,
    second: CertificateView,
    vertex_count: usize,
    edges: Seq<WeightedEdge>,
    first_limits: CertificateLimits,
    second_limits: CertificateLimits,
)
    requires
        certifies(first, vertex_count, edges, first_limits),
        certifies(second, vertex_count, edges, second_limits),
        first.modulus == second.modulus,
        first.threshold == second.threshold,
        vertex_count <= 0x400_0000_0000,
    ensures
        first.bars == second.bars,
{
    let (k1, e1, t1) = choose|complex: FilteredComplex, reduced_edges: Seq<Seq<(usize, u64)>>, reduced_triangles: Seq<
        Seq<(usize, u64)>,
    >| #[trigger] reduction_certified(first, vertex_count, edges, first_limits, complex, reduced_edges, reduced_triangles);
    let (k2, e2, t2) = choose|complex: FilteredComplex, reduced_edges: Seq<Seq<(usize, u64)>>, reduced_triangles: Seq<
        Seq<(usize, u64)>,
    >| #[trigger] reduction_certified(second, vertex_count, edges, second_limits, complex, reduced_edges, reduced_triangles);
    let threshold = threshold_bits(first.threshold);
    let active = active_at(edges, threshold);
    assert(active.len() == k1.edges@.len() && k1.edges@.len() == k1.edges.len());
    lemma_filtered_edges_unique(k1.edges@, k2.edges@, active);
    assert forall|c: int| 0 <= c < k1.edges@.len() implies (#[trigger] k1.edges@[c]).vertices.1 < 0x400_0000_0000 by {
        assert(plain_edges(vertex_count, k1.edges@));
    }
    lemma_filtered_triangles_unique(k1.edges@, k1.triangles@, k2.triangles@);
    let p = first.modulus as nat;
    lemma_same_boundaries(k2, k1, p);
    assert(reduction_certified(second, vertex_count, edges, second_limits, k1, e2, t2));
    lemma_checked_diagram_unique(first, second, vertex_count, edges, first_limits, second_limits, k1, e1, t1, e2, t2);
}

} // verus!
