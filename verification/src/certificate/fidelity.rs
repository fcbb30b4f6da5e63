//! A region compiled from a checked reduction holds on the graph it was
//! compiled from: the vertex set, the listed edges and the threshold
//! membership are unchanged, and every comparison the reduction asks for
//! holds at the graph's own lengths.

use vstd::prelude::*;

use crate::graph::{active_at, endpoints, value_at_most, WeightedEdge};

use super::checked::{
    canonical_form, distinct_pivot_rows, h0_essential_bars, h0_finite_bars, h1_bars, h1_death, killed,
    lemma_rows_below, pivot_row, raw_bars, reduces_to, reduction_certified, threshold_bits,
};
use super::compile::{
    compiled_from, edge_views, h1_death_triangle, killing_positions, region_guards, region_h1_pairs,
    triangle_views, unkilled_count,
};
use super::complex::{
    edge_length, edge_key, edge_row_table, filtered_edge, has_filtered_edge, is_filtered_triangle,
    lemma_active_simple, orders_edges, simple_graph, spec_edge_rank, triangle_boundary_views, triangle_length,
    triangle_order_le, FilteredComplex, FilteredEdge, FilteredTriangle,
};
use super::evaluate::{
    crossings, essential_bars, guard_failures, h0_region_bars, h1_records, lengths, listed_value,
    pair_death_value, region_bars, region_violations, value_greater, RecordView,
};
use super::region::RegionH1Pair;
use crate::diagram::{Bar, INFINITY_BITS};
use super::guards::{
    change_guards, column_change_guards, column_pivot_guards, has_edge, kept_guard, pivot_guards, GuardView,
};
use super::matrix::{valid_change_column, valid_change_columns};
use super::model::{CertificateLimits, CertificateTerm, CertificateView};
use super::order::{is_permutation, key_lt};
use super::region::{guard_holds, simplex_rank_spec, simplex_value, RegionView};
use super::repair::{lemma_position_map, position_map};
use super::sparse::wf_column;


verus! {

/// The guard compares two simplices of `views`, the earlier one first.
pub open spec fn ordered_in(views: Seq<Seq<usize>>, guard: GuardView) -> bool {
    exists|a: int, b: int| 0 <= a < b < views.len() && #[trigger] views[a] == guard.1 && #[trigger] views[b] == guard.2
}

/// Colexicographic ranks of small edges and triangles fit a `u128`.
proof fn lemma_rank_fits(vertices: Seq<usize>)
    requires
        vertices.len() == 2 || vertices.len() == 3,
        forall|i: int| 0 <= i < vertices.len() ==> #[trigger] vertices[i] < 0x400_0000_0000,
    ensures
        0 <= simplex_rank_spec(vertices) <= u128::MAX,
{
    let v = vertices[1] as int;
    assert(0 <= v * (v - 1) / 2 <= 0x100_0000_0000_0000_0000_0000) by (nonlinear_arith)
        requires
            1 <= v < 0x400_0000_0000 || v == 0,
    {
        if v >= 1 {
            assert(0 <= v * (v - 1));
            assert(v * (v - 1) <= 0x400_0000_0000 * 0x400_0000_0000);
        }
    }
    if vertices.len() == 3 {
        let w = vertices[2] as int;
        if w >= 2 {
            assert(0 <= w * (w - 1) <= 0x10_0000_0000_0000_0000_0000) by (nonlinear_arith)
                requires
                    2 <= w < 0x400_0000_0000,
            {
                assert(w * (w - 1) <= 0x400_0000_0000 * 0x400_0000_0000);
            }
            let x = w * (w - 1);
            assert(0 <= x * (w - 2) <= 0x10_0000_0000_0000_0000_0000 * 0x400_0000_0000) by (nonlinear_arith)
                requires
                    0 <= x <= 0x10_0000_0000_0000_0000_0000,
                    0 <= w - 2 < 0x400_0000_0000,
            ;
            assert(w * (w - 1) * (w - 2) == x * (w - 2));
        }
    }
}

/// The listed length of a filtered edge is its length in the complex.
pub(crate) proof fn lemma_pair_value(
    edges: Seq<FilteredEdge>,
    input: Seq<WeightedEdge>,
    threshold: u64,
    vertex_count: usize,
    u: usize,
    v: usize,
)
    requires
        simple_graph(vertex_count, input),
        orders_edges(edges, active_at(input, threshold)),
        super::complex::distinct_edges(edges),
        has_filtered_edge(edges, u, v),
        input.len() <= usize::MAX,
    ensures
        position_map(endpoints(input)).contains_key((u, v)),
        lengths(input)[position_map(endpoints(input))[(u, v)] as int] == edge_length(edges, u, v),
{
    let active = active_at(input, threshold);
    lemma_active_simple(vertex_count, input, threshold);
    let order = choose|order: Seq<int>|
        #[trigger] is_permutation(order, active.len()) && edges.len() == active.len() && (forall|j: int|
            0 <= j < edges.len() ==> #[trigger] edges[j] == filtered_edge(active[order[j]])) && (forall|
            i: int,
            j: int,
        |
            0 <= i < j < edges.len() ==> key_lt(
                edge_key(active[order[i]], order[i]),
                edge_key(active[order[j]], order[j]),
            ));
    let i = choose|i: int| 0 <= i < edges.len() && (#[trigger] edges[i]).vertices == (u, v);
    assert(edges[i] == filtered_edge(active[order[i]]));
    assert(0 <= order[i] < active.len());
    assert(input.contains(active[order[i]]));
    let m = choose|m: int| 0 <= m < input.len() && input[m] == active[order[i]];
    let topology = endpoints(input);
    assert(super::repair::distinct_simplices(topology)) by {
        assert forall|a: int, b: int| 0 <= a < b < topology.len() implies topology[a] != topology[b] by {
            assert(topology[a] == (input[a].0, input[a].1));
            assert(topology[b] == (input[b].0, input[b].1));
        }
    }
    assert(topology[m] == (u, v));
    lemma_position_map(topology, m);
    let c = choose|c: int| 0 <= c < edges.len() && (#[trigger] edges[c]).vertices == (u, v);
    if c != i {
        if c < i {
            assert(edges[c].vertices != edges[i].vertices);
        } else {
            assert(edges[i].vertices != edges[c].vertices);
        }
    }
}

/// The value a region reads for a filtered edge is its length.
pub(crate) proof fn lemma_edge_value(
    edges: Seq<FilteredEdge>,
    input: Seq<WeightedEdge>,
    threshold: u64,
    vertex_count: usize,
    t: int,
)
    requires
        simple_graph(vertex_count, input),
        orders_edges(edges, active_at(input, threshold)),
        super::complex::distinct_edges(edges),
        0 <= t < edges.len(),
        input.len() <= usize::MAX,
    ensures
        simplex_value(edge_views(edges)[t], endpoints(input), lengths(input)) == edges[t].value,
{
    let (u, v) = edges[t].vertices;
    assert(has_filtered_edge(edges, u, v));
    lemma_pair_value(edges, input, threshold, vertex_count, u, v);
    let c = choose|c: int| 0 <= c < edges.len() && (#[trigger] edges[c]).vertices == (u, v);
    if c != t {
        if c < t {
            assert(edges[c].vertices != edges[t].vertices);
        } else {
            assert(edges[t].vertices != edges[c].vertices);
        }
    }
    assert(edge_views(edges)[t] == seq![u, v]);
}

/// The value a region reads for a filtered triangle is its value.
pub(crate) proof fn lemma_triangle_value(
    edges: Seq<FilteredEdge>,
    triangles: Seq<FilteredTriangle>,
    input: Seq<WeightedEdge>,
    threshold: u64,
    vertex_count: usize,
    t: int,
)
    requires
        simple_graph(vertex_count, input),
        orders_edges(edges, active_at(input, threshold)),
        super::complex::distinct_edges(edges),
        0 <= t < triangles.len(),
        is_filtered_triangle(edges, triangles[t].vertices),
        triangles[t].value == triangle_length(edges, triangles[t].vertices),
        input.len() <= usize::MAX,
    ensures
        simplex_value(triangle_views(triangles)[t], endpoints(input), lengths(input)) == triangles[t].value,
{
    let (u, v, w) = triangles[t].vertices;
    lemma_pair_value(edges, input, threshold, vertex_count, u, v);
    lemma_pair_value(edges, input, threshold, vertex_count, u, w);
    lemma_pair_value(edges, input, threshold, vertex_count, v, w);
    assert(triangle_views(triangles)[t] == seq![u, v, w]);
}

/// Two filtered edges in filtration order meet the guard between them.
proof fn lemma_edge_guard(
    edges: Seq<FilteredEdge>,
    input: Seq<WeightedEdge>,
    threshold: u64,
    vertex_count: usize,
    guard: GuardView,
    a: int,
    b: int,
)
    requires
        simple_graph(vertex_count, input),
        vertex_count <= 0x400_0000_0000,
        orders_edges(edges, active_at(input, threshold)),
        super::complex::distinct_edges(edges),
        input.len() <= usize::MAX,
        0 <= a < b < edges.len(),
        guard.1 == edge_views(edges)[a],
        guard.2 == edge_views(edges)[b],
    ensures
        guard_holds(guard, endpoints(input), lengths(input)),
{
    let active = active_at(input, threshold);
    lemma_active_simple(vertex_count, input, threshold);
    lemma_edge_value(edges, input, threshold, vertex_count, a);
    lemma_edge_value(edges, input, threshold, vertex_count, b);
    let order = choose|order: Seq<int>|
        #[trigger] is_permutation(order, active.len()) && edges.len() == active.len() && (forall|j: int|
            0 <= j < edges.len() ==> #[trigger] edges[j] == filtered_edge(active[order[j]])) && (forall|
            i: int,
            j: int,
        |
            0 <= i < j < edges.len() ==> key_lt(
                edge_key(active[order[i]], order[i]),
                edge_key(active[order[j]], order[j]),
            ));
    assert(edges[a] == filtered_edge(active[order[a]]));
    assert(edges[b] == filtered_edge(active[order[b]]));
    assert(0 <= order[a] < active.len() && 0 <= order[b] < active.len());
    let first = active[order[a]];
    let second = active[order[b]];
    assert(first.0 < first.1 < vertex_count && second.0 < second.1 < vertex_count);
    assert(key_lt(edge_key(first, order[a]), edge_key(second, order[b])));
    lemma_rank_fits(seq![first.0, first.1]);
    lemma_rank_fits(seq![second.0, second.1]);
    assert(simplex_rank_spec(guard.1) == spec_edge_rank(first.0, first.1));
    assert(simplex_rank_spec(guard.2) == spec_edge_rank(second.0, second.1));
}

/// Two filtered triangles in filtration order meet the guard between them.
proof fn lemma_triangle_guard(
    edges: Seq<FilteredEdge>,
    triangles: Seq<FilteredTriangle>,
    input: Seq<WeightedEdge>,
    threshold: u64,
    vertex_count: usize,
    guard: GuardView,
    a: int,
    b: int,
)
    requires
        simple_graph(vertex_count, input),
        vertex_count <= 0x400_0000_0000,
        orders_edges(edges, active_at(input, threshold)),
        super::complex::plain_edges(vertex_count, edges),
        super::complex::true_triangles(edges, triangles),
        input.len() <= usize::MAX,
        0 <= a < b < triangles.len(),
        triangle_order_le(triangles[a], triangles[b]),
        guard.1 == triangle_views(triangles)[a],
        guard.2 == triangle_views(triangles)[b],
    ensures
        guard_holds(guard, endpoints(input), lengths(input)),
{
    assert(is_filtered_triangle(edges, triangles[a].vertices));
    assert(is_filtered_triangle(edges, triangles[b].vertices));
    lemma_triangle_value(edges, triangles, input, threshold, vertex_count, a);
    lemma_triangle_value(edges, triangles, input, threshold, vertex_count, b);
    let (u, v, w) = triangles[a].vertices;
    let (x, y, z) = triangles[b].vertices;
    let i = choose|i: int| 0 <= i < edges.len() && (#[trigger] edges[i]).vertices == (v, w);
    let j = choose|j: int| 0 <= j < edges.len() && (#[trigger] edges[j]).vertices == (y, z);
    assert(edges[i].vertices.1 < vertex_count && edges[j].vertices.1 < vertex_count);
    assert(guard.1 == seq![u, v, w]);
    assert(guard.2 == seq![x, y, z]);
    lemma_rank_fits(guard.1);
    lemma_rank_fits(guard.2);
}

/// Every change-of-basis guard of valid change columns compares an earlier
/// simplex with a later one.
proof fn lemma_change_guards_ordered(columns: Seq<Seq<CertificateTerm>>, views: Seq<Seq<usize>>, p: nat, g: int)
    requires
        valid_change_columns(columns, p),
        columns.len() <= views.len(),
        0 <= g < change_guards(columns, views).len(),
    ensures
        ordered_in(views, change_guards(columns, views)[g]),
    decreases columns.len(),
{
    let rest = columns.drop_last();
    let earlier = change_guards(rest, views);
    if g < earlier.len() {
        assert forall|j: int| 0 <= j < rest.len() implies valid_change_column(#[trigger] rest[j], j as nat, p) by {
            assert(rest[j] == columns[j]);
        }
        lemma_change_guards_ordered(rest, views, p, g);
    } else {
        let target = columns.len() - 1;
        assert(valid_change_column(columns[target], target as nat, p));
        assert(columns.last() == columns[target]);
        lemma_column_guards_ordered(columns.last(), target, views, p, g - earlier.len());
    }
}

proof fn lemma_column_guards_ordered(terms: Seq<CertificateTerm>, target: int, views: Seq<Seq<usize>>, p: nat, g: int)
    requires
        0 <= target < views.len(),
        forall|i: int| 0 <= i < terms.len() ==> (#[trigger] terms[i]).index <= target,
        0 <= g < column_change_guards(terms, target, views).len(),
    ensures
        ordered_in(views, column_change_guards(terms, target, views)[g]),
    decreases terms.len(),
{
    let rest = terms.drop_last();
    let earlier = column_change_guards(rest, target, views);
    if g < earlier.len() {
        assert forall|i: int| 0 <= i < rest.len() implies (#[trigger] rest[i]).index <= target by {
            assert(rest[i] == terms[i]);
        }
        lemma_column_guards_ordered(rest, target, views, p, g);
    } else {
        let last = terms.last();
        assert(last == terms[terms.len() - 1]);
        let guard = column_change_guards(terms, target, views)[g];
        assert(guard.1 == views[last.index as int] && guard.2 == views[target]);
    }
}

/// Every pivot guard of reduced columns whose rows lie below `bound`
/// compares an earlier row with its column's pivot.
proof fn lemma_pivot_guards_ordered(columns: Seq<Seq<(usize, u64)>>, views: Seq<Seq<usize>>, p: nat, g: int)
    requires
        forall|j: int| 0 <= j < columns.len() ==> wf_column(#[trigger] columns[j], p),
        forall|j: int, t: int| 0 <= j < columns.len() && 0 <= t < columns[j].len() ==> (#[trigger] columns[j][t]).0 < views.len(),
        0 <= g < pivot_guards(columns, views).len(),
    ensures
        ordered_in(views, pivot_guards(columns, views)[g]),
    decreases columns.len(),
{
    let rest = columns.drop_last();
    let earlier = pivot_guards(rest, views);
    if g < earlier.len() {
        assert forall|j: int| 0 <= j < rest.len() implies wf_column(#[trigger] rest[j], p) by {
            assert(rest[j] == columns[j]);
        }
        assert forall|j: int, t: int| 0 <= j < rest.len() && 0 <= t < rest[j].len() implies (#[trigger] rest[j][t]).0 < views.len() by {
            assert(rest[j] == columns[j]);
        }
        lemma_pivot_guards_ordered(rest, views, p, g);
    } else {
        let column = columns.last();
        assert(column == columns[columns.len() - 1]);
        assert(wf_column(column, p));
        assert(column.len() > 0);
        assert(column.last() == column[column.len() - 1]);
        lemma_rows_ordered(column, column.last().0, views, p, g - earlier.len());
    }
}

proof fn lemma_rows_ordered(rows: Seq<(usize, u64)>, pivot: usize, views: Seq<Seq<usize>>, p: nat, g: int)
    requires
        pivot < views.len(),
        forall|t: int| 0 <= t < rows.len() ==> (#[trigger] rows[t]).0 <= pivot,
        0 <= g < column_pivot_guards(rows, pivot, views).len(),
    ensures
        ordered_in(views, column_pivot_guards(rows, pivot, views)[g]),
    decreases rows.len(),
{
    let rest = rows.drop_last();
    let earlier = column_pivot_guards(rest, pivot, views);
    if g < earlier.len() {
        assert forall|t: int| 0 <= t < rest.len() implies (#[trigger] rest[t]).0 <= pivot by {
            assert(rest[t] == rows[t]);
        }
        lemma_rows_ordered(rest, pivot, views, p, g);
    } else {
        assert(rows.last() == rows[rows.len() - 1]);
        let guard = column_pivot_guards(rows, pivot, views)[g];
        assert(guard.1 == views[rows.last().0 as int] && guard.2 == views[pivot as int]);
    }
}

/// No guard fails when every guard holds.
proof fn lemma_no_guard_failures(guards: Seq<GuardView>, topology: Seq<(usize, usize)>, values: Seq<u64>, count: int)
    requires
        count <= guards.len(),
        forall|i: int| 0 <= i < guards.len() ==> guard_holds(#[trigger] guards[i], topology, values),
    ensures
        guard_failures(guards, topology, values, count).len() == 0,
    decreases count,
{
    if count > 0 {
        lemma_no_guard_failures(guards, topology, values, count - 1);
    }
}

/// No edge crosses the threshold when the membership is the one recorded.
proof fn lemma_no_crossings(
    topology: Seq<(usize, usize)>,
    active: Seq<bool>,
    values: Seq<u64>,
    threshold: u64,
    count: int,
)
    requires
        count <= active.len(),
        count <= values.len(),
        forall|i: int| 0 <= i < count ==> #[trigger] active[i] == value_at_most(values[i], threshold),
    ensures
        crossings(topology, active, values, threshold, count).len() == 0,
    decreases count,
{
    if count > 0 {
        lemma_no_crossings(topology, active, values, threshold, count - 1);
    }
}

/// A region compiled from a certified reduction of a graph reports no
/// violation on that graph: the graph's own lengths keep every comparison
/// the reduction depends on.
pub proof fn lemma_compiled_region_holds(
    region: RegionView,
    certificate: CertificateView,
    vertex_count: usize,
    edges: Seq<WeightedEdge>,
    limits: CertificateLimits,
    complex: FilteredComplex,
    reduced_edges: Seq<Seq<(usize, u64)>>,
    reduced_triangles: Seq<Seq<(usize, u64)>>,
)
    requires
        simple_graph(vertex_count, edges),
        vertex_count <= 0x400_0000_0000,
        edges.len() <= usize::MAX,
        crate::field::supported_modulus(certificate.modulus as nat),
        reduction_certified(certificate, vertex_count, edges, limits, complex, reduced_edges, reduced_triangles),
        compiled_from(region, certificate, vertex_count, edges, complex, reduced_edges, reduced_triangles),
    ensures
        region_violations(region, vertex_count, edges).len() == 0,
{
    let threshold = threshold_bits(certificate.threshold);
    let p = certificate.modulus as nat;
    let topology = endpoints(edges);
    let values = lengths(edges);
    let e = complex.edges@;
    let t = complex.triangles@;
    let all = region_guards(certificate, e, t, reduced_triangles);
    assert(p > 0) by {
        assert(crate::field::spec_is_prime(p) ==> p >= 2);
    }
    lemma_no_crossings(topology, region.active, values, threshold, topology.len() as int);
    let first = change_guards(certificate.edge_columns, edge_views(e));
    let second = change_guards(certificate.triangle_columns, triangle_views(t));
    let third = pivot_guards(reduced_triangles, edge_views(e));
    let tbv = triangle_boundary_views(edge_row_table(complex.edge_rows), t, p);
    super::compile::lemma_triangle_rows(e, edge_row_table(complex.edge_rows), t, p);
    assert forall|j: int, k: int| 0 <= j < reduced_triangles.len() && 0 <= k < reduced_triangles[j].len() implies (
    #[trigger] reduced_triangles[j][k]).0 < edge_views(e).len() by {
        lemma_rows_below(tbv, certificate.triangle_columns[j], p, reduced_triangles[j], e.len());
    }
    assert forall|i: int| 0 <= i < all.len() implies guard_holds(#[trigger] all[i], topology, values) by {
        if i < first.len() {
            assert(all[i] == first[i]);
            lemma_change_guards_ordered(certificate.edge_columns, edge_views(e), p, i);
            let (a, b) = choose|a: int, b: int|
                0 <= a < b < edge_views(e).len() && #[trigger] edge_views(e)[a] == first[i].1 && #[trigger] edge_views(e)[b]
                    == first[i].2;
            lemma_edge_guard(e, edges, threshold, vertex_count, all[i], a, b);
        } else if i < first.len() + second.len() {
            assert(all[i] == second[i - first.len()]);
            lemma_change_guards_ordered(certificate.triangle_columns, triangle_views(t), p, i - first.len());
            let (a, b) = choose|a: int, b: int|
                0 <= a < b < triangle_views(t).len() && #[trigger] triangle_views(t)[a] == second[i - first.len()].1
                    && #[trigger] triangle_views(t)[b] == second[i - first.len()].2;
            lemma_triangle_guard(e, t, edges, threshold, vertex_count, all[i], a, b);
        } else {
            assert(all[i] == third[i - first.len() - second.len()]);
            assert forall|j: int| 0 <= j < reduced_triangles.len() implies wf_column(#[trigger] reduced_triangles[j], p) by {
                assert(reduces_to(tbv, certificate.triangle_columns[j], p, reduced_triangles[j]));
            }
            lemma_pivot_guards_ordered(reduced_triangles, edge_views(e), p, i - first.len() - second.len());
            let (a, b) = choose|a: int, b: int|
                0 <= a < b < edge_views(e).len() && #[trigger] edge_views(e)[a] == third[i - first.len()
                    - second.len()].1 && #[trigger] edge_views(e)[b] == third[i - first.len() - second.len()].2;
            lemma_edge_guard(e, edges, threshold, vertex_count, all[i], a, b);
        }
    }
    assert forall|k: int| 0 <= k < region.guards.len() implies guard_holds(#[trigger] region.guards[k], topology, values) by {
        assert(kept_guard(all, region.guards[k]));
        let i = choose|i: int| 0 <= i < all.len() && (#[trigger] all[i]).1 == region.guards[k].1 && all[i].2 == region.guards[k].2;
        assert(guard_holds(all[i], topology, values));
    }
    lemma_no_guard_failures(region.guards, topology, values, region.guards.len() as int);
}

/// For patterns of non-negative values that are not NaN, `value_greater`
/// is the numeric order of the patterns.
proof fn lemma_greater_bits(left: u64, right: u64)
    requires
        left <= INFINITY_BITS,
        right <= INFINITY_BITS,
    ensures
        value_greater(left, right) <==> left > right,
{
    vstd::arithmetic::div_mod::lemma_small_mod(left as nat, 0x8000_0000_0000_0000nat);
    vstd::arithmetic::div_mod::lemma_small_mod(right as nat, 0x8000_0000_0000_0000nat);
}

/// Finite H0 intervals read off a pushed list of deaths keep those of the
/// list.
proof fn lemma_h0_region_prefix(deaths: Seq<usize>, last: usize, values: Seq<u64>, count: int)
    requires
        count <= deaths.len(),
    ensures
        h0_region_bars(deaths.push(last), values, count) == h0_region_bars(deaths, values, count),
    decreases count,
{
    if count > 0 {
        lemma_h0_region_prefix(deaths, last, values, count - 1);
        assert(deaths.push(last)[count - 1] == deaths[count - 1]);
    }
}

/// The region's finite H0 intervals at the compiled lengths are the
/// certified ones.
pub(crate) proof fn lemma_h0_bars(
    edges: Seq<FilteredEdge>,
    reduced: Seq<Seq<(usize, u64)>>,
    positions: Map<(usize, usize), usize>,
    values: Seq<u64>,
    count: int,
)
    requires
        0 <= count <= edges.len(),
        count <= reduced.len(),
        forall|c: int| 0 <= c < edges.len() ==> #[trigger] values[positions[edges[c].vertices] as int] == edges[c].value
            && edges[c].value <= INFINITY_BITS,
    ensures
        h0_region_bars(
            killing_positions(edges, reduced, positions, count),
            values,
            killing_positions(edges, reduced, positions, count).len() as int,
        ) == h0_finite_bars(edges, reduced, count),
    decreases count,
{
    if count > 0 {
        lemma_h0_bars(edges, reduced, positions, values, count - 1);
        let rest = killing_positions(edges, reduced, positions, count - 1);
        if reduced[count - 1].len() > 0 {
            let x = positions[edges[count - 1].vertices];
            lemma_h0_region_prefix(rest, x, values, rest.len() as int);
            assert(rest.push(x)[rest.len() as int] == x);
            assert(values[x as int] == edges[count - 1].value);
            lemma_greater_bits(edges[count - 1].value, 0);
        }
    }
}

/// The region's essential H0 intervals are the certified ones.
pub(crate) proof fn lemma_essential_bars(reduced: Seq<Seq<(usize, u64)>>, count: int)
    requires
        count >= 0,
    ensures
        essential_bars(unkilled_count(reduced, count)) == h0_essential_bars(reduced, count),
    decreases count,
{
    if count > 0 {
        lemma_essential_bars(reduced, count - 1);
        let m = unkilled_count(reduced, count - 1);
        if !killed(reduced, (count - 1) as usize) {
            assert(essential_bars(m + 1) =~= essential_bars(m).push(Bar { dim: 0, birth: 0, death: INFINITY_BITS }));
        }
    }
}

/// H1 records read off a pushed list of pairs keep those of the list.
proof fn lemma_h1_records_prefix(
    pairs: Seq<RegionH1Pair>,
    last: RegionH1Pair,
    topology: Seq<(usize, usize)>,
    values: Seq<u64>,
    count: int,
)
    requires
        count <= pairs.len(),
    ensures
        h1_records(pairs.push(last), topology, values, count) == h1_records(pairs, topology, values, count),
    decreases count,
{
    if count > 0 {
        lemma_h1_records_prefix(pairs, last, topology, values, count - 1);
        assert(pairs.push(last)[count - 1] == pairs[count - 1]);
    }
}

/// The region's H1 intervals at the compiled lengths are the certified
/// ones.
pub(crate) proof fn lemma_h1_bars(
    edges: Seq<FilteredEdge>,
    reduced_edges: Seq<Seq<(usize, u64)>>,
    triangles: Seq<FilteredTriangle>,
    reduced_triangles: Seq<Seq<(usize, u64)>>,
    topology: Seq<(usize, usize)>,
    values: Seq<u64>,
    count: int,
)
    requires
        0 <= count <= edges.len(),
        count <= reduced_edges.len(),
        forall|c: int| 0 <= c < edges.len() ==> #[trigger] listed_value(edges[c].vertices, topology, values) == edges[c].value
            && edges[c].value <= INFINITY_BITS,
        forall|t: int| 0 <= t < triangles.len() ==> #[trigger] pair_death_value(
            RegionH1Pair { birth: (0, 0), death: Some(triangles[t].vertices) },
            topology,
            values,
        ) == triangles[t].value && triangles[t].value <= INFINITY_BITS,
        reduced_triangles.len() <= triangles.len(),
    ensures
        h1_records(
            region_h1_pairs(edges, reduced_edges, triangles, reduced_triangles, count),
            topology,
            values,
            region_h1_pairs(edges, reduced_edges, triangles, reduced_triangles, count).len() as int,
        ).map_values(|record: RecordView| record.0) == h1_bars(edges, reduced_edges, triangles, reduced_triangles, count),
    decreases count,
{
    if count > 0 {
        lemma_h1_bars(edges, reduced_edges, triangles, reduced_triangles, topology, values, count - 1);
        let rest = region_h1_pairs(edges, reduced_edges, triangles, reduced_triangles, count - 1);
        let earlier = h1_records(rest, topology, values, rest.len() as int);
        if reduced_edges[count - 1].len() == 0 {
            let pair = RegionH1Pair {
                birth: edges[count - 1].vertices,
                death: h1_death_triangle(triangles, reduced_triangles, (count - 1) as usize),
            };
            lemma_h1_records_prefix(rest, pair, topology, values, rest.len() as int);
            assert(rest.push(pair)[rest.len() as int] == pair);
            let birth = listed_value(pair.birth, topology, values);
            let death = pair_death_value(pair, topology, values);
            assert(birth == edges[count - 1].value);
            if exists|t: int| 0 <= t < reduced_triangles.len() && #[trigger] pivot_row(reduced_triangles[t]) == Some((count - 1) as usize) {
                let t = choose|t: int| 0 <= t < reduced_triangles.len() && #[trigger] pivot_row(reduced_triangles[t]) == Some((count - 1) as usize);
                assert(pair_death_value(
                    RegionH1Pair { birth: (0, 0), death: Some(triangles[t].vertices) },
                    topology,
                    values,
                ) == triangles[t].value);
                assert(death == h1_death(triangles, reduced_triangles, (count - 1) as usize));
            }
            assert(death == h1_death(triangles, reduced_triangles, (count - 1) as usize));
            lemma_greater_bits(death, birth);
            let records = h1_records(rest.push(pair), topology, values, rest.len() as int + 1);
            if value_greater(death, birth) {
                assert(records.map_values(|record: RecordView| record.0) =~= earlier.map_values(|record: RecordView| record.0).push(
                    Bar { dim: 1, birth, death },
                ));
            } else {
                assert(records.map_values(|record: RecordView| record.0) =~= earlier.map_values(|record: RecordView| record.0));
            }
        }
    }
}

/// On the graph it was compiled from, a region reads off exactly the
/// certified diagram: its intervals at the graph's own lengths are those
/// of the checked reduction, and the certificate records them in canonical
/// order.
pub proof fn lemma_compiled_region_bars(
    region: RegionView,
    certificate: CertificateView,
    vertex_count: usize,
    edges: Seq<WeightedEdge>,
    limits: CertificateLimits,
    complex: FilteredComplex,
    reduced_edges: Seq<Seq<(usize, u64)>>,
    reduced_triangles: Seq<Seq<(usize, u64)>>,
)
    requires
        simple_graph(vertex_count, edges),
        edges.len() <= usize::MAX,
        reduction_certified(certificate, vertex_count, edges, limits, complex, reduced_edges, reduced_triangles),
        compiled_from(region, certificate, vertex_count, edges, complex, reduced_edges, reduced_triangles),
    ensures
        region_bars(region, lengths(edges)) == raw_bars(
            vertex_count,
            complex.edges@,
            reduced_edges,
            complex.triangles@,
            reduced_triangles,
        ),
        canonical_form(certificate.bars, region_bars(region, lengths(edges))),
{
    lemma_region_bars_read(region, certificate, vertex_count, edges, limits, complex, reduced_edges, reduced_triangles);
}

/// A region reads each simplex of the filtered complex of a graph at the
/// simplex's own value.
pub(crate) proof fn lemma_complex_reads(
    complex: FilteredComplex,
    edges: Seq<WeightedEdge>,
    vertex_count: usize,
    threshold: u64,
)
    requires
        complex.filters(vertex_count, edges, threshold),
        simple_graph(vertex_count, edges),
        edges.len() <= usize::MAX,
    ensures
        forall|c: int|
            0 <= c < complex.edges@.len() ==> #[trigger] lengths(edges)[position_map(endpoints(edges))[complex.edges@[c].vertices] as int]
                == complex.edges@[c].value && complex.edges@[c].value <= INFINITY_BITS,
        forall|c: int|
            0 <= c < complex.edges@.len() ==> #[trigger] listed_value(complex.edges@[c].vertices, endpoints(edges), lengths(edges))
                == complex.edges@[c].value && complex.edges@[c].value <= INFINITY_BITS,
        forall|k: int|
            0 <= k < complex.triangles@.len() ==> #[trigger] pair_death_value(
                RegionH1Pair { birth: (0, 0), death: Some(complex.triangles@[k].vertices) },
                endpoints(edges),
                lengths(edges),
            ) == complex.triangles@[k].value && complex.triangles@[k].value <= INFINITY_BITS,
{
    let e = complex.edges@;
    let t = complex.triangles@;
    let topology = endpoints(edges);
    let values = lengths(edges);
    let positions = position_map(topology);
    assert forall|c: int| 0 <= c < e.len() implies #[trigger] values[positions[e[c].vertices] as int] == e[c].value
        && e[c].value <= INFINITY_BITS by {
        lemma_edge_value(e, edges, threshold, vertex_count, c);
        assert(edge_views(e)[c] == seq![e[c].vertices.0, e[c].vertices.1]);
    }
    assert forall|c: int| 0 <= c < e.len() implies #[trigger] listed_value(e[c].vertices, topology, values) == e[c].value
        && e[c].value <= INFINITY_BITS by {
        assert(values[positions[e[c].vertices] as int] == e[c].value);
    }
    assert forall|k: int| 0 <= k < t.len() implies #[trigger] pair_death_value(
        RegionH1Pair { birth: (0, 0), death: Some(t[k].vertices) },
        topology,
        values,
    ) == t[k].value && t[k].value <= INFINITY_BITS by {
        assert(is_filtered_triangle(e, t[k].vertices));
        let (u, v, w) = t[k].vertices;
        lemma_pair_value(e, edges, threshold, vertex_count, u, v);
        lemma_pair_value(e, edges, threshold, vertex_count, u, w);
        lemma_pair_value(e, edges, threshold, vertex_count, v, w);
        let i = choose|i: int| 0 <= i < e.len() && (#[trigger] e[i]).vertices == (u, v);
        let j = choose|j: int| 0 <= j < e.len() && (#[trigger] e[j]).vertices == (u, w);
        let m = choose|m: int| 0 <= m < e.len() && (#[trigger] e[m]).vertices == (v, w);
        assert(e[i].value <= INFINITY_BITS && e[j].value <= INFINITY_BITS && e[m].value <= INFINITY_BITS);
    }
}

/// A region whose records name the killing edges, the surviving vertices
/// and the H1 pairs of a certified reduction of a graph reads that
/// reduction's intervals at the graph's lengths.
pub(crate) proof fn lemma_region_bars_read(
    region: RegionView,
    certificate: CertificateView,
    vertex_count: usize,
    edges: Seq<WeightedEdge>,
    limits: CertificateLimits,
    complex: FilteredComplex,
    reduced_edges: Seq<Seq<(usize, u64)>>,
    reduced_triangles: Seq<Seq<(usize, u64)>>,
)
    requires
        simple_graph(vertex_count, edges),
        edges.len() <= usize::MAX,
        reduction_certified(certificate, vertex_count, edges, limits, complex, reduced_edges, reduced_triangles),
        region.topology == endpoints(edges),
        region.h0_deaths == killing_positions(
            complex.edges@,
            reduced_edges,
            position_map(endpoints(edges)),
            complex.edges@.len() as int,
        ),
        region.h0_essential == unkilled_count(reduced_edges, vertex_count as int),
        region.h1_pairs == region_h1_pairs(
            complex.edges@,
            reduced_edges,
            complex.triangles@,
            reduced_triangles,
            complex.edges@.len() as int,
        ),
    ensures
        region_bars(region, lengths(edges)) == raw_bars(
            vertex_count,
            complex.edges@,
            reduced_edges,
            complex.triangles@,
            reduced_triangles,
        ),
        canonical_form(certificate.bars, region_bars(region, lengths(edges))),
{
    let threshold = threshold_bits(certificate.threshold);
    let e = complex.edges@;
    let t = complex.triangles@;
    let topology = endpoints(edges);
    let values = lengths(edges);
    let positions = position_map(topology);
    lemma_complex_reads(complex, edges, vertex_count, threshold);
    lemma_h0_bars(e, reduced_edges, positions, values, e.len() as int);
    lemma_essential_bars(reduced_edges, vertex_count as int);
    lemma_h1_bars(e, reduced_edges, t, reduced_triangles, topology, values, e.len() as int);
}

/// Whether `first` does not follow `second` at the lengths `values`, as a
/// guard from `first` to `second` asks.
pub open spec fn comes_before(first: Seq<usize>, second: Seq<usize>, topology: Seq<(usize, usize)>, values: Seq<u64>) -> bool {
    guard_holds((super::model::ReductionGuardKind::ChangeOfBasis, first, second), topology, values)
}

proof fn lemma_comes_before_transitive(
    x: Seq<usize>,
    y: Seq<usize>,
    z: Seq<usize>,
    topology: Seq<(usize, usize)>,
    values: Seq<u64>,
)
    requires
        comes_before(x, y, topology, values),
        comes_before(y, z, topology, values),
    ensures
        comes_before(x, z, topology, values),
{
}

/// Along a walk of comparisons that each hold, the first simplex comes
/// before the last.
proof fn lemma_walk_holds(guards: Seq<GuardView>, walk: Seq<Seq<usize>>, topology: Seq<(usize, usize)>, values: Seq<u64>)
    requires
        super::guards::walk_of(guards, walk),
        forall|k: int| 0 <= k < guards.len() ==> guard_holds(#[trigger] guards[k], topology, values),
    ensures
        comes_before(walk[0], walk.last(), topology, values),
    decreases walk.len(),
{
    if walk.len() == 1 {
        assert(walk.last() == walk[0]);
    } else {
        let rest = walk.drop_last();
        assert(super::guards::walk_of(guards, rest)) by {
            assert forall|i: int| 0 <= i < rest.len() - 1 implies has_edge(guards, #[trigger] rest[i], rest[i + 1]) by {
                assert(has_edge(guards, walk[i], walk[i + 1]));
            }
        }
        lemma_walk_holds(guards, rest, topology, values);
        let n = walk.len() - 1;
        assert(has_edge(guards, walk[n - 1], walk[n]));
        let k = choose|k: int| 0 <= k < guards.len() && (#[trigger] guards[k]).1 == walk[n - 1] && guards[k].2 == walk[n];
        assert(guard_holds(guards[k], topology, values));
        assert(rest.last() == walk[n - 1]);
        assert(walk.last() == walk[n]);
        lemma_comes_before_transitive(walk[0], walk[n - 1], walk[n], topology, values);
    }
}

/// Every reported failure leaves no guard among the first `count` failing.
proof fn lemma_failures_empty(guards: Seq<GuardView>, topology: Seq<(usize, usize)>, values: Seq<u64>, count: int)
    requires
        count <= guards.len(),
        guard_failures(guards, topology, values, count).len() == 0,
    ensures
        forall|i: int| 0 <= i < count ==> guard_holds(#[trigger] guards[i], topology, values),
    decreases count,
{
    if count > 0 {
        lemma_failures_empty(guards, topology, values, count - 1);
    }
}

/// The potential of a simplex of the complex: its position among the
/// edges, or past the edges its position among the triangles.
pub open spec fn filtration_potential(edges: Seq<Seq<usize>>, triangles: Seq<Seq<usize>>) -> spec_fn(Seq<usize>) -> int {
    |x: Seq<usize>|
        if edges.contains(x) {
            choose|a: int| 0 <= a < edges.len() && edges[a] == x
        } else {
            edges.len() + choose|a: int| 0 <= a < triangles.len() && triangles[a] == x
        }
}

/// Each comparison a checked reduction asks for names an earlier simplex
/// and a later one of the same dimension.
proof fn lemma_region_guard_ordered(
    certificate: CertificateView,
    vertex_count: usize,
    edges: Seq<WeightedEdge>,
    limits: CertificateLimits,
    complex: FilteredComplex,
    reduced_edges: Seq<Seq<(usize, u64)>>,
    reduced_triangles: Seq<Seq<(usize, u64)>>,
    i: int,
)
    requires
        crate::field::supported_modulus(certificate.modulus as nat),
        reduction_certified(certificate, vertex_count, edges, limits, complex, reduced_edges, reduced_triangles),
        0 <= i < region_guards(certificate, complex.edges@, complex.triangles@, reduced_triangles).len(),
    ensures
        ordered_in(edge_views(complex.edges@), region_guards(certificate, complex.edges@, complex.triangles@, reduced_triangles)[i])
            || ordered_in(
            triangle_views(complex.triangles@),
            region_guards(certificate, complex.edges@, complex.triangles@, reduced_triangles)[i],
        ),
{
    let p = certificate.modulus as nat;
    let e = complex.edges@;
    let t = complex.triangles@;
    let all = region_guards(certificate, e, t, reduced_triangles);
    assert(p > 0) by {
        assert(crate::field::spec_is_prime(p) ==> p >= 2);
    }
    let first = change_guards(certificate.edge_columns, edge_views(e));
    let second = change_guards(certificate.triangle_columns, triangle_views(t));
    let third = pivot_guards(reduced_triangles, edge_views(e));
    let tbv = triangle_boundary_views(edge_row_table(complex.edge_rows), t, p);
    if i < first.len() {
        assert(all[i] == first[i]);
        lemma_change_guards_ordered(certificate.edge_columns, edge_views(e), p, i);
    } else if i < first.len() + second.len() {
        assert(all[i] == second[i - first.len()]);
        lemma_change_guards_ordered(certificate.triangle_columns, triangle_views(t), p, i - first.len());
    } else {
        super::compile::lemma_triangle_rows(e, edge_row_table(complex.edge_rows), t, p);
        assert forall|j: int, k: int| 0 <= j < reduced_triangles.len() && 0 <= k < reduced_triangles[j].len() implies (
        #[trigger] reduced_triangles[j][k]).0 < edge_views(e).len() by {
            lemma_rows_below(tbv, certificate.triangle_columns[j], p, reduced_triangles[j], e.len());
        }
        assert forall|j: int| 0 <= j < reduced_triangles.len() implies wf_column(#[trigger] reduced_triangles[j], p) by {
            assert(reduces_to(tbv, certificate.triangle_columns[j], p, reduced_triangles[j]));
        }
        assert(all[i] == third[i - first.len() - second.len()]);
        lemma_pivot_guards_ordered(reduced_triangles, edge_views(e), p, i - first.len() - second.len());
    }
}

/// The potential of a simplex rises along every comparison a checked
/// reduction asks for.
proof fn lemma_region_guards_rise(
    certificate: CertificateView,
    vertex_count: usize,
    edges: Seq<WeightedEdge>,
    limits: CertificateLimits,
    complex: FilteredComplex,
    reduced_edges: Seq<Seq<(usize, u64)>>,
    reduced_triangles: Seq<Seq<(usize, u64)>>,
)
    requires
        crate::field::supported_modulus(certificate.modulus as nat),
        reduction_certified(certificate, vertex_count, edges, limits, complex, reduced_edges, reduced_triangles),
    ensures
        super::reachability::rises(
            region_guards(certificate, complex.edges@, complex.triangles@, reduced_triangles),
            filtration_potential(edge_views(complex.edges@), triangle_views(complex.triangles@)),
        ),
{
    let e = complex.edges@;
    let t = complex.triangles@;
    let all = region_guards(certificate, e, t, reduced_triangles);
    let ev = edge_views(e);
    let tv = triangle_views(t);
    let potential = filtration_potential(ev, tv);
    assert(super::repair::distinct_simplices(ev)) by {
        assert forall|a: int, b: int| 0 <= a < b < ev.len() implies ev[a] != ev[b] by {
            assert(e[a].vertices != e[b].vertices);
            if ev[a] == ev[b] {
                assert(ev[a][0] == ev[b][0] && ev[a][1] == ev[b][1]);
            }
        }
    }
    assert(super::repair::distinct_simplices(tv)) by {
        assert forall|a: int, b: int| 0 <= a < b < tv.len() implies tv[a] != tv[b] by {
            assert(t[a].vertices != t[b].vertices);
            if tv[a] == tv[b] {
                assert(tv[a][0] == tv[b][0] && tv[a][1] == tv[b][1] && tv[a][2] == tv[b][2]);
            }
        }
    }
    assert forall|i: int| 0 <= i < all.len() implies potential((#[trigger] all[i]).1) < potential(all[i].2) by {
        lemma_region_guard_ordered(certificate, vertex_count, edges, limits, complex, reduced_edges, reduced_triangles, i);
        if ordered_in(ev, all[i]) {
            let (a, b) = choose|a: int, b: int| 0 <= a < b < ev.len() && #[trigger] ev[a] == all[i].1 && #[trigger] ev[b] == all[i].2;
            let a2 = choose|c: int| 0 <= c < ev.len() && ev[c] == ev[a];
            let b2 = choose|c: int| 0 <= c < ev.len() && ev[c] == ev[b];
            assert(a2 == a && b2 == b);
        } else {
            let (a, b) = choose|a: int, b: int| 0 <= a < b < tv.len() && #[trigger] tv[a] == all[i].1 && #[trigger] tv[b] == all[i].2;
            let a2 = choose|c: int| 0 <= c < tv.len() && tv[c] == tv[a];
            let b2 = choose|c: int| 0 <= c < tv.len() && tv[c] == tv[b];
            assert(a2 == a && b2 == b);
            assert(tv[a].len() == 3 && tv[b].len() == 3);
            assert(!ev.contains(tv[a])) by {
                if ev.contains(tv[a]) {
                    let c = choose|c: int| 0 <= c < ev.len() && ev[c] == tv[a];
                    assert(ev[c].len() == 2);
                }
            }
            assert(!ev.contains(tv[b])) by {
                if ev.contains(tv[b]) {
                    let c = choose|c: int| 0 <= c < ev.len() && ev[c] == tv[b];
                    assert(ev[c].len() == 2);
                }
            }
        }
    }
}

/// Where a region compiled from a certified reduction reports no violation
/// on an updated graph, every comparison the reduction asks for holds at
/// the updated lengths, not only the comparisons the region keeps.
pub proof fn lemma_region_guards_hold(
    region: RegionView,
    certificate: CertificateView,
    vertex_count: usize,
    edges: Seq<WeightedEdge>,
    limits: CertificateLimits,
    complex: FilteredComplex,
    reduced_edges: Seq<Seq<(usize, u64)>>,
    reduced_triangles: Seq<Seq<(usize, u64)>>,
    updated_count: usize,
    updated: Seq<WeightedEdge>,
)
    requires
        crate::field::supported_modulus(certificate.modulus as nat),
        reduction_certified(certificate, vertex_count, edges, limits, complex, reduced_edges, reduced_triangles),
        compiled_from(region, certificate, vertex_count, edges, complex, reduced_edges, reduced_triangles),
        region_violations(region, updated_count, updated).len() == 0,
    ensures
        forall|i: int|
            0 <= i < region_guards(certificate, complex.edges@, complex.triangles@, reduced_triangles).len()
                ==> guard_holds(
                #[trigger] region_guards(certificate, complex.edges@, complex.triangles@, reduced_triangles)[i],
                endpoints(updated),
                lengths(updated),
            ),
{
    let e = complex.edges@;
    let t = complex.triangles@;
    let all = region_guards(certificate, e, t, reduced_triangles);
    let topology = endpoints(updated);
    let values = lengths(updated);
    let ev = edge_views(e);
    let tv = triangle_views(t);
    let potential = filtration_potential(ev, tv);
    assert(topology == region.topology);
    lemma_failures_empty(region.guards, region.topology, values, region.guards.len() as int);
    assert(super::reachability::reduction_of(all, region.guards));
    lemma_region_guards_rise(certificate, vertex_count, edges, limits, complex, reduced_edges, reduced_triangles);
    assert(super::reachability::rises(all, potential));
    assert forall|i: int| 0 <= i < all.len() implies guard_holds(#[trigger] all[i], topology, values) by {
        let g = all[i];
        assert(has_edge(all, g.1, g.2));
        let pair = seq![g.1, g.2];
        assert(super::guards::walk_of(all, pair));
        assert(super::guards::reaches(all, g.1, g.2)) by {
            assert(pair.last() == g.2);
        }
        super::reachability::lemma_reduction_reaches(all, region.guards, potential, g.1, g.2);
        let walk = choose|walk: Seq<Seq<usize>>| #[trigger] super::guards::walk_of(region.guards, walk) && walk[0] == g.1
            && walk.last() == g.2;
        lemma_walk_holds(region.guards, walk, topology, values);
    }
}

/// Killing positions read only whether each reduced edge column is zero
/// and the endpoints of each edge.
pub(crate) proof fn lemma_killing_follows(
    edges: Seq<FilteredEdge>,
    first: Seq<Seq<(usize, u64)>>,
    other_edges: Seq<FilteredEdge>,
    second: Seq<Seq<(usize, u64)>>,
    positions: Map<(usize, usize), usize>,
    count: int,
)
    requires
        count <= edges.len(),
        edges.len() == other_edges.len(),
        forall|c: int| 0 <= c < edges.len() ==> #[trigger] edges[c].vertices == other_edges[c].vertices,
        count <= first.len(),
        first.len() == second.len(),
        forall|j: int| 0 <= j < first.len() ==> #[trigger] pivot_row(first[j]) == pivot_row(second[j]),
    ensures
        killing_positions(edges, first, positions, count) == killing_positions(other_edges, second, positions, count),
    decreases count,
{
    if count > 0 {
        lemma_killing_follows(edges, first, other_edges, second, positions, count - 1);
        assert(pivot_row(first[count - 1]) == pivot_row(second[count - 1]));
        assert(edges[count - 1].vertices == other_edges[count - 1].vertices);
    }
}

/// The triangle that destroys a class reads only the rows at which
/// reduced triangle columns end, when those rows are distinct, and the
/// vertices of each triangle.
proof fn lemma_death_triangle_follows(
    triangles: Seq<FilteredTriangle>,
    first: Seq<Seq<(usize, u64)>>,
    other_triangles: Seq<FilteredTriangle>,
    second: Seq<Seq<(usize, u64)>>,
    edge: usize,
)
    requires
        first.len() == second.len(),
        first.len() <= triangles.len(),
        triangles.len() == other_triangles.len(),
        forall|k: int| 0 <= k < triangles.len() ==> #[trigger] triangles[k].vertices == other_triangles[k].vertices,
        forall|j: int| 0 <= j < first.len() ==> #[trigger] pivot_row(first[j]) == pivot_row(second[j]),
        distinct_pivot_rows(first),
    ensures
        h1_death_triangle(triangles, first, edge) == h1_death_triangle(other_triangles, second, edge),
{
    if exists|t: int| 0 <= t < first.len() && #[trigger] pivot_row(first[t]) == Some(edge) {
        let a = choose|t: int| 0 <= t < first.len() && #[trigger] pivot_row(first[t]) == Some(edge);
        assert(pivot_row(second[a]) == Some(edge));
        let b = choose|t: int| 0 <= t < second.len() && #[trigger] pivot_row(second[t]) == Some(edge);
        assert(pivot_row(first[b]) == Some(edge));
        if a != b {
            if a < b {
                assert(first[a].last().0 != first[b].last().0);
            } else {
                assert(first[b].last().0 != first[a].last().0);
            }
        }
        assert(triangles[a].vertices == other_triangles[a].vertices);
    } else {
        assert forall|t: int| 0 <= t < second.len() implies #[trigger] pivot_row(second[t]) != Some(edge) by {
            assert(pivot_row(first[t]) == pivot_row(second[t]));
        }
    }
}

/// The H1 pairs read only the rows at which reduced columns end and the
/// vertices of each simplex.
pub(crate) proof fn lemma_h1_pairs_follow(
    edges: Seq<FilteredEdge>,
    first_edges: Seq<Seq<(usize, u64)>>,
    triangles: Seq<FilteredTriangle>,
    first_triangles: Seq<Seq<(usize, u64)>>,
    other_edges: Seq<FilteredEdge>,
    second_edges: Seq<Seq<(usize, u64)>>,
    other_triangles: Seq<FilteredTriangle>,
    second_triangles: Seq<Seq<(usize, u64)>>,
    count: int,
)
    requires
        count <= edges.len(),
        edges.len() == other_edges.len(),
        forall|c: int| 0 <= c < edges.len() ==> #[trigger] edges[c].vertices == other_edges[c].vertices,
        count <= first_edges.len(),
        first_edges.len() == second_edges.len(),
        forall|j: int|
            0 <= j < first_edges.len() ==> #[trigger] pivot_row(first_edges[j]) == pivot_row(second_edges[j]),
        first_triangles.len() == second_triangles.len(),
        first_triangles.len() <= triangles.len(),
        triangles.len() == other_triangles.len(),
        forall|k: int| 0 <= k < triangles.len() ==> #[trigger] triangles[k].vertices == other_triangles[k].vertices,
        forall|j: int|
            0 <= j < first_triangles.len() ==> #[trigger] pivot_row(first_triangles[j]) == pivot_row(
                second_triangles[j],
            ),
        distinct_pivot_rows(first_triangles),
    ensures
        region_h1_pairs(edges, first_edges, triangles, first_triangles, count) == region_h1_pairs(
            other_edges,
            second_edges,
            other_triangles,
            second_triangles,
            count,
        ),
    decreases count,
{
    if count > 0 {
        lemma_h1_pairs_follow(
            edges,
            first_edges,
            triangles,
            first_triangles,
            other_edges,
            second_edges,
            other_triangles,
            second_triangles,
            count - 1,
        );
        assert(pivot_row(first_edges[count - 1]) == pivot_row(second_edges[count - 1]));
        assert(edges[count - 1].vertices == other_edges[count - 1].vertices);
        lemma_death_triangle_follows(triangles, first_triangles, other_triangles, second_triangles, (count - 1) as usize);
    }
}

} // verus!
