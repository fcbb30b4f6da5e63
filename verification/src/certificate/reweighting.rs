//! A region evaluates every reweighting it accepts to the diagram that any
//! certified reduction of the reweighted graph records.
//!
//! The reweighted graph has the same filtered simplices, listed in another
//! order. The region's comparisons hold at the new lengths, so the checked
//! reduction carries over to the new order with the same pivots, and any
//! certified reduction of the new filtration ends its columns there.

use vstd::prelude::*;

use crate::diagram::{Bar, INFINITY_BITS};
use crate::field::supported_modulus;
use crate::graph::{active_at, endpoints, value_at_most, WeightedEdge};

use super::checked::{
    canonical_form, distinct_pivot_rows, h0_essential_bars, h0_finite_bars, h1_bars, h1_death, killed,
    lemma_rows_below, pivot_row, raw_bars, reduces_to, reduction_certified, threshold_bits,
};
use super::compile::{
    compiled_from, edge_views, killing_positions, region_guards, region_h1_pairs, triangle_views,
};
use super::complex::{
    edge_boundary_views, edge_key, edge_row_table, filtered_edge, has_filtered_edge, is_filtered_triangle,
    orders_edges, plain_edges, rows_of, simple_graph, sorted_entries, spec_edge_rank, spec_triangle_rank,
    triangle_boundary, triangle_boundary_views, triangle_order_le, FilteredComplex, FilteredEdge,
    FilteredTriangle,
};
use super::evaluate::{crossings, lengths, listed_value, pair_death_value, region_bars, region_violations};
use super::fidelity::{
    lemma_edge_value, lemma_essential_bars, lemma_h0_bars, lemma_h1_bars, lemma_h1_pairs_follow,
    lemma_killing_follows, lemma_region_guards_hold, lemma_triangle_value,
};
use super::model::{CertificateLimits, CertificateTerm, CertificateView, ReductionGuardKind};
use super::order::{is_permutation, key_lt, lists};
use super::region::{guard_holds, RegionH1Pair, RegionView};
use super::repair::position_map;
use super::sparse::{lemma_pivot_is_last_nonzero, lookup};
use super::transport::{
    carried_row, carries, lemma_change_member, lemma_matching, lemma_permutation_of_multiset,
    lemma_pivot_member, lemma_present_multiset, lemma_span_reordered, lemma_transported_pivots, match_in,
    moved_coefficients, present,
};
use super::uniqueness::{
    certified_reduction, lemma_distinct_rows, lemma_listed_rank_fits, lemma_pairs_monotone, lemma_pairs_step,
    lemma_permuted_multiset, lemma_triangle_rank_injective, pairs_below, term_coefficients,
};

verus! {

broadcast use vstd::seq_lib::group_to_multiset_ensures;

/// No crossing means every threshold membership is unchanged.
proof fn lemma_crossings_empty(
    topology: Seq<(usize, usize)>,
    active: Seq<bool>,
    values: Seq<u64>,
    threshold: u64,
    count: int,
)
    requires
        crossings(topology, active, values, threshold, count).len() == 0,
    ensures
        forall|i: int| 0 <= i < count ==> #[trigger] value_at_most(values[i], threshold) == active[i],
    decreases count,
{
    if count > 0 {
        let rest = crossings(topology, active, values, threshold, count - 1);
        if value_at_most(values[count - 1], threshold) != active[count - 1] {
            assert(crossings(topology, active, values, threshold, count).len() == rest.len() + 1);
        }
        lemma_crossings_empty(topology, active, values, threshold, count - 1);
    }
}

/// Two graphs with the same endpoints and threshold memberships keep the
/// same endpoints below the threshold.
proof fn lemma_active_endpoints(first: Seq<WeightedEdge>, second: Seq<WeightedEdge>, threshold: u64)
    requires
        first.len() == second.len(),
        forall|i: int|
            0 <= i < first.len() ==> (#[trigger] first[i]).0 == second[i].0 && first[i].1 == second[i].1
                && value_at_most(first[i].2, threshold) == value_at_most(second[i].2, threshold),
    ensures
        endpoints(active_at(first, threshold)) == endpoints(active_at(second, threshold)),
    decreases first.len(),
{
    if first.len() > 0 {
        assert forall|i: int| 0 <= i < first.drop_last().len() implies (#[trigger] first.drop_last()[i]).0
            == second.drop_last()[i].0 && first.drop_last()[i].1 == second.drop_last()[i].1 && value_at_most(
            first.drop_last()[i].2,
            threshold,
        ) == value_at_most(second.drop_last()[i].2, threshold) by {
            assert(first.drop_last()[i] == first[i]);
            assert(second.drop_last()[i] == second[i]);
        }
        lemma_active_endpoints(first.drop_last(), second.drop_last(), threshold);
        let a = active_at(first.drop_last(), threshold);
        let b = active_at(second.drop_last(), threshold);
        assert(first.last() == first[first.len() - 1]);
        assert(second.last() == second[second.len() - 1]);
        if value_at_most(first.last().2, threshold) {
            assert(endpoints(a.push(first.last())) =~= endpoints(a).push((first.last().0, first.last().1)));
            assert(endpoints(b.push(second.last())) =~= endpoints(b).push((second.last().0, second.last().1)));
        }
    }
}

/// The listed edges are the active pairs.
proof fn lemma_listed_pairs(edges: Seq<FilteredEdge>, active: Seq<WeightedEdge>, u: usize, v: usize)
    requires
        orders_edges(edges, active),
    ensures
        has_filtered_edge(edges, u, v) <==> endpoints(active).contains((u, v)),
{
    let order = choose|order: Seq<int>|
        #[trigger] is_permutation(order, active.len()) && edges.len() == active.len() && (forall|j: int|
            0 <= j < edges.len() ==> #[trigger] edges[j] == filtered_edge(active[order[j]])) && (forall|
            i: int,
            j: int,
        |
            0 <= i < j < edges.len() ==> key_lt(
                edge_key(active[order[i]], order[i]),
                edge_key(active[order[j]], order[j]),
            ));
    if has_filtered_edge(edges, u, v) {
        let c = choose|c: int| 0 <= c < edges.len() && (#[trigger] edges[c]).vertices == (u, v);
        assert(edges[c] == filtered_edge(active[order[c]]));
        assert(endpoints(active)[order[c]] == (u, v));
    }
    if endpoints(active).contains((u, v)) {
        let k = choose|k: int| 0 <= k < endpoints(active).len() && endpoints(active)[k] == (u, v);
        assert(lists(order, active.len(), k));
        let c = choose|c: int| 0 <= c < active.len() && #[trigger] order[c] == k;
        assert(edges[c] == filtered_edge(active[order[c]]));
        assert(edges[c].vertices == (u, v));
    }
}

/// Vertex pairs of the listed edges.
pub open spec fn edge_pairs(edges: Seq<FilteredEdge>) -> Seq<(usize, usize)> {
    edges.map_values(|edge: FilteredEdge| edge.vertices)
}

/// Vertex triples of the listed triangles.
pub open spec fn triangle_triples(triangles: Seq<FilteredTriangle>) -> Seq<(usize, usize, usize)> {
    triangles.map_values(|triangle: FilteredTriangle| triangle.vertices)
}

/// Two complexes list the same simplices, related by inverse position maps.
pub open spec fn relisted(
    first: FilteredComplex,
    second: FilteredComplex,
    edge_forward: spec_fn(int) -> int,
    edge_backward: spec_fn(int) -> int,
    triangle_forward: spec_fn(int) -> int,
    triangle_backward: spec_fn(int) -> int,
) -> bool {
    let e = first.edges@;
    let f = second.edges@;
    let t = first.triangles@;
    let s = second.triangles@;
    &&& e.len() == f.len()
    &&& t.len() == s.len()
    &&& forall|c: int|
        0 <= c < e.len() ==> 0 <= #[trigger] edge_forward(c) < f.len() && f[edge_forward(c)].vertices == e[c].vertices
            && edge_backward(edge_forward(c)) == c
    &&& forall|q: int|
        0 <= q < f.len() ==> 0 <= #[trigger] edge_backward(q) < e.len() && e[edge_backward(q)].vertices
            == f[q].vertices && edge_forward(edge_backward(q)) == q
    &&& forall|k: int|
        0 <= k < t.len() ==> 0 <= #[trigger] triangle_forward(k) < s.len() && s[triangle_forward(k)].vertices
            == t[k].vertices && triangle_backward(triangle_forward(k)) == k
    &&& forall|m: int|
        0 <= m < s.len() ==> 0 <= #[trigger] triangle_backward(m) < t.len() && t[triangle_backward(m)].vertices
            == s[m].vertices && triangle_forward(triangle_backward(m)) == m
}

/// Complexes of two graphs with the same endpoints and threshold
/// memberships list the same simplices.
proof fn lemma_relisted(
    first: FilteredComplex,
    first_graph: Seq<WeightedEdge>,
    second: FilteredComplex,
    second_graph: Seq<WeightedEdge>,
    vertex_count: usize,
    threshold: u64,
)
    requires
        first.filters(vertex_count, first_graph, threshold),
        second.filters(vertex_count, second_graph, threshold),
        first_graph.len() == second_graph.len(),
        forall|i: int|
            0 <= i < first_graph.len() ==> (#[trigger] first_graph[i]).0 == second_graph[i].0 && first_graph[i].1
                == second_graph[i].1 && value_at_most(first_graph[i].2, threshold) == value_at_most(
                second_graph[i].2,
                threshold,
            ),
    ensures
        relisted(
            first,
            second,
            |c: int| match_in(edge_pairs(second.edges@), edge_pairs(first.edges@)[c]),
            |q: int| match_in(edge_pairs(first.edges@), edge_pairs(second.edges@)[q]),
            |k: int| match_in(triangle_triples(second.triangles@), triangle_triples(first.triangles@)[k]),
            |m: int| match_in(triangle_triples(first.triangles@), triangle_triples(second.triangles@)[m]),
        ),
{
    let e = first.edges@;
    let f = second.edges@;
    let t = first.triangles@;
    let s = second.triangles@;
    lemma_active_endpoints(first_graph, second_graph, threshold);
    let ep = edge_pairs(e);
    let fp = edge_pairs(f);
    assert forall|x: (usize, usize)| ep.contains(x) <==> fp.contains(x) by {
        lemma_listed_pairs(e, active_at(first_graph, threshold), x.0, x.1);
        lemma_listed_pairs(f, active_at(second_graph, threshold), x.0, x.1);
        if ep.contains(x) {
            let c = choose|c: int| 0 <= c < ep.len() && ep[c] == x;
            assert(e[c].vertices == (x.0, x.1));
            assert(has_filtered_edge(e, x.0, x.1));
            let q = choose|q: int| 0 <= q < f.len() && (#[trigger] f[q]).vertices == (x.0, x.1);
            assert(fp[q] == x);
        }
        if fp.contains(x) {
            let q = choose|q: int| 0 <= q < fp.len() && fp[q] == x;
            assert(f[q].vertices == (x.0, x.1));
            assert(has_filtered_edge(f, x.0, x.1));
            let c = choose|c: int| 0 <= c < e.len() && (#[trigger] e[c]).vertices == (x.0, x.1);
            assert(ep[c] == x);
        }
    }
    assert(ep.no_duplicates()) by {
        assert forall|a: int, b: int| 0 <= a < ep.len() && 0 <= b < ep.len() && a != b implies ep[a] != ep[b] by {
            assert(plain_edges(vertex_count, e));
            if a < b {
                assert(e[a].vertices != e[b].vertices);
            } else {
                assert(e[b].vertices != e[a].vertices);
            }
        }
    }
    assert(fp.no_duplicates()) by {
        assert forall|a: int, b: int| 0 <= a < fp.len() && 0 <= b < fp.len() && a != b implies fp[a] != fp[b] by {
            assert(plain_edges(vertex_count, f));
            if a < b {
                assert(f[a].vertices != f[b].vertices);
            } else {
                assert(f[b].vertices != f[a].vertices);
            }
        }
    }
    lemma_matching(ep, fp);
    let tp = triangle_triples(t);
    let sp = triangle_triples(s);
    assert forall|x: (usize, usize, usize)| tp.contains(x) <==> sp.contains(x) by {
        let pairs_agree = has_filtered_edge(e, x.0, x.1) == has_filtered_edge(f, x.0, x.1) && has_filtered_edge(
            e,
            x.0,
            x.2,
        ) == has_filtered_edge(f, x.0, x.2) && has_filtered_edge(e, x.1, x.2) == has_filtered_edge(f, x.1, x.2);
        assert(pairs_agree) by {
            lemma_listed_pairs(e, active_at(first_graph, threshold), x.0, x.1);
            lemma_listed_pairs(f, active_at(second_graph, threshold), x.0, x.1);
            lemma_listed_pairs(e, active_at(first_graph, threshold), x.0, x.2);
            lemma_listed_pairs(f, active_at(second_graph, threshold), x.0, x.2);
            lemma_listed_pairs(e, active_at(first_graph, threshold), x.1, x.2);
            lemma_listed_pairs(f, active_at(second_graph, threshold), x.1, x.2);
        }
        if tp.contains(x) {
            let k = choose|k: int| 0 <= k < tp.len() && tp[k] == x;
            assert(is_filtered_triangle(e, t[k].vertices));
            assert(is_filtered_triangle(f, x));
            assert(super::complex::lists_triangle(s, x));
            let m = choose|m: int| 0 <= m < s.len() && (#[trigger] s[m]).vertices == x;
            assert(sp[m] == x);
        }
        if sp.contains(x) {
            let m = choose|m: int| 0 <= m < sp.len() && sp[m] == x;
            assert(is_filtered_triangle(f, s[m].vertices));
            assert(is_filtered_triangle(e, x));
            assert(super::complex::lists_triangle(t, x));
            let k = choose|k: int| 0 <= k < t.len() && (#[trigger] t[k]).vertices == x;
            assert(tp[k] == x);
        }
    }
    assert(tp.no_duplicates()) by {
        assert forall|a: int, b: int| 0 <= a < tp.len() && 0 <= b < tp.len() && a != b implies tp[a] != tp[b] by {
            if a < b {
                assert(t[a].vertices != t[b].vertices);
            } else {
                assert(t[b].vertices != t[a].vertices);
            }
        }
    }
    assert(sp.no_duplicates()) by {
        assert forall|a: int, b: int| 0 <= a < sp.len() && 0 <= b < sp.len() && a != b implies sp[a] != sp[b] by {
            if a < b {
                assert(s[a].vertices != s[b].vertices);
            } else {
                assert(s[b].vertices != s[a].vertices);
            }
        }
    }
    lemma_matching(tp, sp);
}

/// Distinct edges `u < v` have distinct colexicographic ranks.
proof fn lemma_edge_rank_injective(first: (usize, usize), second: (usize, usize))
    requires
        first.0 < first.1,
        second.0 < second.1,
        spec_edge_rank(first.0, first.1) == spec_edge_rank(second.0, second.1),
    ensures
        first == second,
{
    let (a, b) = first;
    let (c, d) = second;
    assert(spec_edge_rank(a, b) == pairs_below(b as int) + a);
    assert(spec_edge_rank(c, d) == pairs_below(d as int) + c);
    if b < d {
        lemma_pairs_monotone(b as int, d as int);
    } else if d < b {
        lemma_pairs_monotone(d as int, b as int);
    }
}

/// The rank of an edge with small labels fits a `u128`.
proof fn lemma_edge_rank_fits(u: usize, v: usize)
    requires
        u < v < 0x400_0000_0000,
    ensures
        0 <= spec_edge_rank(u, v) <= u128::MAX,
{
    lemma_pairs_step(v as int);
    assert(spec_edge_rank(u, v) == pairs_below(v as int) + u);
    assert(pairs_below(v as int) <= v * v) by {
        assert(0 <= v * (v - 1) <= v * v * 2) by (nonlinear_arith)
            requires
                1 <= v,
        ;
    }
    assert(v * v <= 0x400_0000_0000 * 0x400_0000_0000) by (nonlinear_arith)
        requires
            0 <= v < 0x400_0000_0000,
    ;
}

/// In the filtered complex of a graph, a guard between two listed edges
/// that holds at the graph's lengths names them in filtration order.
proof fn lemma_edge_guard_orders(
    complex: FilteredComplex,
    graph: Seq<WeightedEdge>,
    vertex_count: usize,
    threshold: u64,
    kind: ReductionGuardKind,
    a: int,
    b: int,
)
    requires
        complex.filters(vertex_count, graph, threshold),
        simple_graph(vertex_count, graph),
        graph.len() <= usize::MAX,
        vertex_count <= 0x400_0000_0000,
        0 <= a < complex.edges@.len(),
        0 <= b < complex.edges@.len(),
        a != b,
        guard_holds((kind, edge_views(complex.edges@)[a], edge_views(complex.edges@)[b]), endpoints(graph), lengths(graph)),
    ensures
        a < b,
{
    let e = complex.edges@;
    let active = active_at(graph, threshold);
    if b < a {
        let order = choose|order: Seq<int>|
            #[trigger] is_permutation(order, active.len()) && e.len() == active.len() && (forall|j: int|
                0 <= j < e.len() ==> #[trigger] e[j] == filtered_edge(active[order[j]])) && (forall|i: int, j: int|
                0 <= i < j < e.len() ==> key_lt(
                    edge_key(active[order[i]], order[i]),
                    edge_key(active[order[j]], order[j]),
                ));
        assert(key_lt(edge_key(active[order[b]], order[b]), edge_key(active[order[a]], order[a])));
        assert(e[a] == filtered_edge(active[order[a]]));
        assert(e[b] == filtered_edge(active[order[b]]));
        lemma_edge_value(e, graph, threshold, vertex_count, a);
        lemma_edge_value(e, graph, threshold, vertex_count, b);
        assert(edge_views(e)[a] == seq![e[a].vertices.0, e[a].vertices.1]);
        assert(edge_views(e)[b] == seq![e[b].vertices.0, e[b].vertices.1]);
        assert(plain_edges(vertex_count, e));
        lemma_edge_rank_fits(e[a].vertices.0, e[a].vertices.1);
        lemma_edge_rank_fits(e[b].vertices.0, e[b].vertices.1);
        if spec_edge_rank(e[a].vertices.0, e[a].vertices.1) == spec_edge_rank(e[b].vertices.0, e[b].vertices.1) {
            lemma_edge_rank_injective(e[a].vertices, e[b].vertices);
            assert(e[b].vertices != e[a].vertices);
        }
    }
}

/// In the filtered complex of a graph, a guard between two listed
/// triangles that holds at the graph's lengths names them in filtration
/// order.
proof fn lemma_triangle_guard_orders(
    complex: FilteredComplex,
    graph: Seq<WeightedEdge>,
    vertex_count: usize,
    threshold: u64,
    kind: ReductionGuardKind,
    a: int,
    b: int,
)
    requires
        complex.filters(vertex_count, graph, threshold),
        simple_graph(vertex_count, graph),
        graph.len() <= usize::MAX,
        vertex_count <= 0x400_0000_0000,
        0 <= a < complex.triangles@.len(),
        0 <= b < complex.triangles@.len(),
        a != b,
        guard_holds(
            (kind, triangle_views(complex.triangles@)[a], triangle_views(complex.triangles@)[b]),
            endpoints(graph),
            lengths(graph),
        ),
    ensures
        a < b,
{
    let e = complex.edges@;
    let t = complex.triangles@;
    if b < a {
        assert(triangle_order_le(t[b], t[a]));
        assert(is_filtered_triangle(e, t[a].vertices) && t[a].value == super::complex::triangle_length(e, t[a].vertices));
        assert(is_filtered_triangle(e, t[b].vertices) && t[b].value == super::complex::triangle_length(e, t[b].vertices));
        lemma_triangle_value(e, t, graph, threshold, vertex_count, a);
        lemma_triangle_value(e, t, graph, threshold, vertex_count, b);
        assert(triangle_views(t)[a] == seq![t[a].vertices.0, t[a].vertices.1, t[a].vertices.2]);
        assert(triangle_views(t)[b] == seq![t[b].vertices.0, t[b].vertices.1, t[b].vertices.2]);
        assert(plain_edges(vertex_count, e));
        assert forall|c: int| 0 <= c < e.len() implies (#[trigger] e[c]).vertices.1 < 0x400_0000_0000 by {}
        lemma_listed_rank_fits(e, t[a]);
        lemma_listed_rank_fits(e, t[b]);
        if spec_triangle_rank(t[a].vertices) == spec_triangle_rank(t[b].vertices) {
            lemma_triangle_rank_injective(t[a].vertices, t[b].vertices);
            assert(t[b].vertices != t[a].vertices);
        }
    }
}

/// The checked edge reduction carries to the relisted edges.
proof fn lemma_edge_carries(
    columns: Seq<Seq<CertificateTerm>>,
    reduced: Seq<Seq<(usize, u64)>>,
    complex: FilteredComplex,
    updated_complex: FilteredComplex,
    updated: Seq<WeightedEdge>,
    vertex_count: usize,
    threshold: u64,
    p: nat,
    forward: spec_fn(int) -> int,
    backward: spec_fn(int) -> int,
    triangle_forward: spec_fn(int) -> int,
    triangle_backward: spec_fn(int) -> int,
)
    requires
        certified_reduction(edge_boundary_views(complex.edges@, p), columns, reduced, p),
        relisted(complex, updated_complex, forward, backward, triangle_forward, triangle_backward),
        updated_complex.filters(vertex_count, updated, threshold),
        simple_graph(vertex_count, updated),
        updated.len() <= usize::MAX,
        vertex_count <= 0x400_0000_0000,
        forall|g: (ReductionGuardKind, Seq<usize>, Seq<usize>)|
            #[trigger] change_guards_of(columns, complex).contains(g) ==> guard_holds(g, endpoints(updated), lengths(updated)),
    ensures
        carries(
            edge_boundary_views(complex.edges@, p),
            columns,
            reduced,
            edge_boundary_views(updated_complex.edges@, p),
            p,
            forward,
            backward,
            |r: usize| r,
        ),
{
    let e = complex.edges@;
    let f = updated_complex.edges@;
    let old_matrix = edge_boundary_views(e, p);
    let new_matrix = edge_boundary_views(f, p);
    let n = e.len();
    let row_map = |r: usize| r;
    assert forall|q: int| 0 <= q < n implies #[trigger] new_matrix[q] == old_matrix[backward(q)] by {
        assert(f[q].vertices == e[backward(q)].vertices);
    }
    assert forall|j: int, q: int| 0 <= j < n && forward(j) < q < n implies #[trigger] moved_coefficients(
        columns[j],
        backward,
    )(q) == 0 by {
        let i = backward(q);
        let pairs = super::algebra::term_pairs(columns[j]);
        if lookup(pairs, i as usize) != 0 {
            super::transport::lemma_lookup_present(pairs, i as usize);
            let k = choose|k: int| 0 <= k < pairs.len() && #[trigger] pairs[k].0 == i as usize;
            assert(pairs[k].0 == columns[j][k].index);
            assert(columns[j][k].index == i);
            if i == j {
                assert(forward(i) == q);
            } else {
                lemma_change_member(columns, edge_views(e), j, k);
                let g = (ReductionGuardKind::ChangeOfBasis, edge_views(e)[i], edge_views(e)[j]);
                assert(change_guards_of(columns, complex).contains(g));
                assert(guard_holds(g, endpoints(updated), lengths(updated)));
                assert(edge_views(e)[i] == edge_views(f)[forward(i)]);
                assert(edge_views(e)[j] == edge_views(f)[forward(j)]);
                assert(forward(i) != forward(j));
                lemma_edge_guard_orders(
                    updated_complex,
                    updated,
                    vertex_count,
                    threshold,
                    ReductionGuardKind::ChangeOfBasis,
                    forward(i),
                    forward(j),
                );
            }
        }
    }
    assert forall|j: int, r: usize| 0 <= j < n implies #[trigger] super::uniqueness::span_entry(
        new_matrix,
        moved_coefficients(columns[j], backward),
        n,
        p,
        row_map(r),
    ) == super::uniqueness::span_entry(old_matrix, term_coefficients(columns[j]), n, p, r) by {
        lemma_span_reordered(
            old_matrix,
            term_coefficients(columns[j]),
            r,
            new_matrix,
            moved_coefficients(columns[j], backward),
            r,
            n,
            p,
            forward,
            backward,
        );
    }
    assert forall|j: int, r: usize|
        0 <= j < n && reduced[j].len() > 0 && #[trigger] lookup(reduced[j], r) != 0 && r != reduced[j].last().0
        implies row_map(r) < row_map(reduced[j].last().0) by {
        assert(reduces_to(old_matrix, columns[j], p, reduced[j]));
        lemma_pivot_is_last_nonzero(reduced[j], p);
    }
    assert forall|j: int, row: usize|
        0 <= j < n && (forall|r: usize| #[trigger] row_map(r) != row) implies #[trigger] super::uniqueness::span_entry(
        new_matrix,
        moved_coefficients(columns[j], backward),
        n,
        p,
        row,
    ) == 0 by {
        assert(row_map(row) == row);
    }
    assert forall|a: usize, b: usize| #[trigger] row_map(a) == #[trigger] row_map(b) implies a == b by {}
    assert(new_matrix.len() == n);
}

/// The change guards of a column list over the complex's edges.
pub open spec fn change_guards_of(columns: Seq<Seq<CertificateTerm>>, complex: FilteredComplex) -> Seq<
    (ReductionGuardKind, Seq<usize>, Seq<usize>),
> {
    super::guards::change_guards(columns, edge_views(complex.edges@))
}

/// The change guards of a column list over the complex's triangles.
pub open spec fn triangle_change_guards_of(columns: Seq<Seq<CertificateTerm>>, complex: FilteredComplex) -> Seq<
    (ReductionGuardKind, Seq<usize>, Seq<usize>),
> {
    super::guards::change_guards(columns, triangle_views(complex.triangles@))
}

/// The pivot guards of reduced triangle columns over the complex's edges.
pub open spec fn pivot_guards_of(reduced: Seq<Seq<(usize, u64)>>, complex: FilteredComplex) -> Seq<
    (ReductionGuardKind, Seq<usize>, Seq<usize>),
> {
    super::guards::pivot_guards(reduced, edge_views(complex.edges@))
}

/// Edge rows carried to the relisted edges; rows past the edges stay.
pub open spec fn carried_rows(edge_count: int, forward: spec_fn(int) -> int) -> spec_fn(usize) -> usize {
    |r: usize|
        if (r as int) < edge_count {
            forward(r as int) as usize
        } else {
            r
        }
}

/// Every row of a triangle boundary column is an edge row.
proof fn lemma_sorted_entries_rows(a: (usize, u64), b: (usize, u64), c: (usize, u64), bound: int)
    requires
        a.0 < bound && b.0 < bound && c.0 < bound,
    ensures
        forall|k: int| 0 <= k < sorted_entries(a, b, c).len() ==> #[trigger] sorted_entries(a, b, c)[k].0 < bound,
{
}

/// A relisted triangle's boundary holds, at each carried row, what the
/// original boundary holds at the row.
proof fn lemma_triangle_column_lookup(
    complex: FilteredComplex,
    updated_complex: FilteredComplex,
    p: nat,
    forward: spec_fn(int) -> int,
    backward: spec_fn(int) -> int,
    triangle_forward: spec_fn(int) -> int,
    triangle_backward: spec_fn(int) -> int,
    k: int,
    r: usize,
)
    requires
        relisted(complex, updated_complex, forward, backward, triangle_forward, triangle_backward),
        rows_of(complex.edges@, edge_row_table(complex.edge_rows)),
        rows_of(updated_complex.edges@, edge_row_table(updated_complex.edge_rows)),
        super::complex::true_triangles(complex.edges@, complex.triangles@),
        super::complex::distinct_edges(complex.edges@),
        forall|c: int| 0 <= c < complex.edges@.len() ==> #[trigger] complex.edges@[c].vertices.0 < complex.edges@[c].vertices.1,
        0 <= k < complex.triangles@.len(),
    ensures
        lookup(
            triangle_boundary_views(edge_row_table(updated_complex.edge_rows), updated_complex.triangles@, p)[triangle_forward(k)],
            carried_rows(complex.edges@.len() as int, forward)(r),
        ) == lookup(triangle_boundary_views(edge_row_table(complex.edge_rows), complex.triangles@, p)[k], r),
        forall|i: int|
            0 <= i < triangle_boundary_views(edge_row_table(complex.edge_rows), complex.triangles@, p)[k].len() ==> (
            #[trigger] triangle_boundary_views(edge_row_table(complex.edge_rows), complex.triangles@, p)[k][i]).0
                < complex.edges@.len(),
{
    let e = complex.edges@;
    let f = updated_complex.edges@;
    let t = complex.triangles@;
    let s = updated_complex.triangles@;
    let rows = edge_row_table(complex.edge_rows);
    let rows2 = edge_row_table(updated_complex.edge_rows);
    let n = e.len() as int;
    let (u, v, w) = t[k].vertices;
    assert(is_filtered_triangle(e, t[k].vertices));
    let ia = choose|i: int| 0 <= i < e.len() && (#[trigger] e[i]).vertices == (u, v);
    let ib = choose|i: int| 0 <= i < e.len() && (#[trigger] e[i]).vertices == (u, w);
    let ic = choose|i: int| 0 <= i < e.len() && (#[trigger] e[i]).vertices == (v, w);
    assert(rows[e[ia].vertices] == ia && rows[e[ib].vertices] == ib && rows[e[ic].vertices] == ic);
    assert(f[forward(ia)].vertices == (u, v) && f[forward(ib)].vertices == (u, w) && f[forward(ic)].vertices == (v, w));
    assert(rows2[f[forward(ia)].vertices] == forward(ia));
    assert(rows2[f[forward(ib)].vertices] == forward(ib));
    assert(rows2[f[forward(ic)].vertices] == forward(ic));
    assert(ia != ib && ia != ic && ib != ic);
    assert(forward(ia) != forward(ib) && forward(ia) != forward(ic) && forward(ib) != forward(ic)) by {
        assert(backward(forward(ia)) == ia && backward(forward(ib)) == ib && backward(forward(ic)) == ic);
    }
    let q = triangle_forward(k);
    assert(s[q].vertices == (u, v, w));
    let old_column = triangle_boundary(rows, t[k], p);
    let new_column = triangle_boundary(rows2, s[q], p);
    let a = (ia as usize, 1u64);
    let b = (ib as usize, (p - 1) as u64);
    let c = (ic as usize, 1u64);
    let a2 = (forward(ia) as usize, 1u64);
    let b2 = (forward(ib) as usize, (p - 1) as u64);
    let c2 = (forward(ic) as usize, 1u64);
    assert(old_column == sorted_entries(a, b, c));
    assert(new_column == sorted_entries(a2, b2, c2));
    let row = carried_rows(n, forward)(r);
    super::transport::lemma_sorted_entries_lookup(a, b, c, r);
    super::transport::lemma_sorted_entries_lookup(a2, b2, c2, row);
    if (r as int) < n {
        assert(row == forward(r as int) as usize);
        assert(backward(forward(r as int)) == r as int);
    } else {
        assert(row == r);
    }
    lemma_sorted_entries_rows(a, b, c, n);
}

/// The checked triangle reduction carries to the relisted triangles.
proof fn lemma_triangle_carries(
    edge_columns: Seq<Seq<CertificateTerm>>,
    reduced_edges: Seq<Seq<(usize, u64)>>,
    columns: Seq<Seq<CertificateTerm>>,
    reduced: Seq<Seq<(usize, u64)>>,
    complex: FilteredComplex,
    updated_complex: FilteredComplex,
    updated: Seq<WeightedEdge>,
    vertex_count: usize,
    threshold: u64,
    old_threshold: u64,
    old_graph: Seq<WeightedEdge>,
    p: nat,
    forward: spec_fn(int) -> int,
    backward: spec_fn(int) -> int,
    triangle_forward: spec_fn(int) -> int,
    triangle_backward: spec_fn(int) -> int,
)
    requires
        p > 0,
        complex.filters(vertex_count, old_graph, old_threshold),
        certified_reduction(
            triangle_boundary_views(edge_row_table(complex.edge_rows), complex.triangles@, p),
            columns,
            reduced,
            p,
        ),
        relisted(complex, updated_complex, forward, backward, triangle_forward, triangle_backward),
        updated_complex.filters(vertex_count, updated, threshold),
        simple_graph(vertex_count, updated),
        updated.len() <= usize::MAX,
        vertex_count <= 0x400_0000_0000,
        forall|g: (ReductionGuardKind, Seq<usize>, Seq<usize>)|
            #[trigger] triangle_change_guards_of(columns, complex).contains(g) ==> guard_holds(
                g,
                endpoints(updated),
                lengths(updated),
            ),
        forall|g: (ReductionGuardKind, Seq<usize>, Seq<usize>)|
            #[trigger] pivot_guards_of(reduced, complex).contains(g) ==> guard_holds(g, endpoints(updated), lengths(updated)),
    ensures
        carries(
            triangle_boundary_views(edge_row_table(complex.edge_rows), complex.triangles@, p),
            columns,
            reduced,
            triangle_boundary_views(edge_row_table(updated_complex.edge_rows), updated_complex.triangles@, p),
            p,
            triangle_forward,
            triangle_backward,
            carried_rows(complex.edges@.len() as int, forward),
        ),
{
    let e = complex.edges@;
    let f = updated_complex.edges@;
    let t = complex.triangles@;
    let s = updated_complex.triangles@;
    let old_matrix = triangle_boundary_views(edge_row_table(complex.edge_rows), t, p);
    let new_matrix = triangle_boundary_views(edge_row_table(updated_complex.edge_rows), s, p);
    let n = t.len();
    let ne = e.len() as int;
    let row_map = carried_rows(ne, forward);
    assert(plain_edges(vertex_count, e));
    assert(forall|c: int| 0 <= c < e.len() ==> #[trigger] e[c].vertices.0 < e[c].vertices.1);
    assert forall|a: usize, b: usize| #[trigger] row_map(a) == #[trigger] row_map(b) implies a == b by {
        if (a as int) < ne && (b as int) < ne {
            assert(backward(forward(a as int)) == a as int);
            assert(backward(forward(b as int)) == b as int);
        } else if (a as int) < ne {
            assert(forward(a as int) < ne);
        } else if (b as int) < ne {
            assert(forward(b as int) < ne);
        }
    }
    assert forall|j: int, q: int| 0 <= j < n && triangle_forward(j) < q < n implies #[trigger] moved_coefficients(
        columns[j],
        triangle_backward,
    )(q) == 0 by {
        let i = triangle_backward(q);
        let pairs = super::algebra::term_pairs(columns[j]);
        if lookup(pairs, i as usize) != 0 {
            super::transport::lemma_lookup_present(pairs, i as usize);
            let k = choose|k: int| 0 <= k < pairs.len() && #[trigger] pairs[k].0 == i as usize;
            assert(pairs[k].0 == columns[j][k].index);
            assert(crate::certificate::matrix::valid_change_column(columns[j], j as nat, p));
            assert(columns[j][k].index == i);
            if i == j {
                assert(triangle_forward(i) == q);
            } else {
                lemma_change_member(columns, triangle_views(t), j, k);
                let g = (ReductionGuardKind::ChangeOfBasis, triangle_views(t)[i], triangle_views(t)[j]);
                assert(triangle_change_guards_of(columns, complex).contains(g));
                assert(guard_holds(g, endpoints(updated), lengths(updated)));
                assert(triangle_views(t)[i] == triangle_views(s)[triangle_forward(i)]);
                assert(triangle_views(t)[j] == triangle_views(s)[triangle_forward(j)]);
                assert(triangle_forward(i) != triangle_forward(j));
                lemma_triangle_guard_orders(
                    updated_complex,
                    updated,
                    vertex_count,
                    threshold,
                    ReductionGuardKind::ChangeOfBasis,
                    triangle_forward(i),
                    triangle_forward(j),
                );
            }
        }
    }
    assert forall|j: int, r: usize| 0 <= j < n implies #[trigger] super::uniqueness::span_entry(
        new_matrix,
        moved_coefficients(columns[j], triangle_backward),
        n,
        p,
        row_map(r),
    ) == super::uniqueness::span_entry(old_matrix, term_coefficients(columns[j]), n, p, r) by {
        assert forall|q: int| 0 <= q < n implies #[trigger] moved_coefficients(columns[j], triangle_backward)(q)
            * lookup(new_matrix[q], row_map(r)) == term_coefficients(columns[j])(triangle_backward(q)) * lookup(
            old_matrix[triangle_backward(q)],
            r,
        ) by {
            lemma_triangle_column_lookup(
                complex,
                updated_complex,
                p,
                forward,
                backward,
                triangle_forward,
                triangle_backward,
                triangle_backward(q),
                r,
            );
        }
        lemma_span_reordered(
            old_matrix,
            term_coefficients(columns[j]),
            r,
            new_matrix,
            moved_coefficients(columns[j], triangle_backward),
            row_map(r),
            n,
            p,
            triangle_forward,
            triangle_backward,
        );
    }
    assert forall|j: int, row: usize|
        0 <= j < n && (forall|r: usize| #[trigger] row_map(r) != row) implies #[trigger] super::uniqueness::span_entry(
        new_matrix,
        moved_coefficients(columns[j], triangle_backward),
        n,
        p,
        row,
    ) == 0 by {
        if (row as int) < ne {
            let r = backward(row as int) as usize;
            assert(forward(backward(row as int)) == row as int);
            assert(row_map(r) == row);
        } else {
            assert(row_map(row) == row);
        }
    }
    assert forall|j: int, r: usize|
        0 <= j < n && reduced[j].len() > 0 && #[trigger] lookup(reduced[j], r) != 0 && r != reduced[j].last().0
        implies row_map(r) < row_map(reduced[j].last().0) by {
        let last = reduced[j].last().0;
        assert(reduces_to(old_matrix, columns[j], p, reduced[j]));
        assert forall|i: int, k: int| 0 <= i < old_matrix.len() && 0 <= k < old_matrix[i].len() implies (
        #[trigger] old_matrix[i][k]).0 < ne by {
            lemma_triangle_column_lookup(
                complex,
                updated_complex,
                p,
                forward,
                backward,
                triangle_forward,
                triangle_backward,
                i,
                r,
            );
        }
        lemma_rows_below(old_matrix, columns[j], p, reduced[j], ne as nat);
        super::transport::lemma_lookup_present(reduced[j], r);
        let k = choose|k: int| 0 <= k < reduced[j].len() && #[trigger] reduced[j][k].0 == r;
        assert(reduced[j][reduced[j].len() - 1] == reduced[j].last());
        assert((r as int) < ne && (last as int) < ne);
        lemma_pivot_member(reduced, edge_views(e), j, k);
        let g = (ReductionGuardKind::Pivot, edge_views(e)[r as int], edge_views(e)[last as int]);
        assert(pivot_guards_of(reduced, complex).contains(g));
        assert(guard_holds(g, endpoints(updated), lengths(updated)));
        assert(edge_views(e)[r as int] == edge_views(f)[forward(r as int)]);
        assert(edge_views(e)[last as int] == edge_views(f)[forward(last as int)]);
        assert(forward(r as int) != forward(last as int)) by {
            assert(backward(forward(r as int)) == r as int);
            assert(backward(forward(last as int)) == last as int);
        }
        lemma_edge_guard_orders(
            updated_complex,
            updated,
            vertex_count,
            threshold,
            ReductionGuardKind::Pivot,
            forward(r as int),
            forward(last as int),
        );
    }
    assert(new_matrix.len() == n);
}

/// Finite H0 intervals of the first `count` edges, one option per edge.
pub open spec fn finite_options(edges: Seq<FilteredEdge>, reduced: Seq<Seq<(usize, u64)>>, count: int) -> Seq<
    Option<Bar>,
> {
    Seq::new(
        count as nat,
        |c: int|
            if reduced[c].len() > 0 && edges[c].value > 0 {
                Some(Bar { dim: 0, birth: 0, death: edges[c].value })
            } else {
                None
            },
    )
}

/// H1 intervals of the first `count` edges, one option per edge.
pub open spec fn h1_options(
    edges: Seq<FilteredEdge>,
    reduced_edges: Seq<Seq<(usize, u64)>>,
    triangles: Seq<FilteredTriangle>,
    reduced_triangles: Seq<Seq<(usize, u64)>>,
    count: int,
) -> Seq<Option<Bar>> {
    Seq::new(
        count as nat,
        |c: int|
            if reduced_edges[c].len() == 0 && h1_death(triangles, reduced_triangles, c as usize) > edges[c].value {
                Some(Bar { dim: 1, birth: edges[c].value, death: h1_death(triangles, reduced_triangles, c as usize) })
            } else {
                None
            },
    )
}

proof fn lemma_finite_present(edges: Seq<FilteredEdge>, reduced: Seq<Seq<(usize, u64)>>, count: int)
    requires
        0 <= count,
    ensures
        h0_finite_bars(edges, reduced, count) == present(finite_options(edges, reduced, count)),
    decreases count,
{
    if count > 0 {
        lemma_finite_present(edges, reduced, count - 1);
        assert(finite_options(edges, reduced, count).drop_last() =~= finite_options(edges, reduced, count - 1));
    }
}

proof fn lemma_h1_present(
    edges: Seq<FilteredEdge>,
    reduced_edges: Seq<Seq<(usize, u64)>>,
    triangles: Seq<FilteredTriangle>,
    reduced_triangles: Seq<Seq<(usize, u64)>>,
    count: int,
)
    requires
        0 <= count,
    ensures
        h1_bars(edges, reduced_edges, triangles, reduced_triangles, count) == present(
            h1_options(edges, reduced_edges, triangles, reduced_triangles, count),
        ),
    decreases count,
{
    if count > 0 {
        lemma_h1_present(edges, reduced_edges, triangles, reduced_triangles, count - 1);
        assert(h1_options(edges, reduced_edges, triangles, reduced_triangles, count).drop_last() =~= h1_options(
            edges,
            reduced_edges,
            triangles,
            reduced_triangles,
            count - 1,
        ));
    }
}

/// Options read through inverse position maps hold the same values.
proof fn lemma_options_relisted(first: Seq<Option<Bar>>, second: Seq<Option<Bar>>, forward: spec_fn(int) -> int, backward: spec_fn(int) -> int)
    requires
        first.len() == second.len(),
        forall|j: int| 0 <= j < first.len() ==> 0 <= #[trigger] forward(j) < first.len() && backward(forward(j)) == j,
        forall|q: int| 0 <= q < first.len() ==> 0 <= #[trigger] backward(q) < first.len() && forward(backward(q)) == q,
        forall|q: int| 0 <= q < second.len() ==> #[trigger] second[q] == first[backward(q)],
    ensures
        present(second).to_multiset() == present(first).to_multiset(),
{
    let n = first.len();
    let order = Seq::new(n, |q: int| backward(q));
    assert(is_permutation(order, n)) by {
        assert forall|i: int| 0 <= i < n implies #[trigger] lists(order, n, i) by {
            assert(order[forward(i)] == i);
        }
        assert forall|a: int, b: int| 0 <= a < b < n implies order[a] != order[b] by {
            assert(forward(backward(a)) == a);
            assert(forward(backward(b)) == b);
        }
    }
    assert forall|q: int| 0 <= q < n implies #[trigger] second[q] == first[order[q]] by {}
    lemma_permuted_multiset(second, first, order);
    lemma_present_multiset(second, first);
}

/// Killed vertices read only the rows at which reduced edge columns end,
/// through inverse position maps.
proof fn lemma_essential_relisted(
    first: Seq<Seq<(usize, u64)>>,
    second: Seq<Seq<(usize, u64)>>,
    forward: spec_fn(int) -> int,
    backward: spec_fn(int) -> int,
    count: int,
)
    requires
        first.len() == second.len(),
        forall|j: int| 0 <= j < first.len() ==> 0 <= #[trigger] forward(j) < first.len() && backward(forward(j)) == j,
        forall|q: int| 0 <= q < first.len() ==> 0 <= #[trigger] backward(q) < first.len() && forward(backward(q)) == q,
        forall|q: int| 0 <= q < second.len() ==> #[trigger] pivot_row(second[q]) == pivot_row(first[backward(q)]),
    ensures
        h0_essential_bars(second, count) == h0_essential_bars(first, count),
    decreases count,
{
    if count > 0 {
        lemma_essential_relisted(first, second, forward, backward, count - 1);
        let x = (count - 1) as usize;
        if killed(first, x) {
            let j = choose|j: int| 0 <= j < first.len() && #[trigger] pivot_row(first[j]) == Some(x);
            assert(pivot_row(second[forward(j)]) == Some(x));
        }
        if killed(second, x) {
            let q = choose|q: int| 0 <= q < second.len() && #[trigger] pivot_row(second[q]) == Some(x);
            assert(pivot_row(first[backward(q)]) == Some(x));
        }
    }
}

/// The death of a class born at a relisted edge is the death of the class
/// born at the original edge.
proof fn lemma_death_relisted(
    triangles: Seq<FilteredTriangle>,
    reduced: Seq<Seq<(usize, u64)>>,
    updated_triangles: Seq<FilteredTriangle>,
    updated_reduced: Seq<Seq<(usize, u64)>>,
    triangle_forward: spec_fn(int) -> int,
    triangle_backward: spec_fn(int) -> int,
    row_map: spec_fn(usize) -> usize,
    edge: usize,
)
    requires
        reduced.len() == updated_reduced.len(),
        reduced.len() <= triangles.len(),
        triangles.len() == updated_triangles.len(),
        forall|j: int|
            0 <= j < reduced.len() ==> 0 <= #[trigger] triangle_forward(j) < reduced.len() && triangle_backward(
                triangle_forward(j),
            ) == j,
        forall|q: int|
            0 <= q < reduced.len() ==> 0 <= #[trigger] triangle_backward(q) < reduced.len() && triangle_forward(
                triangle_backward(q),
            ) == q,
        forall|a: usize, b: usize| #[trigger] row_map(a) == #[trigger] row_map(b) ==> a == b,
        forall|q: int|
            0 <= q < updated_reduced.len() ==> #[trigger] pivot_row(updated_reduced[q]) == carried_row(
                pivot_row(reduced[triangle_backward(q)]),
                row_map,
            ),
        forall|j: int| 0 <= j < reduced.len() ==> #[trigger] updated_triangles[triangle_forward(j)].value == triangles[j].value,
        distinct_pivot_rows(updated_reduced),
    ensures
        h1_death(updated_triangles, updated_reduced, row_map(edge)) == h1_death(triangles, reduced, edge),
{
    let target = row_map(edge);
    if exists|t: int| 0 <= t < reduced.len() && #[trigger] pivot_row(reduced[t]) == Some(edge) {
        let a = choose|t: int| 0 <= t < reduced.len() && #[trigger] pivot_row(reduced[t]) == Some(edge);
        assert(pivot_row(updated_reduced[triangle_forward(a)]) == Some(target));
        let b = choose|t: int| 0 <= t < updated_reduced.len() && #[trigger] pivot_row(updated_reduced[t]) == Some(target);
        if b != triangle_forward(a) {
            if b < triangle_forward(a) {
                assert(updated_reduced[b].last().0 != updated_reduced[triangle_forward(a)].last().0);
            } else {
                assert(updated_reduced[triangle_forward(a)].last().0 != updated_reduced[b].last().0);
            }
        }
    } else {
        assert forall|t: int| 0 <= t < updated_reduced.len() implies #[trigger] pivot_row(updated_reduced[t]) != Some(
            target,
        ) by {
            let j = triangle_backward(t);
            if pivot_row(updated_reduced[t]) == Some(target) {
                assert(pivot_row(reduced[j]) is Some);
                let r = pivot_row(reduced[j]).unwrap();
                assert(row_map(r) == row_map(edge));
                assert(pivot_row(reduced[j]) == Some(edge));
            }
        }
    }
}

/// A region compiled from a certified reduction evaluates every graph on
/// which it reports no violation to the diagram that any certificate of
/// that graph records, under the same modulus and threshold, when every
/// vertex label lies below the rank bound.
pub proof fn lemma_accepted_reweighting_evaluates_exactly(
    region: RegionView,
    certificate: CertificateView,
    vertex_count: usize,
    edges: Seq<WeightedEdge>,
    limits: CertificateLimits,
    complex: FilteredComplex,
    reduced_edges: Seq<Seq<(usize, u64)>>,
    reduced_triangles: Seq<Seq<(usize, u64)>>,
    updated_certificate: CertificateView,
    updated_count: usize,
    updated: Seq<WeightedEdge>,
    updated_limits: CertificateLimits,
)
    requires
        supported_modulus(certificate.modulus as nat),
        vertex_count <= 0x400_0000_0000,
        reduction_certified(certificate, vertex_count, edges, limits, complex, reduced_edges, reduced_triangles),
        compiled_from(region, certificate, vertex_count, edges, complex, reduced_edges, reduced_triangles),
        simple_graph(updated_count, updated),
        updated.len() <= usize::MAX,
        region_violations(region, updated_count, updated).len() == 0,
        super::checked::certifies(updated_certificate, updated_count, updated, updated_limits),
        updated_certificate.modulus == certificate.modulus,
        updated_certificate.threshold == certificate.threshold,
    ensures
        canonical_form(updated_certificate.bars, region_bars(region, lengths(updated))),
{
    let (updated_complex, updated_edges, updated_triangles) = choose|
        complex: FilteredComplex,
        reduced_edges: Seq<Seq<(usize, u64)>>,
        reduced_triangles: Seq<Seq<(usize, u64)>>,
    |
        #[trigger] reduction_certified(
            updated_certificate,
            updated_count,
            updated,
            updated_limits,
            complex,
            reduced_edges,
            reduced_triangles,
        );
    lemma_reweighting_exact(
        region,
        certificate,
        vertex_count,
        edges,
        limits,
        complex,
        reduced_edges,
        reduced_triangles,
        updated_certificate,
        updated_count,
        updated,
        updated_limits,
        updated_complex,
        updated_edges,
        updated_triangles,
    );
}

#[verifier::rlimit(60)]
proof fn lemma_reweighting_exact(
    region: RegionView,
    certificate: CertificateView,
    vertex_count: usize,
    edges: Seq<WeightedEdge>,
    limits: CertificateLimits,
    complex: FilteredComplex,
    reduced_edges: Seq<Seq<(usize, u64)>>,
    reduced_triangles: Seq<Seq<(usize, u64)>>,
    updated_certificate: CertificateView,
    updated_count: usize,
    updated: Seq<WeightedEdge>,
    updated_limits: CertificateLimits,
    updated_complex: FilteredComplex,
    updated_edges: Seq<Seq<(usize, u64)>>,
    updated_triangles: Seq<Seq<(usize, u64)>>,
)
    requires
        supported_modulus(certificate.modulus as nat),
        vertex_count <= 0x400_0000_0000,
        reduction_certified(certificate, vertex_count, edges, limits, complex, reduced_edges, reduced_triangles),
        compiled_from(region, certificate, vertex_count, edges, complex, reduced_edges, reduced_triangles),
        simple_graph(updated_count, updated),
        updated.len() <= usize::MAX,
        region_violations(region, updated_count, updated).len() == 0,
        reduction_certified(
            updated_certificate,
            updated_count,
            updated,
            updated_limits,
            updated_complex,
            updated_edges,
            updated_triangles,
        ),
        updated_certificate.modulus == certificate.modulus,
        updated_certificate.threshold == certificate.threshold,
    ensures
        canonical_form(updated_certificate.bars, region_bars(region, lengths(updated))),
{
    let p = certificate.modulus as nat;
    let threshold = threshold_bits(certificate.threshold);
    let e = complex.edges@;
    let f = updated_complex.edges@;
    let t = complex.triangles@;
    let s = updated_complex.triangles@;
    let topology = endpoints(updated);
    let values = lengths(updated);
    // The updated graph keeps the vertex count, the edge list and the
    // threshold memberships.
    assert(updated_count == vertex_count && topology == region.topology) by {
        assert(updated_count == region.vertex_count);
    }
    assert(crossings(region.topology, region.active, values, threshold_bits(region.threshold), region.topology.len() as int).len()
        == 0);
    lemma_crossings_empty(region.topology, region.active, values, threshold, region.topology.len() as int);
    assert(edges.len() == updated.len()) by {
        assert(endpoints(edges).len() == edges.len());
        assert(topology.len() == updated.len());
    }
    assert forall|i: int| 0 <= i < edges.len() implies (#[trigger] edges[i]).0 == updated[i].0 && edges[i].1
        == updated[i].1 && value_at_most(edges[i].2, threshold) == value_at_most(updated[i].2, threshold) by {
        assert(endpoints(edges)[i] == topology[i]);
        assert(value_at_most(values[i], threshold) == region.active[i]);
    }
    let forward = |c: int| match_in(edge_pairs(f), edge_pairs(e)[c]);
    let backward = |q: int| match_in(edge_pairs(e), edge_pairs(f)[q]);
    let triangle_forward = |k: int| match_in(triangle_triples(s), triangle_triples(t)[k]);
    let triangle_backward = |m: int| match_in(triangle_triples(t), triangle_triples(s)[m]);
    lemma_relisted(complex, edges, updated_complex, updated, vertex_count, threshold);
    assert(relisted(complex, updated_complex, forward, backward, triangle_forward, triangle_backward));
    // Every comparison the reduction asks for holds at the new lengths.
    let all = region_guards(certificate, e, t, reduced_triangles);
    lemma_region_guards_hold(
        region,
        certificate,
        vertex_count,
        edges,
        limits,
        complex,
        reduced_edges,
        reduced_triangles,
        updated_count,
        updated,
    );
    let edge_guards = change_guards_of(certificate.edge_columns, complex);
    let triangle_guards = triangle_change_guards_of(certificate.triangle_columns, complex);
    let pivot_list = pivot_guards_of(reduced_triangles, complex);
    assert(all == edge_guards + triangle_guards + pivot_list);
    assert forall|g: (ReductionGuardKind, Seq<usize>, Seq<usize>)| #[trigger] all.contains(g) implies guard_holds(
        g,
        topology,
        values,
    ) by {
        let i = choose|i: int| 0 <= i < all.len() && all[i] == g;
        assert(guard_holds(all[i], topology, values));
    }
    assert forall|g: (ReductionGuardKind, Seq<usize>, Seq<usize>)| #[trigger] edge_guards.contains(g) implies guard_holds(
        g,
        topology,
        values,
    ) by {
        super::transport::lemma_concat_contains(edge_guards, triangle_guards, g);
        super::transport::lemma_concat_contains(edge_guards + triangle_guards, pivot_list, g);
        assert(all.contains(g));
    }
    assert forall|g: (ReductionGuardKind, Seq<usize>, Seq<usize>)| #[trigger] triangle_guards.contains(g) implies guard_holds(
        g,
        topology,
        values,
    ) by {
        super::transport::lemma_concat_contains(edge_guards, triangle_guards, g);
        super::transport::lemma_concat_contains(edge_guards + triangle_guards, pivot_list, g);
        assert(all.contains(g));
    }
    assert forall|g: (ReductionGuardKind, Seq<usize>, Seq<usize>)| #[trigger] pivot_list.contains(g) implies guard_holds(
        g,
        topology,
        values,
    ) by {
        super::transport::lemma_concat_contains(edge_guards + triangle_guards, pivot_list, g);
        assert(all.contains(g));
    }
    // The checked reduction carries to the new order.
    let edge_matrix = edge_boundary_views(e, p);
    let triangle_matrix = triangle_boundary_views(edge_row_table(complex.edge_rows), t, p);
    let new_edge_matrix = edge_boundary_views(f, p);
    let new_triangle_matrix = triangle_boundary_views(edge_row_table(updated_complex.edge_rows), s, p);
    assert(e.len() == complex.edges.len() && t.len() == complex.triangles.len());
    assert(f.len() == updated_complex.edges.len() && s.len() == updated_complex.triangles.len());
    assert(certified_reduction(edge_matrix, certificate.edge_columns, reduced_edges, p));
    assert(certified_reduction(triangle_matrix, certificate.triangle_columns, reduced_triangles, p));
    assert(certified_reduction(new_edge_matrix, updated_certificate.edge_columns, updated_edges, p));
    assert(certified_reduction(new_triangle_matrix, updated_certificate.triangle_columns, updated_triangles, p));
    lemma_edge_carries(
        certificate.edge_columns,
        reduced_edges,
        complex,
        updated_complex,
        updated,
        vertex_count,
        threshold,
        p,
        forward,
        backward,
        triangle_forward,
        triangle_backward,
    );
    lemma_triangle_carries(
        certificate.edge_columns,
        reduced_edges,
        certificate.triangle_columns,
        reduced_triangles,
        complex,
        updated_complex,
        updated,
        vertex_count,
        threshold,
        threshold,
        edges,
        p,
        forward,
        backward,
        triangle_forward,
        triangle_backward,
    );
    let row_map = carried_rows(e.len() as int, forward);
    let same_rows = |r: usize| r;
    lemma_transported_pivots(
        edge_matrix,
        certificate.edge_columns,
        reduced_edges,
        new_edge_matrix,
        updated_certificate.edge_columns,
        updated_edges,
        p,
        forward,
        backward,
        same_rows,
        e.len() - 1,
    );
    lemma_transported_pivots(
        triangle_matrix,
        certificate.triangle_columns,
        reduced_triangles,
        new_triangle_matrix,
        updated_certificate.triangle_columns,
        updated_triangles,
        p,
        triangle_forward,
        triangle_backward,
        row_map,
        t.len() - 1,
    );
    assert forall|q: int| 0 <= q < f.len() implies #[trigger] pivot_row(updated_edges[q]) == pivot_row(
        reduced_edges[backward(q)],
    ) by {
        assert(pivot_row(updated_edges[q]) == carried_row(pivot_row(reduced_edges[backward(q)]), same_rows));
    }
    lemma_distinct_rows(new_triangle_matrix, updated_certificate.triangle_columns, updated_triangles, p);
    lemma_distinct_rows(triangle_matrix, certificate.triangle_columns, reduced_triangles, p);
    // The region reads the relisted complex at the new lengths.
    let relisted_edges = Seq::new(e.len(), |c: int| f[forward(c)]);
    let relisted_triangles = Seq::new(t.len(), |k: int| s[triangle_forward(k)]);
    assert forall|c: int| 0 <= c < e.len() implies #[trigger] e[c].vertices == relisted_edges[c].vertices by {}
    assert forall|k: int| 0 <= k < t.len() implies #[trigger] t[k].vertices == relisted_triangles[k].vertices by {}
    lemma_relisted_reads(
        region,
        vertex_count,
        updated,
        threshold,
        updated_complex,
        complex,
        reduced_edges,
        reduced_triangles,
        relisted_edges,
        relisted_triangles,
        forward,
        triangle_forward,
    );
    let bars = region_bars(region, values);
    assert(bars == raw_bars(vertex_count, relisted_edges, reduced_edges, relisted_triangles, reduced_triangles));
    // The new reduction's intervals are those intervals, reordered.
    lemma_finite_present(f, updated_edges, f.len() as int);
    lemma_finite_present(relisted_edges, reduced_edges, e.len() as int);
    assert forall|q: int| 0 <= q < f.len() implies #[trigger] finite_options(f, updated_edges, f.len() as int)[q]
        == finite_options(relisted_edges, reduced_edges, e.len() as int)[backward(q)] by {
        let c = backward(q);
        assert(forward(c) == q);
        assert(pivot_row(updated_edges[q]) == pivot_row(reduced_edges[c]));
        assert(relisted_edges[c] == f[q]);
    }
    lemma_options_relisted(
        finite_options(relisted_edges, reduced_edges, e.len() as int),
        finite_options(f, updated_edges, f.len() as int),
        forward,
        backward,
    );
    lemma_essential_relisted(reduced_edges, updated_edges, forward, backward, vertex_count as int);
    lemma_h1_present(f, updated_edges, s, updated_triangles, f.len() as int);
    lemma_h1_present(relisted_edges, reduced_edges, relisted_triangles, reduced_triangles, e.len() as int);
    assert forall|q: int| 0 <= q < f.len() implies #[trigger] h1_options(
        f,
        updated_edges,
        s,
        updated_triangles,
        f.len() as int,
    )[q] == h1_options(relisted_edges, reduced_edges, relisted_triangles, reduced_triangles, e.len() as int)[backward(
        q,
    )] by {
        let c = backward(q);
        assert(forward(c) == q);
        assert(row_map(c as usize) == q as usize);
        assert(pivot_row(updated_edges[q]) == pivot_row(reduced_edges[c]));
        assert(relisted_edges[c] == f[q]);
        assert forall|j: int| 0 <= j < reduced_triangles.len() implies #[trigger] s[triangle_forward(j)].value
            == relisted_triangles[j].value by {}
        lemma_death_relisted(
            relisted_triangles,
            reduced_triangles,
            s,
            updated_triangles,
            triangle_forward,
            triangle_backward,
            row_map,
            c as usize,
        );
    }
    lemma_options_relisted(
        h1_options(relisted_edges, reduced_edges, relisted_triangles, reduced_triangles, e.len() as int),
        h1_options(f, updated_edges, s, updated_triangles, f.len() as int),
        forward,
        backward,
    );
    let raw = raw_bars(vertex_count, f, updated_edges, s, updated_triangles);
    let finite = h0_finite_bars(f, updated_edges, f.len() as int);
    let essential = h0_essential_bars(updated_edges, vertex_count as int);
    let cycles = h1_bars(f, updated_edges, s, updated_triangles, f.len() as int);
    let old_finite = h0_finite_bars(relisted_edges, reduced_edges, e.len() as int);
    let old_cycles = h1_bars(relisted_edges, reduced_edges, relisted_triangles, reduced_triangles, e.len() as int);
    vstd::seq_lib::lemma_multiset_commutative(finite, essential);
    vstd::seq_lib::lemma_multiset_commutative(finite + essential, cycles);
    vstd::seq_lib::lemma_multiset_commutative(old_finite, essential);
    vstd::seq_lib::lemma_multiset_commutative(old_finite + essential, old_cycles);
    assert(raw.to_multiset() == bars.to_multiset());
    // The recorded diagram is the canonical form of both.
    let order = choose|order: Seq<int>|
        #[trigger] is_permutation(order, raw.len()) && updated_certificate.bars.len() == raw.len() && forall|j: int|
            0 <= j < updated_certificate.bars.len() ==> #[trigger] updated_certificate.bars[j] == raw[order[j]];
    lemma_permuted_multiset(updated_certificate.bars, raw, order);
    lemma_permutation_of_multiset(updated_certificate.bars, bars);
}

/// The region reads the relisted complex at the new lengths.
proof fn lemma_relisted_reads(
    region: RegionView,
    vertex_count: usize,
    updated: Seq<WeightedEdge>,
    threshold: u64,
    updated_complex: FilteredComplex,
    complex: FilteredComplex,
    reduced_edges: Seq<Seq<(usize, u64)>>,
    reduced_triangles: Seq<Seq<(usize, u64)>>,
    relisted_edges: Seq<FilteredEdge>,
    relisted_triangles: Seq<FilteredTriangle>,
    forward: spec_fn(int) -> int,
    triangle_forward: spec_fn(int) -> int,
)
    requires
        updated_complex.filters(vertex_count, updated, threshold),
        simple_graph(vertex_count, updated),
        updated.len() <= usize::MAX,
        region.topology == endpoints(updated),
        region.h0_deaths == killing_positions(
            complex.edges@,
            reduced_edges,
            position_map(region.topology),
            complex.edges@.len() as int,
        ),
        region.h0_essential == super::compile::unkilled_count(reduced_edges, vertex_count as int),
        region.h1_pairs == region_h1_pairs(
            complex.edges@,
            reduced_edges,
            complex.triangles@,
            reduced_triangles,
            complex.edges@.len() as int,
        ),
        reduced_edges.len() == complex.edges@.len(),
        reduced_triangles.len() == complex.triangles@.len(),
        super::checked::distinct_pivot_rows(reduced_triangles),
        relisted_edges.len() == complex.edges@.len(),
        relisted_triangles.len() == complex.triangles@.len(),
        forall|c: int|
            0 <= c < complex.edges@.len() ==> 0 <= #[trigger] forward(c) < updated_complex.edges@.len()
                && relisted_edges[c] == updated_complex.edges@[forward(c)],
        forall|k: int|
            0 <= k < complex.triangles@.len() ==> 0 <= #[trigger] triangle_forward(k) < updated_complex.triangles@.len()
                && relisted_triangles[k] == updated_complex.triangles@[triangle_forward(k)],
        forall|c: int| 0 <= c < complex.edges@.len() ==> #[trigger] complex.edges@[c].vertices == relisted_edges[c].vertices,
        forall|k: int|
            0 <= k < complex.triangles@.len() ==> #[trigger] complex.triangles@[k].vertices == relisted_triangles[k].vertices,
    ensures
        region_bars(region, lengths(updated)) == raw_bars(
            vertex_count,
            relisted_edges,
            reduced_edges,
            relisted_triangles,
            reduced_triangles,
        ),
{
    let topology = endpoints(updated);
    let values = lengths(updated);
    let positions = position_map(topology);
    let e = complex.edges@;
    let t = complex.triangles@;
    super::fidelity::lemma_complex_reads(updated_complex, updated, vertex_count, threshold);
    assert forall|c: int| 0 <= c < relisted_edges.len() implies #[trigger] values[positions[relisted_edges[c].vertices] as int]
        == relisted_edges[c].value && relisted_edges[c].value <= INFINITY_BITS by {
        assert(relisted_edges[c] == updated_complex.edges@[forward(c)]);
    }
    assert forall|c: int| 0 <= c < relisted_edges.len() implies #[trigger] listed_value(
        relisted_edges[c].vertices,
        topology,
        values,
    ) == relisted_edges[c].value && relisted_edges[c].value <= INFINITY_BITS by {
        assert(relisted_edges[c] == updated_complex.edges@[forward(c)]);
    }
    assert forall|k: int| 0 <= k < relisted_triangles.len() implies #[trigger] pair_death_value(
        RegionH1Pair { birth: (0, 0), death: Some(relisted_triangles[k].vertices) },
        topology,
        values,
    ) == relisted_triangles[k].value && relisted_triangles[k].value <= INFINITY_BITS by {
        assert(relisted_triangles[k] == updated_complex.triangles@[triangle_forward(k)]);
    }
    lemma_killing_follows(e, reduced_edges, relisted_edges, reduced_edges, positions, e.len() as int);
    assert forall|j: int| 0 <= j < reduced_edges.len() implies #[trigger] pivot_row(reduced_edges[j]) == pivot_row(
        reduced_edges[j],
    ) by {}
    lemma_h1_pairs_follow(
        e,
        reduced_edges,
        t,
        reduced_triangles,
        relisted_edges,
        reduced_edges,
        relisted_triangles,
        reduced_triangles,
        e.len() as int,
    );
    lemma_h0_bars(relisted_edges, reduced_edges, positions, values, e.len() as int);
    lemma_essential_bars(reduced_edges, vertex_count as int);
    lemma_h1_bars(relisted_edges, reduced_edges, relisted_triangles, reduced_triangles, topology, values, e.len() as int);
}

} // verus!
