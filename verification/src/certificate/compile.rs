//! Compiling a checked certificate into a certified reduction region: the
//! comparisons that keep the reduction valid, numbered once, with the
//! formulas that read their values from the listed edge lengths.

use std::collections::BTreeMap;
use vstd::prelude::*;

use crate::graph::{at_most, endpoints, value_at_most, WeightedEdge};

use super::algebra::column_views;
use super::checked::{distinct_pivot_rows, h1_death_simplices, killed, pivot_row};
use super::pivots::{pivot_table, pivot_table_get};
use super::sparse::SparseColumn;
use super::complex::{
    edge_boundary_views, has_filtered_edge, is_filtered_triangle, lemma_active_simple, orders_edges,
    plain_edges, rows_of, simple_graph, triangle_boundary_views, FilteredEdge, FilteredTriangle,
};
use super::order::is_permutation;
use super::guards::{
    change_guards, distinct_nodes, guard_set_of, guard_lt, guard_views, kept_guard, node_of, pivot_guards,
    simplex_views, GuardView,
};
use super::checked::{certifies, lemma_distinct_rows, lemma_rows_below, reduction_certified, threshold_bits, verification_refused};
use super::complex::{edge_row_table, FilteredComplex};
use super::guards::{add_change_guards, add_pivot_guards, lemma_change_guards_within, lemma_pivot_guards_within, minimize_guards, sorted_guard_set, guards_within};
use super::model::{CertificateError, CertificateLimits, CertificateView, FiltrationSimplex, ReductionCertificate, ReductionGuard};
use super::region::CertifiedReductionRegion;
use super::repair::{distinct_simplices, simplex_positions};
use super::evaluate::listed_endpoints;
use super::algebra::change_views;
use crate::diagram::INFINITY_BITS;
use crate::field::supported_modulus;
use crate::digest::sha256;
use super::verify::{graph_message, valid_threshold};
use super::region::{
    formula_defined, formula_within, guard_tables, pair_formula, pair_tables, pair_within, position_of, region_value_formula, simplex_formula,
    simplex_rank, simplex_rank_spec, RegionH1Pair, RegionValueFormula, RegionView,
};
use super::repair::{lemma_position_bound, lemma_position_domain, ordered_keys, position_map};
use crate::graph::active_at;

verus! {

broadcast use vstd::std_specs::btree::group_btree_axioms;

/// Vertex lists of the filtered edges.
pub open spec fn edge_views(edges: Seq<FilteredEdge>) -> Seq<Seq<usize>> {
    Seq::new(edges.len(), |j: int| seq![edges[j].vertices.0, edges[j].vertices.1])
}

/// Vertex lists of the filtered triangles.
pub open spec fn triangle_views(triangles: Seq<FilteredTriangle>) -> Seq<Seq<usize>> {
    Seq::new(
        triangles.len(),
        |j: int| seq![triangles[j].vertices.0, triangles[j].vertices.1, triangles[j].vertices.2],
    )
}

/// Every comparison a checked reduction asks for: the change-of-basis
/// guards of both matrices, then the pivot guards of the reduced triangle
/// columns.
pub open spec fn region_guards(
    certificate: CertificateView,
    edges: Seq<FilteredEdge>,
    triangles: Seq<FilteredTriangle>,
    reduced_triangles: Seq<Seq<(usize, u64)>>,
) -> Seq<GuardView> {
    change_guards(certificate.edge_columns, edge_views(edges)) + change_guards(
        certificate.triangle_columns,
        triangle_views(triangles),
    ) + pivot_guards(reduced_triangles, edge_views(edges))
}

/// Listed positions of the first `count` edges whose reduced column kills
/// a vertex.
pub open spec fn killing_positions(
    edges: Seq<FilteredEdge>,
    reduced: Seq<Seq<(usize, u64)>>,
    positions: Map<(usize, usize), usize>,
    count: int,
) -> Seq<usize>
    decreases count,
{
    if count <= 0 {
        Seq::empty()
    } else {
        let rest = killing_positions(edges, reduced, positions, count - 1);
        if reduced[count - 1].len() > 0 {
            rest.push(positions[edges[count - 1].vertices])
        } else {
            rest
        }
    }
}

/// Number of vertices below `count` that no reduced column kills.
pub open spec fn unkilled_count(reduced: Seq<Seq<(usize, u64)>>, count: int) -> nat
    decreases count,
{
    if count <= 0 {
        0
    } else {
        unkilled_count(reduced, count - 1) + if killed(reduced, (count - 1) as usize) {
            0nat
        } else {
            1nat
        }
    }
}

/// The triangle whose reduced column has `edge` as pivot, if any.
pub open spec fn h1_death_triangle(
    triangles: Seq<FilteredTriangle>,
    reduced: Seq<Seq<(usize, u64)>>,
    edge: usize,
) -> Option<(usize, usize, usize)> {
    if exists|t: int| 0 <= t < reduced.len() && #[trigger] pivot_row(reduced[t]) == Some(edge) {
        Some(triangles[choose|t: int| 0 <= t < reduced.len() && #[trigger] pivot_row(reduced[t]) == Some(edge)].vertices)
    } else {
        None
    }
}

/// The H1 pairs of the first `count` edges: each edge whose reduced column
/// is zero, with the triangle that destroys its class, if any.
pub open spec fn region_h1_pairs(
    edges: Seq<FilteredEdge>,
    reduced_edges: Seq<Seq<(usize, u64)>>,
    triangles: Seq<FilteredTriangle>,
    reduced_triangles: Seq<Seq<(usize, u64)>>,
    count: int,
) -> Seq<RegionH1Pair>
    decreases count,
{
    if count <= 0 {
        Seq::empty()
    } else {
        let rest = region_h1_pairs(edges, reduced_edges, triangles, reduced_triangles, count - 1);
        if reduced_edges[count - 1].len() == 0 {
            rest.push(
                RegionH1Pair {
                    birth: edges[count - 1].vertices,
                    death: h1_death_triangle(triangles, reduced_triangles, (count - 1) as usize),
                },
            )
        } else {
            rest
        }
    }
}

/// A simplex whose value and rank a region can compute: two or three
/// vertex labels below the rank bound, whose edges are all listed.
pub open spec fn guardable(vertices: Seq<usize>, positions: Map<(usize, usize), usize>, count: nat) -> bool {
    &&& 2 <= vertices.len() <= 3
    &&& forall|i: int| 0 <= i < vertices.len() ==> #[trigger] vertices[i] < 0x400_0000_0000
    &&& formula_defined(vertices, positions)
    &&& formula_within(simplex_formula(vertices, positions), count)
}

/// Vertex lists of simplices.
fn edge_simplices(edges: &[FilteredEdge]) -> (simplices: Vec<FiltrationSimplex>)
    ensures
        simplex_views(simplices@) == edge_views(edges@),
{
    let mut simplices: Vec<FiltrationSimplex> = Vec::new();
    let mut index: usize = 0;
    while index < edges.len()
        invariant
            index <= edges@.len(),
            simplex_views(simplices@) == edge_views(edges@).take(index as int),
        decreases edges@.len() - index,
    {
        let simplex = super::evaluate::edge_simplex(edges[index].vertices);
        let ghost before = simplices@;
        simplices.push(simplex);
        proof {
            assert(simplex_views(simplices@) =~= simplex_views(before).push(simplex@));
            assert(edge_views(edges@).take(index + 1) =~= edge_views(edges@).take(index as int).push(simplex@));
        }
        index += 1;
    }
    assert(edge_views(edges@).take(edges@.len() as int) =~= edge_views(edges@));
    simplices
}

/// Vertex lists of triangles.
fn triangle_simplices(triangles: &[FilteredTriangle]) -> (simplices: Vec<FiltrationSimplex>)
    ensures
        simplex_views(simplices@) == triangle_views(triangles@),
{
    let mut simplices: Vec<FiltrationSimplex> = Vec::new();
    let mut index: usize = 0;
    while index < triangles.len()
        invariant
            index <= triangles@.len(),
            simplex_views(simplices@) == triangle_views(triangles@).take(index as int),
        decreases triangles@.len() - index,
    {
        let (u, v, w) = triangles[index].vertices;
        let mut vertices: Vec<usize> = Vec::new();
        vertices.push(u);
        vertices.push(v);
        vertices.push(w);
        assert(vertices@ =~= seq![u, v, w]);
        let simplex = FiltrationSimplex::new(vertices);
        let ghost before = simplices@;
        simplices.push(simplex);
        proof {
            assert(simplex_views(simplices@) =~= simplex_views(before).push(simplex@));
            assert(triangle_views(triangles@).take(index + 1) =~= triangle_views(triangles@).take(index as int).push(
                simplex@,
            ));
        }
        index += 1;
    }
    assert(triangle_views(triangles@).take(triangles@.len() as int) =~= triangle_views(triangles@));
    simplices
}

/// Whether each listed edge lies within `threshold`.
fn threshold_membership(edges: &[WeightedEdge], threshold: u64) -> (active: Vec<bool>)
    ensures
        active@ == Seq::new(edges@.len(), |i: int| value_at_most(edges@[i].2, threshold)),
{
    let ghost all = Seq::new(edges@.len(), |i: int| value_at_most(edges@[i].2, threshold));
    let mut active: Vec<bool> = Vec::new();
    let mut index: usize = 0;
    while index < edges.len()
        invariant
            index <= edges@.len(),
            all == Seq::new(edges@.len(), |i: int| value_at_most(edges@[i].2, threshold)),
            active@ == all.take(index as int),
        decreases edges@.len() - index,
    {
        active.push(at_most(edges[index].2, threshold));
        index += 1;
        assert(active@ =~= all.take(index as int));
    }
    assert(all.take(edges@.len() as int) =~= all);
    active
}

/// Numbers the simplices of the guards once each, in order of first
/// appearance, and gives each its rank and its value formula over the
/// listed edges `topology`.
fn number_guards(
    guards: &Vec<ReductionGuard>,
    topology: &Vec<(usize, usize)>,
    edge_indices: &BTreeMap<(usize, usize), usize>,
) -> (tables: (Vec<(usize, usize)>, Vec<u128>, Vec<RegionValueFormula>))
    requires
        ordered_keys::<(usize, usize)>(),
        edge_indices@ == position_map(topology@),
        forall|k: int|
            0 <= k < guards@.len() ==> guardable(
                (#[trigger] guard_views(guards@)[k]).1,
                position_map(topology@),
                topology@.len(),
            ) && guardable(guard_views(guards@)[k].2, position_map(topology@), topology@.len()),
    ensures
        guard_tables(topology@, guard_views(guards@), tables.0@, tables.1@, tables.2@),
{
    let ghost gv = guard_views(guards@);
    let ghost positions = position_map(topology@);
    let ghost count = topology@.len();
    let mut nodes: Vec<FiltrationSimplex> = Vec::new();
    let mut indices: Vec<(usize, usize)> = Vec::new();
    let mut k: usize = 0;
    while k < guards.len()
        invariant
            gv == guard_views(guards@),
            positions == position_map(topology@),
            count == topology@.len(),
            forall|j: int|
                0 <= j < guards@.len() ==> guardable((#[trigger] gv[j]).1, positions, count) && guardable(
                    gv[j].2,
                    positions,
                    count,
                ),
            k <= guards@.len(),
            distinct_nodes(simplex_views(nodes@)),
            indices@.len() == k,
            forall|j: int|
                0 <= j < k ==> {
                    let (earlier, later) = #[trigger] indices@[j];
                    &&& earlier < nodes@.len()
                    &&& later < nodes@.len()
                    &&& simplex_views(nodes@)[earlier as int] == gv[j].1
                    &&& simplex_views(nodes@)[later as int] == gv[j].2
                },
            forall|n: int| 0 <= n < nodes@.len() ==> guardable(#[trigger] simplex_views(nodes@)[n], positions, count),
        decreases guards@.len() - k,
    {
        let guard = &guards[k];
        proof {
            assert(gv[k as int] == super::guards::guard_view(guards@[k as int]));
        }
        let ghost first = simplex_views(nodes@);
        let earlier = node_of(&mut nodes, guard.earlier());
        let ghost second = simplex_views(nodes@);
        let later = node_of(&mut nodes, guard.later());
        let ghost third = simplex_views(nodes@);
        proof {
            assert forall|n: int| 0 <= n < first.len() implies #[trigger] third[n] == first[n] by {
                assert(second[n] == first[n]);
            }
            assert(third[earlier as int] == second[earlier as int]);
            assert forall|n: int| 0 <= n < third.len() implies guardable(#[trigger] third[n], positions, count) by {
                if n >= first.len() {
                    if n < second.len() {
                        assert(third[n] == second[n]);
                    }
                }
            }
        }
        indices.push((earlier, later));
        proof {
            assert forall|j: int| 0 <= j < k + 1 implies {
                let (e, l) = #[trigger] indices@[j];
                &&& e < nodes@.len()
                &&& l < nodes@.len()
                &&& simplex_views(nodes@)[e as int] == gv[j].1
                &&& simplex_views(nodes@)[l as int] == gv[j].2
            } by {
                if j < k {
                    let (e, l) = indices@[j];
                    assert(third[e as int] == first[e as int]);
                    assert(third[l as int] == first[l as int]);
                }
            }
        }
        k += 1;
    }
    let mut ranks: Vec<u128> = Vec::new();
    let mut formulas: Vec<RegionValueFormula> = Vec::new();
    let mut n: usize = 0;
    while n < nodes.len()
        invariant
            ordered_keys::<(usize, usize)>(),
            edge_indices@ == positions,
            positions == position_map(topology@),
            count == topology@.len(),
            n <= nodes@.len(),
            ranks@.len() == n,
            formulas@.len() == n,
            forall|m: int| 0 <= m < nodes@.len() ==> guardable(#[trigger] simplex_views(nodes@)[m], positions, count),
            forall|m: int| 0 <= m < n ==> #[trigger] ranks@[m] == simplex_rank_spec(simplex_views(nodes@)[m]),
            forall|m: int| 0 <= m < n ==> #[trigger] formulas@[m] == simplex_formula(simplex_views(nodes@)[m], positions),
            gv == guard_views(guards@),
            indices@.len() == guards@.len(),
            forall|j: int|
                0 <= j < guards@.len() ==> {
                    let (earlier, later) = #[trigger] indices@[j];
                    &&& earlier < nodes@.len()
                    &&& later < nodes@.len()
                    &&& simplex_views(nodes@)[earlier as int] == gv[j].1
                    &&& simplex_views(nodes@)[later as int] == gv[j].2
                },
        decreases nodes@.len() - n,
    {
        proof {
            assert(simplex_views(nodes@)[n as int] == nodes@[n as int]@);
        }
        ranks.push(simplex_rank(&nodes[n]));
        formulas.push(region_value_formula(&nodes[n], edge_indices));
        n += 1;
    }
    proof {
        assert forall|m: int| 0 <= m < formulas@.len() implies formula_within(#[trigger] formulas@[m], count) by {
            assert(guardable(simplex_views(nodes@)[m], positions, count));
        }
        assert forall|j: int| 0 <= j < indices@.len() implies {
            let (earlier, later) = #[trigger] indices@[j];
            &&& earlier < formulas@.len()
            &&& later < formulas@.len()
            &&& formulas@[earlier as int] == simplex_formula(gv[j].1, positions)
            &&& formulas@[later as int] == simplex_formula(gv[j].2, positions)
            &&& ranks@[earlier as int] == simplex_rank_spec(gv[j].1)
            &&& ranks@[later as int] == simplex_rank_spec(gv[j].2)
        } by {
            let (earlier, later) = indices@[j];
            assert(formulas@[earlier as int] == simplex_formula(simplex_views(nodes@)[earlier as int], positions));
            assert(formulas@[later as int] == simplex_formula(simplex_views(nodes@)[later as int], positions));
            assert(ranks@[earlier as int] == simplex_rank_spec(simplex_views(nodes@)[earlier as int]));
            assert(ranks@[later as int] == simplex_rank_spec(simplex_views(nodes@)[later as int]));
        }
    }
    (indices, ranks, formulas)
}

/// Listed positions of the edges whose reduced column kills a vertex, and
/// the number of vertices that none kills.
fn killing_edges(
    edges: &[FilteredEdge],
    reduced: &[SparseColumn],
    vertex_count: usize,
    topology: &Vec<(usize, usize)>,
    edge_indices: &BTreeMap<(usize, usize), usize>,
) -> (result: (Vec<usize>, usize))
    requires
        ordered_keys::<(usize, usize)>(),
        edge_indices@ == position_map(topology@),
        reduced@.len() == edges@.len(),
        forall|j: int|
            0 <= j < reduced@.len() && (#[trigger] reduced@[j])@.len() > 0 ==> reduced@[j]@.last().0 < vertex_count,
        forall|j: int| 0 <= j < edges@.len() ==> edge_indices@.contains_key((#[trigger] edges@[j]).vertices),
    ensures
        result.0@ == killing_positions(edges@, column_views(reduced@), edge_indices@, edges@.len() as int),
        result.1 == unkilled_count(column_views(reduced@), vertex_count as int),
        forall|i: int| 0 <= i < result.0@.len() ==> #[trigger] result.0@[i] < topology@.len(),
{
    let ghost views = column_views(reduced@);
    assert(topology@.len() == topology.len());
    let mut killed_vertices: Vec<bool> = Vec::new();
    while killed_vertices.len() < vertex_count
        invariant
            killed_vertices@.len() <= vertex_count,
            forall|x: int| 0 <= x < killed_vertices@.len() ==> !(#[trigger] killed_vertices@[x]),
        decreases vertex_count - killed_vertices@.len(),
    {
        killed_vertices.push(false);
    }
    let mut deaths: Vec<usize> = Vec::new();
    let mut column: usize = 0;
    while column < reduced.len()
        invariant
            ordered_keys::<(usize, usize)>(),
            edge_indices@ == position_map(topology@),
            topology@.len() <= usize::MAX,
            views == column_views(reduced@),
            reduced@.len() == edges@.len(),
            forall|j: int|
                0 <= j < reduced@.len() && (#[trigger] reduced@[j])@.len() > 0 ==> reduced@[j]@.last().0 < vertex_count,
            forall|j: int| 0 <= j < edges@.len() ==> edge_indices@.contains_key((#[trigger] edges@[j]).vertices),
            column <= reduced@.len(),
            killed_vertices@.len() == vertex_count,
            forall|x: int|
                0 <= x < vertex_count ==> (#[trigger] killed_vertices@[x] <==> killed(views.take(column as int), x as usize)),
            deaths@ == killing_positions(edges@, views, edge_indices@, column as int),
            forall|i: int| 0 <= i < deaths@.len() ==> #[trigger] deaths@[i] < topology@.len(),
        decreases reduced@.len() - column,
    {
        let ghost prefix = views.take(column as int);
        let ghost next = views.take(column + 1);
        proof {
            assert(next =~= prefix.push(views[column as int]));
            assert(views[column as int] == reduced@[column as int]@);
        }
        match reduced[column].pivot() {
            Some((pivot, _)) => {
                proof {
                    assert(reduced@[column as int]@.len() > 0);
                    lemma_position_bound(topology@, edges@[column as int].vertices);
                }
                killed_vertices.set(pivot, true);
                let position = position_of(edge_indices, edges[column].vertices);
                deaths.push(position);
            },
            None => {},
        }
        proof {
            assert forall|x: int| 0 <= x < vertex_count implies (#[trigger] killed_vertices@[x] <==> killed(
                next,
                x as usize,
            )) by {
                if killed(prefix, x as usize) {
                    let j = choose|j: int| 0 <= j < prefix.len() && #[trigger] pivot_row(prefix[j]) == Some(x as usize);
                    assert(next[j] == prefix[j]);
                }
                if killed(next, x as usize) {
                    let j = choose|j: int| 0 <= j < next.len() && #[trigger] pivot_row(next[j]) == Some(x as usize);
                    if j < column {
                        assert(prefix[j] == next[j]);
                    }
                }
                if pivot_row(next[column as int]) == Some(x as usize) {
                    assert(killed(next, x as usize));
                }
            }
        }
        column += 1;
    }
    proof {
        assert(views.take(reduced@.len() as int) =~= views);
    }
    let mut count: usize = 0;
    let mut vertex: usize = 0;
    while vertex < vertex_count
        invariant
            views == column_views(reduced@),
            killed_vertices@.len() == vertex_count,
            forall|x: int| 0 <= x < vertex_count ==> (#[trigger] killed_vertices@[x] <==> killed(views, x as usize)),
            vertex <= vertex_count,
            count <= vertex,
            count == unkilled_count(views, vertex as int),
        decreases vertex_count - vertex,
    {
        proof {
            assert(killed_vertices@[vertex as int] <==> killed(views, vertex));
        }
        if !killed_vertices[vertex] {
            count += 1;
        }
        vertex += 1;
    }
    (deaths, count)
}

/// The H1 pairs of the reduction and the listed positions each reads.
fn region_pairs(
    edges: &[FilteredEdge],
    reduced_edges: &[SparseColumn],
    triangles: &[FilteredTriangle],
    reduced_triangles: &[SparseColumn],
    topology: &Vec<(usize, usize)>,
    edge_indices: &BTreeMap<(usize, usize), usize>,
) -> (result: (Vec<RegionH1Pair>, Vec<(usize, Option<(usize, usize, usize)>)>))
    requires
        ordered_keys::<(usize, usize)>(),
        edge_indices@ == position_map(topology@),
        reduced_edges@.len() == edges@.len(),
        reduced_triangles@.len() == triangles@.len(),
        distinct_pivot_rows(column_views(reduced_triangles@)),
        forall|j: int| 0 <= j < edges@.len() ==> edge_indices@.contains_key((#[trigger] edges@[j]).vertices),
        forall|t: int|
            0 <= t < triangles@.len() ==> {
                let (u, v, w) = (#[trigger] triangles@[t]).vertices;
                &&& edge_indices@.contains_key((u, v))
                &&& edge_indices@.contains_key((u, w))
                &&& edge_indices@.contains_key((v, w))
            },
    ensures
        result.0@ == region_h1_pairs(
            edges@,
            column_views(reduced_edges@),
            triangles@,
            column_views(reduced_triangles@),
            edges@.len() as int,
        ),
        pair_tables(topology@, result.0@, result.1@),
{
    let ghost rev = column_views(reduced_edges@);
    let ghost rtv = column_views(reduced_triangles@);
    let deaths = h1_death_simplices(reduced_triangles);
    assert(topology@.len() == topology.len());
    let mut pairs: Vec<RegionH1Pair> = Vec::new();
    let mut formulas: Vec<(usize, Option<(usize, usize, usize)>)> = Vec::new();
    let mut edge: usize = 0;
    while edge < reduced_edges.len()
        invariant
            ordered_keys::<(usize, usize)>(),
            edge_indices@ == position_map(topology@),
            topology@.len() <= usize::MAX,
            distinct_pivot_rows(rtv),
            rev == column_views(reduced_edges@),
            rtv == column_views(reduced_triangles@),
            reduced_edges@.len() == edges@.len(),
            reduced_triangles@.len() == triangles@.len(),
            forall|j: int| 0 <= j < edges@.len() ==> edge_indices@.contains_key((#[trigger] edges@[j]).vertices),
            forall|t: int|
                0 <= t < triangles@.len() ==> {
                    let (u, v, w) = (#[trigger] triangles@[t]).vertices;
                    &&& edge_indices@.contains_key((u, v))
                    &&& edge_indices@.contains_key((u, w))
                    &&& edge_indices@.contains_key((v, w))
                },
            forall|row: usize|
                #[trigger] pivot_table(deaths).contains_key(row) <==> exists|t: int|
                    0 <= t < reduced_triangles@.len() && #[trigger] pivot_row(reduced_triangles@[t]@) == Some(row),
            forall|t: int|
                0 <= t < reduced_triangles@.len() && (#[trigger] reduced_triangles@[t])@.len() > 0 ==> pivot_table(
                    deaths,
                )[reduced_triangles@[t]@.last().0] == t,
            edge <= reduced_edges@.len(),
            pairs@ == region_h1_pairs(edges@, rev, triangles@, rtv, edge as int),
            pair_tables(topology@, pairs@, formulas@),
        decreases reduced_edges@.len() - edge,
    {
        proof {
            assert(rev[edge as int] == reduced_edges@[edge as int]@);
        }
        if reduced_edges[edge].entries.len() == 0 {
            let birth = edges[edge].vertices;
            let death = match pivot_table_get(&deaths, edge) {
                Some(triangle) => {
                    proof {
                        let t = choose|t: int|
                            0 <= t < reduced_triangles@.len() && #[trigger] pivot_row(reduced_triangles@[t]@) == Some(edge);
                        assert(pivot_table(deaths)[reduced_triangles@[t]@.last().0] == t);
                        assert(rtv[t] == reduced_triangles@[t]@);
                        assert(exists|s: int| 0 <= s < rtv.len() && #[trigger] pivot_row(rtv[s]) == Some(edge));
                        let s = choose|s: int| 0 <= s < rtv.len() && #[trigger] pivot_row(rtv[s]) == Some(edge);
                        assert(rtv[s] == reduced_triangles@[s]@);
                        if s != t {
                            assert(distinct_pivot_rows(rtv));
                            if s < t {
                                assert(rtv[s].last().0 != rtv[t].last().0);
                            } else {
                                assert(rtv[t].last().0 != rtv[s].last().0);
                            }
                        }
                    }
                    Some(triangles[triangle].vertices)
                },
                None => {
                    proof {
                        if exists|s: int| 0 <= s < rtv.len() && #[trigger] pivot_row(rtv[s]) == Some(edge) {
                            let s = choose|s: int| 0 <= s < rtv.len() && #[trigger] pivot_row(rtv[s]) == Some(edge);
                            assert(rtv[s] == reduced_triangles@[s]@);
                            assert(pivot_row(reduced_triangles@[s]@) == Some(edge));
                            assert(pivot_table(deaths).contains_key(edge));
                        }
                    }
                    None
                },
            };
            proof {
                assert(death == h1_death_triangle(triangles@, rtv, edge));
                lemma_position_bound(topology@, birth);
            }
            let pair = RegionH1Pair { birth, death };
            let birth_position = position_of(edge_indices, birth);
            let death_positions = match death {
                Some((u, v, w)) => {
                    proof {
                        let t = choose|t: int| 0 <= t < rtv.len() && #[trigger] pivot_row(rtv[t]) == Some(edge);
                        assert(triangles@[t].vertices == (u, v, w));
                        lemma_position_bound(topology@, (u, v));
                        lemma_position_bound(topology@, (u, w));
                        lemma_position_bound(topology@, (v, w));
                    }
                    Some(
                        (
                            position_of(edge_indices, (u, v)),
                            position_of(edge_indices, (u, w)),
                            position_of(edge_indices, (v, w)),
                        ),
                    )
                },
                None => None,
            };
            let ghost before_pairs = pairs@;
            let ghost before_formulas = formulas@;
            pairs.push(pair);
            formulas.push((birth_position, death_positions));
            proof {
                assert(formulas@[before_formulas.len() as int] == pair_formula(pair, position_map(topology@)));
                assert forall|i: int| 0 <= i < formulas@.len() implies #[trigger] formulas@[i] == pair_formula(
                    pairs@[i],
                    position_map(topology@),
                ) && pair_within(formulas@[i], topology@.len()) by {
                    if i < before_formulas.len() {
                        assert(formulas@[i] == before_formulas[i]);
                        assert(pairs@[i] == before_pairs[i]);
                    }
                }
            }
        }
        edge += 1;
    }
    (pairs, formulas)
}

/// Every edge of the complex is a listed edge.
proof fn lemma_listed_edges(complex_edges: Seq<FilteredEdge>, input: Seq<WeightedEdge>, threshold: u64, vertex_count: usize)
    requires
        simple_graph(vertex_count, input),
        orders_edges(complex_edges, active_at(input, threshold)),
    ensures
        forall|j: int| 0 <= j < complex_edges.len() ==> endpoints(input).contains(#[trigger] complex_edges[j].vertices),
{
    let active = active_at(input, threshold);
    lemma_active_simple(vertex_count, input, threshold);
    let order = choose|order: Seq<int>|
        #[trigger] is_permutation(order, active.len()) && complex_edges.len() == active.len() && (forall|j: int|
            0 <= j < complex_edges.len() ==> #[trigger] complex_edges[j] == super::complex::filtered_edge(active[order[j]]))
            && (forall|i: int, j: int|
            0 <= i < j < complex_edges.len() ==> super::order::key_lt(
                super::complex::edge_key(active[order[i]], order[i]),
                super::complex::edge_key(active[order[j]], order[j]),
            ));
    assert forall|j: int| 0 <= j < complex_edges.len() implies endpoints(input).contains(
        #[trigger] complex_edges[j].vertices,
    ) by {
        let a = order[j];
        assert(0 <= a < active.len());
        assert(input.contains(active[a]));
        let i = choose|i: int| 0 <= i < input.len() && input[i] == active[a];
        assert(endpoints(input)[i] == complex_edges[j].vertices);
    }
}

/// A filtered edge of the complex has a listed position below the count.
proof fn lemma_edge_position(
    complex_edges: Seq<FilteredEdge>,
    topology: Seq<(usize, usize)>,
    u: usize,
    v: usize,
)
    requires
        has_filtered_edge(complex_edges, u, v),
        forall|j: int| 0 <= j < complex_edges.len() ==> topology.contains(#[trigger] complex_edges[j].vertices),
        topology.len() <= usize::MAX,
    ensures
        position_map(topology).contains_key((u, v)),
        position_map(topology)[(u, v)] < topology.len(),
{
    let j = choose|j: int| 0 <= j < complex_edges.len() && (#[trigger] complex_edges[j]).vertices == (u, v);
    assert(topology.contains(complex_edges[j].vertices));
    lemma_position_domain(topology, (u, v));
    lemma_position_bound(topology, (u, v));
}

/// The simplices of the complex are ones a region can evaluate and rank.
proof fn lemma_guardable(
    complex_edges: Seq<FilteredEdge>,
    complex_triangles: Seq<FilteredTriangle>,
    topology: Seq<(usize, usize)>,
    vertex_count: usize,
)
    requires
        vertex_count <= 0x400_0000_0000,
        plain_edges(vertex_count, complex_edges),
        forall|t: int| 0 <= t < complex_triangles.len() ==> is_filtered_triangle(complex_edges, (#[trigger] complex_triangles[t]).vertices),
        forall|j: int| 0 <= j < complex_edges.len() ==> topology.contains(#[trigger] complex_edges[j].vertices),
        topology.len() <= usize::MAX,
    ensures
        forall|j: int| 0 <= j < complex_edges.len() ==> guardable(#[trigger] edge_views(complex_edges)[j], position_map(topology), topology.len()),
        forall|t: int| 0 <= t < complex_triangles.len() ==> guardable(#[trigger] triangle_views(complex_triangles)[t], position_map(topology), topology.len()),
        forall|j: int| 0 <= j < complex_edges.len() ==> position_map(topology).contains_key((#[trigger] complex_edges[j]).vertices),
        forall|t: int|
            0 <= t < complex_triangles.len() ==> {
                let (u, v, w) = (#[trigger] complex_triangles[t]).vertices;
                &&& position_map(topology).contains_key((u, v))
                &&& position_map(topology).contains_key((u, w))
                &&& position_map(topology).contains_key((v, w))
            },
{
    let positions = position_map(topology);
    assert forall|j: int| 0 <= j < complex_edges.len() implies guardable(#[trigger] edge_views(complex_edges)[j], positions, topology.len())
        && positions.contains_key(complex_edges[j].vertices) by {
        let (u, v) = complex_edges[j].vertices;
        assert(has_filtered_edge(complex_edges, u, v));
        lemma_edge_position(complex_edges, topology, u, v);
        let view = edge_views(complex_edges)[j];
        assert(view == seq![u, v]);
        assert(view[0] == u && view[1] == v);
    }
    assert forall|j: int| 0 <= j < complex_edges.len() implies positions.contains_key((#[trigger] complex_edges[j]).vertices) by {
        assert(guardable(edge_views(complex_edges)[j], positions, topology.len()));
    }
    assert forall|t: int| 0 <= t < complex_triangles.len() implies guardable(#[trigger] triangle_views(complex_triangles)[t], positions, topology.len())
        && {
            let (u, v, w) = complex_triangles[t].vertices;
            &&& positions.contains_key((u, v))
            &&& positions.contains_key((u, w))
            &&& positions.contains_key((v, w))
        } by {
        let (u, v, w) = complex_triangles[t].vertices;
        assert(is_filtered_triangle(complex_edges, (u, v, w)));
        lemma_edge_position(complex_edges, topology, u, v);
        lemma_edge_position(complex_edges, topology, u, w);
        lemma_edge_position(complex_edges, topology, v, w);
        let j = choose|j: int| 0 <= j < complex_edges.len() && (#[trigger] complex_edges[j]).vertices == (v, w);
        assert(complex_edges[j].vertices.1 < vertex_count);
        let view = triangle_views(complex_triangles)[t];
        assert(view == seq![u, v, w]);
        assert(view[0] == u && view[1] == v && view[2] == w);
    }
    assert forall|t: int| 0 <= t < complex_triangles.len() implies {
        let (u, v, w) = (#[trigger] complex_triangles[t]).vertices;
        &&& positions.contains_key((u, v))
        &&& positions.contains_key((u, w))
        &&& positions.contains_key((v, w))
    } by {
        assert(guardable(triangle_views(complex_triangles)[t], positions, topology.len()));
    }
}

/// Edge boundary rows are vertices.
proof fn lemma_edge_rows(edges: Seq<FilteredEdge>, vertex_count: usize, p: nat)
    requires
        plain_edges(vertex_count, edges),
    ensures
        forall|i: int, k: int|
            0 <= i < edge_boundary_views(edges, p).len() && 0 <= k < edge_boundary_views(edges, p)[i].len() ==> (
            #[trigger] edge_boundary_views(edges, p)[i][k]).0 < vertex_count,
{
    assert forall|i: int, k: int|
        0 <= i < edge_boundary_views(edges, p).len() && 0 <= k < edge_boundary_views(edges, p)[i].len() implies (
        #[trigger] edge_boundary_views(edges, p)[i][k]).0 < vertex_count by {
        assert(edge_boundary_views(edges, p)[i] == super::complex::edge_boundary(edges[i], p));
    }
}

/// Triangle boundary rows are rows of filtered edges.
pub(crate) proof fn lemma_triangle_rows(
    edges: Seq<FilteredEdge>,
    rows: Map<(usize, usize), usize>,
    triangles: Seq<FilteredTriangle>,
    p: nat,
)
    requires
        rows_of(edges, rows),
        forall|t: int| 0 <= t < triangles.len() ==> is_filtered_triangle(edges, (#[trigger] triangles[t]).vertices),
    ensures
        forall|i: int, k: int|
            0 <= i < triangle_boundary_views(rows, triangles, p).len() && 0 <= k < triangle_boundary_views(
                rows,
                triangles,
                p,
            )[i].len() ==> (#[trigger] triangle_boundary_views(rows, triangles, p)[i][k]).0 < edges.len(),
{
    assert forall|i: int, k: int|
        0 <= i < triangle_boundary_views(rows, triangles, p).len() && 0 <= k < triangle_boundary_views(
            rows,
            triangles,
            p,
        )[i].len() implies (#[trigger] triangle_boundary_views(rows, triangles, p)[i][k]).0 < edges.len() by {
        let (u, v, w) = triangles[i].vertices;
        assert(is_filtered_triangle(edges, (u, v, w)));
        let a = choose|j: int| 0 <= j < edges.len() && (#[trigger] edges[j]).vertices == (u, v);
        let b = choose|j: int| 0 <= j < edges.len() && (#[trigger] edges[j]).vertices == (u, w);
        let c = choose|j: int| 0 <= j < edges.len() && (#[trigger] edges[j]).vertices == (v, w);
        assert(rows[edges[a].vertices] == a);
        assert(rows[edges[b].vertices] == b);
        assert(rows[edges[c].vertices] == c);
        assert(triangle_boundary_views(rows, triangles, p)[i] == super::complex::triangle_boundary(rows, triangles[i], p));
    }
}

/// What a region compiled from a checked reduction records: the listed
/// graph and its threshold membership, every comparison the reduction asks
/// for and their transitive reduction, the killing edges, the number of
/// surviving vertices, and the H1 pairs.
pub open spec fn compiled_from(
    region: RegionView,
    certificate: CertificateView,
    vertex_count: usize,
    edges: Seq<WeightedEdge>,
    complex: FilteredComplex,
    reduced_edges: Seq<Seq<(usize, u64)>>,
    reduced_triangles: Seq<Seq<(usize, u64)>>,
) -> bool {
    let all = region_guards(certificate, complex.edges@, complex.triangles@, reduced_triangles);
    let topology = endpoints(edges);
    &&& region.vertex_count == vertex_count
    &&& region.threshold == certificate.threshold
    &&& region.topology == topology
    &&& region.active == Seq::new(
        edges.len(),
        |i: int| value_at_most(edges[i].2, threshold_bits(certificate.threshold)),
    )
    &&& guard_set_of(all, region.complete_guards)
    &&& forall|k: int| 0 <= k < region.guards.len() ==> kept_guard(all, #[trigger] region.guards[k])
    &&& forall|g: GuardView| kept_guard(all, g) ==> region.guards.contains(g)
    &&& forall|a: int, b: int| 0 <= a < b < region.guards.len() ==> guard_lt(region.guards[a], region.guards[b])
    &&& region.h0_deaths == killing_positions(
        complex.edges@,
        reduced_edges,
        position_map(topology),
        complex.edges@.len() as int,
    )
    &&& region.h0_essential == unkilled_count(reduced_edges, vertex_count as int)
    &&& region.h1_pairs == region_h1_pairs(
        complex.edges@,
        reduced_edges,
        complex.triangles@,
        reduced_triangles,
        complex.edges@.len() as int,
    )
}

impl ReductionCertificate {
    /// Compiles the checked factorization into a result-sensitive region.
    ///
    /// The region stays valid under edge-order changes that do not break a
    /// filtration dependency in `V` or a reduced pivot in `R`.
    pub fn compile_region(&self, vertex_count: usize, edges: &[WeightedEdge], limits: CertificateLimits) -> (result:
        Result<CertifiedReductionRegion, CertificateError>)
        requires
            simple_graph(vertex_count, edges@),
            vertex_count <= 0x400_0000_0000,
        ensures
            result matches Ok(region) ==> {
                &&& certifies(self@, vertex_count, edges@, limits)
                &&& exists|complex: FilteredComplex, reduced_edges: Seq<Seq<(usize, u64)>>, reduced_triangles: Seq<Seq<(usize, u64)>>|
                    #[trigger] reduction_certified(self@, vertex_count, edges@, limits, complex, reduced_edges, reduced_triangles)
                        && compiled_from(region@, self@, vertex_count, edges@, complex, reduced_edges, reduced_triangles)
            },
            !(supported_modulus(self@.modulus as nat) && vertex_count <= limits.max_vertices
                && vertex_count == self@.vertex_count && valid_threshold(self@.threshold)) ==> result is Err,
            supported_modulus(self@.modulus as nat) && vertex_count <= limits.max_vertices && vertex_count
                == self@.vertex_count && valid_threshold(self@.threshold) && self@.graph_digest != sha256(
                graph_message(vertex_count, edges@, threshold_bits(self@.threshold)),
            ) ==> result is Err,
            result is Err ==> verification_refused(self@, vertex_count, edges@, limits),
            result matches Ok(region) ==> super::evaluate::region_violations(region@, vertex_count, edges@).len() == 0,
            result matches Ok(region) ==> super::checked::canonical_form(
                self@.bars,
                super::evaluate::region_bars(region@, super::evaluate::lengths(edges@)),
            ),
    {
        proof {
            self.lemma_view();
        }
        let (complex, checked) = self.verify_parts(vertex_count, edges, limits)?;
        let ghost p = self.modulus as nat;
        let ghost threshold = threshold_bits(self@.threshold);
        let ghost re = column_views(checked.reduced_edges@);
        let ghost rt = column_views(checked.reduced_triangles@);
        let ghost ebv = edge_boundary_views(complex.edges@, p);
        let ghost tbv = triangle_boundary_views(edge_row_table(complex.edge_rows), complex.triangles@, p);
        let topology = listed_endpoints(edges);
        proof {
            super::repair::lemma_ordered_pairs();
            assert(topology@.len() == topology.len());
            assert(supported_modulus(p));
            lemma_listed_edges(complex.edges@, edges@, threshold, vertex_count);
            lemma_guardable(complex.edges@, complex.triangles@, topology@, vertex_count);
            lemma_edge_rows(complex.edges@, vertex_count, p);
            lemma_triangle_rows(complex.edges@, edge_row_table(complex.edge_rows), complex.triangles@, p);
        }
        let (edge_indices, _) = simplex_positions(&topology);
        let edge_list = edge_simplices(&complex.edges);
        let triangle_list = triangle_simplices(&complex.triangles);
        proof {
            assert forall|j: int, t: int|
                0 <= j < self.edge_columns@.len() && 0 <= t < self.edge_columns@[j]@.len() implies (
                #[trigger] self.edge_columns@[j]@[t]).index < edge_list@.len() by {
                assert(self@.edge_columns[j] == self.edge_columns@[j]@);
                assert(self@.edge_columns.len() == ebv.len());
                assert(simplex_views(edge_list@).len() == edge_list@.len());
                assert(super::matrix::valid_change_column(self@.edge_columns[j], j as nat, p));
                assert(self@.edge_columns[j][t].index <= j);
            }
            assert forall|j: int, t: int|
                0 <= j < self.triangle_columns@.len() && 0 <= t < self.triangle_columns@[j]@.len() implies (
                #[trigger] self.triangle_columns@[j]@[t]).index < triangle_list@.len() by {
                assert(self@.triangle_columns[j] == self.triangle_columns@[j]@);
                assert(self@.triangle_columns.len() == tbv.len());
                assert(simplex_views(triangle_list@).len() == triangle_list@.len());
                assert(super::matrix::valid_change_column(self@.triangle_columns[j], j as nat, p));
                assert(self@.triangle_columns[j][t].index <= j);
            }
            assert forall|j: int, t: int|
                0 <= j < checked.reduced_triangles@.len() && 0 <= t < checked.reduced_triangles@[j]@.len() implies (
                #[trigger] checked.reduced_triangles@[j]@[t]).0 < edge_list@.len() by {
                assert(rt[j] == checked.reduced_triangles@[j]@);
                lemma_rows_below(tbv, self@.triangle_columns[j], p, rt[j], complex.edges@.len());
            }
        }
        let mut guards: Vec<ReductionGuard> = Vec::new();
        add_change_guards(&mut guards, self.edge_columns.as_slice(), edge_list.as_slice());
        add_change_guards(&mut guards, self.triangle_columns.as_slice(), triangle_list.as_slice());
        add_pivot_guards(&mut guards, checked.reduced_triangles.as_slice(), edge_list.as_slice());
        let ghost all = guard_views(guards@);
        proof {
            assert(all =~= region_guards(self@, complex.edges@, complex.triangles@, rt));
        }
        let complete_guards = sorted_guard_set(&guards);
        let reduced_guards = minimize_guards(guards);
        proof {
            let names = edge_views(complex.edges@) + triangle_views(complex.triangles@);
            lemma_change_guards_within(self@.edge_columns, edge_views(complex.edges@));
            lemma_change_guards_within(self@.triangle_columns, triangle_views(complex.triangles@));
            lemma_pivot_guards_within(rt, edge_views(complex.edges@));
            assert forall|k: int| 0 <= k < reduced_guards@.len() implies guardable(
                (#[trigger] guard_views(reduced_guards@)[k]).1,
                position_map(topology@),
                topology@.len(),
            ) && guardable(guard_views(reduced_guards@)[k].2, position_map(topology@), topology@.len()) by {
                let g = guard_views(reduced_guards@)[k];
                assert(kept_guard(all, g));
                let i = choose|i: int| 0 <= i < all.len() && (#[trigger] all[i]).1 == g.1 && all[i].2 == g.2;
                assert(guardable(g.1, position_map(topology@), topology@.len()) && guardable(g.2, position_map(topology@), topology@.len())) by {
                    let first = change_guards(self@.edge_columns, edge_views(complex.edges@));
                    let second = change_guards(self@.triangle_columns, triangle_views(complex.triangles@));
                    let third = pivot_guards(rt, edge_views(complex.edges@));
                    if i < first.len() {
                        assert(all[i] == first[i]);
                        assert(guards_within(first, edge_views(complex.edges@)));
                    } else if i < first.len() + second.len() {
                        assert(all[i] == second[i - first.len()]);
                        assert(guards_within(second, triangle_views(complex.triangles@)));
                    } else {
                        assert(all[i] == third[i - first.len() - second.len()]);
                        assert(guards_within(third, edge_views(complex.edges@)));
                    }
                }
            }
        }
        let tables = number_guards(&reduced_guards, &topology, &edge_indices);
        proof {
            assert forall|j: int|
                0 <= j < checked.reduced_edges@.len() && (#[trigger] checked.reduced_edges@[j])@.len() > 0 implies checked.reduced_edges@[j]@.last().0
                    < vertex_count by {
                assert(re[j] == checked.reduced_edges@[j]@);
                lemma_rows_below(ebv, self@.edge_columns[j], p, re[j], vertex_count as nat);
                assert(re[j][re[j].len() - 1] == re[j].last());
            }
            assert(super::matrix::distinct_pivots(tbv, self@.triangle_columns, p));
            lemma_distinct_rows(tbv, self@.triangle_columns, p, rt);
        }
        let h0 = killing_edges(
            complex.edges.as_slice(),
            checked.reduced_edges.as_slice(),
            vertex_count,
            &topology,
            &edge_indices,
        );
        let h1 = region_pairs(
            complex.edges.as_slice(),
            checked.reduced_edges.as_slice(),
            complex.triangles.as_slice(),
            checked.reduced_triangles.as_slice(),
            &topology,
            &edge_indices,
        );
        let bits = match self.threshold {
            Some(bits) => bits,
            None => INFINITY_BITS,
        };
        let active = threshold_membership(edges, bits);
        proof {
            assert forall|i: int, j: int| 0 <= i < j < topology@.len() implies topology@[i] != topology@[j] by {
                assert(topology@[i] == (edges@[i].0, edges@[i].1));
                assert(topology@[j] == (edges@[j].0, edges@[j].1));
            }
            assert(distinct_simplices(topology@));
        }
        let region = CertifiedReductionRegion::assemble(
            vertex_count,
            self.threshold,
            topology,
            active,
            complete_guards,
            reduced_guards,
            tables,
            h0,
            h1,
        );
        proof {
            assert(reduction_certified(self@, vertex_count, edges@, limits, complex, re, rt));
            assert(compiled_from(region@, self@, vertex_count, edges@, complex, re, rt));
            super::fidelity::lemma_compiled_region_holds(region@, self@, vertex_count, edges@, limits, complex, re, rt);
            super::fidelity::lemma_compiled_region_bars(region@, self@, vertex_count, edges@, limits, complex, re, rt);
        }
        Ok(region)
    }
}

} // verus!
