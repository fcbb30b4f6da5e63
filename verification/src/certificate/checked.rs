//! The persistence diagram that a checked reduction determines.
//!
//! An edge whose reduced column has a pivot kills the component of that
//! vertex: a finite H0 interval when the edge length is positive. Every
//! vertex that no edge kills is an essential H0 class. An edge whose
//! reduced column is zero creates an H1 class, killed by the triangle
//! whose reduced column has that edge as pivot, or essential.

use vstd::prelude::*;

use crate::diagram::{canonicalize, bar_before, Bar, Diagram, INFINITY_BITS};
use crate::digest::sha256;
use crate::field::supported_modulus;
use crate::graph::{active_at, WeightedEdge};
use crate::text::{literal, with_numbers};

use super::algebra::{change_views, column_views, combination, reduced_entry, term_pairs};
use super::complex::{
    simple_graph, more_triangles_than,
    edge_boundary, edge_boundary_views, edge_row_table, plain_edges, rows_of, triangle_boundary_views,
    true_triangles, FilteredComplex, FilteredEdge, FilteredTriangle,
};
use super::matrix::{check_matrix, has_pivot, valid_reduction, distinct_pivots};
use super::model::{CertificateError, CertificateLimits, CertificateView, ChangeColumn, ReductionCertificate};
use super::verify::{checked_threshold, diagram_bits_equal, graph_digest, graph_message, valid_threshold, validate_header};
use super::order::is_permutation;
use super::pivots::{new_pivot_table, pivot_table, pivot_table_get, pivot_table_insert, PivotTable};
use super::sparse::{lemma_lookup_absent, lemma_lookup_at, lemma_pivot_is_last_nonzero, lookup, wf_column, SparseColumn};

verus! {

/// Row of the last nonzero entry of a reduced column, if any.
pub open spec fn pivot_row(column: Seq<(usize, u64)>) -> Option<usize> {
    if column.len() == 0 {
        None
    } else {
        Some(column.last().0)
    }
}

/// Some reduced edge column has its pivot at vertex `x`.
pub open spec fn killed(reduced: Seq<Seq<(usize, u64)>>, x: usize) -> bool {
    exists|j: int| 0 <= j < reduced.len() && #[trigger] pivot_row(reduced[j]) == Some(x)
}

/// Finite H0 intervals of the first `count` edges: `[0, length)` for each
/// edge whose reduced column has a pivot and whose length is positive.
pub open spec fn h0_finite_bars(edges: Seq<FilteredEdge>, reduced: Seq<Seq<(usize, u64)>>, count: int) -> Seq<Bar>
    decreases count,
{
    if count <= 0 {
        Seq::empty()
    } else {
        let rest = h0_finite_bars(edges, reduced, count - 1);
        let edge = edges[count - 1];
        if reduced[count - 1].len() > 0 && edge.value > 0 {
            rest.push(Bar { dim: 0, birth: 0, death: edge.value })
        } else {
            rest
        }
    }
}

/// Essential H0 intervals of the first `count` vertices: `[0, inf)` for
/// each vertex that no edge kills.
pub open spec fn h0_essential_bars(reduced: Seq<Seq<(usize, u64)>>, count: int) -> Seq<Bar>
    decreases count,
{
    if count <= 0 {
        Seq::empty()
    } else {
        let rest = h0_essential_bars(reduced, count - 1);
        if !killed(reduced, (count - 1) as usize) {
            rest.push(Bar { dim: 0, birth: 0, death: INFINITY_BITS })
        } else {
            rest
        }
    }
}

/// The value at which the H1 class born at edge `edge` dies: that of the
/// triangle whose reduced column has the edge as pivot, or infinity.
pub open spec fn h1_death(triangles: Seq<FilteredTriangle>, reduced: Seq<Seq<(usize, u64)>>, edge: usize) -> u64 {
    if exists|t: int| 0 <= t < reduced.len() && #[trigger] pivot_row(reduced[t]) == Some(edge) {
        triangles[choose|t: int| 0 <= t < reduced.len() && #[trigger] pivot_row(reduced[t]) == Some(edge)].value
    } else {
        INFINITY_BITS
    }
}

/// H1 intervals of the first `count` edges: for each edge whose reduced
/// column is zero, `[length, death)` when the death lies above the length.
pub open spec fn h1_bars(
    edges: Seq<FilteredEdge>,
    reduced_edges: Seq<Seq<(usize, u64)>>,
    triangles: Seq<FilteredTriangle>,
    reduced_triangles: Seq<Seq<(usize, u64)>>,
    count: int,
) -> Seq<Bar>
    decreases count,
{
    if count <= 0 {
        Seq::empty()
    } else {
        let rest = h1_bars(edges, reduced_edges, triangles, reduced_triangles, count - 1);
        let birth = edges[count - 1].value;
        let death = h1_death(triangles, reduced_triangles, (count - 1) as usize);
        if reduced_edges[count - 1].len() == 0 && death > birth {
            rest.push(Bar { dim: 1, birth, death })
        } else {
            rest
        }
    }
}

/// Every interval the reduction determines, before canonical ordering:
/// finite H0, essential H0, then H1.
pub open spec fn raw_bars(
    vertex_count: usize,
    edges: Seq<FilteredEdge>,
    reduced_edges: Seq<Seq<(usize, u64)>>,
    triangles: Seq<FilteredTriangle>,
    reduced_triangles: Seq<Seq<(usize, u64)>>,
) -> Seq<Bar> {
    h0_finite_bars(edges, reduced_edges, edges.len() as int) + h0_essential_bars(reduced_edges, vertex_count as int)
        + h1_bars(edges, reduced_edges, triangles, reduced_triangles, edges.len() as int)
}

/// `diagram` holds the intervals of `bars` in canonical order.
pub open spec fn canonical_form(diagram: Seq<Bar>, bars: Seq<Bar>) -> bool {
    &&& exists|order: Seq<int>|
        #[trigger] is_permutation(order, bars.len()) && diagram.len() == bars.len() && forall|j: int|
            0 <= j < diagram.len() ==> #[trigger] diagram[j] == bars[order[j]]
    &&& forall|i: int, j: int| 0 <= i < j < diagram.len() ==> bar_before(diagram[i], diagram[j])
}

/// No two reduced columns end at the same row.
pub open spec fn distinct_pivot_rows(reduced: Seq<Seq<(usize, u64)>>) -> bool {
    forall|a: int, b: int|
        0 <= a < b < reduced.len() && reduced[a].len() > 0 && reduced[b].len() > 0 ==> reduced[a].last().0
            != reduced[b].last().0
}

/// The diagram's H0 intervals from the reduced edge columns: finite ones
/// in edge order, then essential ones in vertex order.
pub fn checked_h0_diagram(complex: &FilteredComplex, reduced: &[SparseColumn]) -> (diagram: Diagram)
    requires
        reduced@.len() == complex.edges@.len(),
        forall|j: int|
            0 <= j < reduced@.len() && (#[trigger] reduced@[j])@.len() > 0 ==> reduced@[j]@.last().0
                < complex.vertex_count,
    ensures
        diagram@ == h0_finite_bars(complex.edges@, column_views(reduced@), complex.edges@.len() as int)
            + h0_essential_bars(column_views(reduced@), complex.vertex_count as int),
{
    let ghost views = column_views(reduced@);
    let mut diagram = Diagram { bars: Vec::new() };
    let mut killed_vertices: Vec<bool> = Vec::new();
    while killed_vertices.len() < complex.vertex_count
        invariant
            killed_vertices@.len() <= complex.vertex_count,
            forall|x: int| 0 <= x < killed_vertices@.len() ==> !(#[trigger] killed_vertices@[x]),
        decreases complex.vertex_count - killed_vertices@.len(),
    {
        killed_vertices.push(false);
    }
    let mut column: usize = 0;
    while column < reduced.len()
        invariant
            views == column_views(reduced@),
            reduced@.len() == complex.edges@.len(),
            forall|j: int|
                0 <= j < reduced@.len() && (#[trigger] reduced@[j])@.len() > 0 ==> reduced@[j]@.last().0
                    < complex.vertex_count,
            column <= reduced@.len(),
            killed_vertices@.len() == complex.vertex_count,
            forall|x: int|
                0 <= x < complex.vertex_count ==> (#[trigger] killed_vertices@[x] <==> killed(
                    views.take(column as int),
                    x as usize,
                )),
            diagram@ == h0_finite_bars(complex.edges@, views, column as int),
        decreases reduced@.len() - column,
    {
        let ghost prefix = views.take(column as int);
        let ghost next = views.take(column + 1);
        proof {
            assert(next =~= prefix.push(views[column as int]));
            assert(views[column as int] == reduced@[column as int]@);
        }
        match reduced[column].pivot() {
            Some((pivot, _)) => {
                proof {
                    assert(reduced@[column as int]@.len() > 0);
                }
                killed_vertices.set(pivot, true);
                let death = complex.edges[column].value;
                if death > 0 {
                    diagram.bars.push(Bar { dim: 0, birth: 0, death });
                }
            },
            None => {},
        }
        proof {
            assert forall|x: int| 0 <= x < complex.vertex_count implies (#[trigger] killed_vertices@[x] <==> killed(
                next,
                x as usize,
            )) by {
                if killed(prefix, x as usize) {
                    let j = choose|j: int| 0 <= j < prefix.len() && #[trigger] pivot_row(prefix[j]) == Some(x as usize);
                    assert(next[j] == prefix[j]);
                }
                if killed(next, x as usize) {
                    let j = choose|j: int| 0 <= j < next.len() && #[trigger] pivot_row(next[j]) == Some(x as usize);
                    if j < column {
                        assert(prefix[j] == next[j]);
                    }
                }
                if pivot_row(next[column as int]) == Some(x as usize) {
                    assert(killed(next, x as usize));
                }
            }
        }
        column += 1;
    }
    proof {
        assert(views.take(reduced@.len() as int) =~= views);
    }
    let ghost finite = diagram@;
    let mut vertex: usize = 0;
    while vertex < complex.vertex_count
        invariant
            views == column_views(reduced@),
            killed_vertices@.len() == complex.vertex_count,
            forall|x: int|
                0 <= x < complex.vertex_count ==> (#[trigger] killed_vertices@[x] <==> killed(views, x as usize)),
            vertex <= complex.vertex_count,
            diagram@ == finite + h0_essential_bars(views, vertex as int),
        decreases complex.vertex_count - vertex,
    {
        if !killed_vertices[vertex] {
            diagram.bars.push(Bar { dim: 0, birth: 0, death: INFINITY_BITS });
        }
        proof {
            assert(killed_vertices@[vertex as int] <==> killed(views, vertex));
        }
        vertex += 1;
    }
    diagram
}

/// The table from each pivot row of a reduced triangle column to that
/// column.
pub fn h1_death_simplices(reduced: &[SparseColumn]) -> (deaths: PivotTable)
    requires
        distinct_pivot_rows(column_views(reduced@)),
    ensures
        forall|row: usize|
            #[trigger] pivot_table(deaths).contains_key(row) <==> exists|t: int|
                0 <= t < reduced@.len() && #[trigger] pivot_row(reduced@[t]@) == Some(row),
        forall|t: int|
            0 <= t < reduced@.len() && (#[trigger] reduced@[t])@.len() > 0 ==> pivot_table(deaths)[reduced@[t]@.last().0]
                == t,
{
    let ghost views = column_views(reduced@);
    let mut deaths = new_pivot_table();
    let mut column: usize = 0;
    while column < reduced.len()
        invariant
            views == column_views(reduced@),
            distinct_pivot_rows(views),
            column <= reduced@.len(),
            forall|row: usize|
                #[trigger] pivot_table(deaths).contains_key(row) <==> exists|t: int|
                    0 <= t < column && #[trigger] pivot_row(reduced@[t]@) == Some(row),
            forall|t: int|
                0 <= t < column && (#[trigger] reduced@[t])@.len() > 0 ==> pivot_table(deaths)[reduced@[t]@.last().0]
                    == t,
        decreases reduced@.len() - column,
    {
        match reduced[column].pivot() {
            Some((pivot, _)) => {
                pivot_table_insert(&mut deaths, pivot, column);
                proof {
                    assert forall|t: int| 0 <= t < column + 1 && (#[trigger] reduced@[t])@.len() > 0 implies pivot_table(
                        deaths,
                    )[reduced@[t]@.last().0] == t by {
                        if t < column {
                            assert(views[t] == reduced@[t]@);
                            assert(views[column as int] == reduced@[column as int]@);
                        }
                    }
                    assert forall|row: usize| #[trigger] pivot_table(deaths).contains_key(row) <==> exists|t: int|
                        0 <= t < column + 1 && #[trigger] pivot_row(reduced@[t]@) == Some(row) by {
                        if row == pivot {
                            assert(pivot_row(reduced@[column as int]@) == Some(row));
                        }
                    }
                }
            },
            None => {
                proof {
                    assert forall|row: usize| #[trigger] pivot_table(deaths).contains_key(row) <==> exists|t: int|
                        0 <= t < column + 1 && #[trigger] pivot_row(reduced@[t]@) == Some(row) by {
                        if exists|t: int| 0 <= t < column + 1 && #[trigger] pivot_row(reduced@[t]@) == Some(row) {
                            let t = choose|t: int| 0 <= t < column + 1 && #[trigger] pivot_row(reduced@[t]@) == Some(row);
                            assert(t < column);
                        }
                    }
                }
            },
        }
        column += 1;
    }
    deaths
}

/// Appends the H1 intervals: one for each edge whose reduced column is
/// zero, dying at the triangle that has the edge as pivot, if any.
pub fn checked_h1_bars(
    complex: &FilteredComplex,
    reduced_edges: &[SparseColumn],
    reduced_triangles: Ghost<Seq<Seq<(usize, u64)>>>,
    deaths: &PivotTable,
    diagram: &mut Diagram,
)
    requires
        reduced_edges@.len() == complex.edges@.len(),
        reduced_triangles@.len() == complex.triangles@.len(),
        distinct_pivot_rows(reduced_triangles@),
        forall|row: usize|
            #[trigger] pivot_table(*deaths).contains_key(row) <==> exists|t: int|
                0 <= t < reduced_triangles@.len() && #[trigger] pivot_row(reduced_triangles@[t]) == Some(row),
        forall|t: int|
            0 <= t < reduced_triangles@.len() && (#[trigger] reduced_triangles@[t]).len() > 0 ==> pivot_table(
                *deaths,
            )[reduced_triangles@[t].last().0] == t,
    ensures
        final(diagram)@ == old(diagram)@ + h1_bars(
            complex.edges@,
            column_views(reduced_edges@),
            complex.triangles@,
            reduced_triangles@,
            complex.edges@.len() as int,
        ),
{
    let ghost views = column_views(reduced_edges@);
    let ghost start = diagram@;
    let mut edge: usize = 0;
    while edge < reduced_edges.len()
        invariant
            views == column_views(reduced_edges@),
            reduced_edges@.len() == complex.edges@.len(),
            reduced_triangles@.len() == complex.triangles@.len(),
            distinct_pivot_rows(reduced_triangles@),
            forall|row: usize|
                #[trigger] pivot_table(*deaths).contains_key(row) <==> exists|t: int|
                    0 <= t < reduced_triangles@.len() && #[trigger] pivot_row(reduced_triangles@[t]) == Some(row),
            forall|t: int|
                0 <= t < reduced_triangles@.len() && (#[trigger] reduced_triangles@[t]).len() > 0 ==> pivot_table(
                    *deaths,
                )[reduced_triangles@[t].last().0] == t,
            edge <= reduced_edges@.len(),
            diagram@ == start + h1_bars(complex.edges@, views, complex.triangles@, reduced_triangles@, edge as int),
        decreases reduced_edges@.len() - edge,
    {
        proof {
            assert(views[edge as int] == reduced_edges@[edge as int]@);
        }
        if reduced_edges[edge].entries.len() == 0 {
            let birth = complex.edges[edge].value;
            let death = match pivot_table_get(deaths, edge) {
                Some(triangle) => {
                    proof {
                        let t = choose|t: int|
                            0 <= t < reduced_triangles@.len() && #[trigger] pivot_row(reduced_triangles@[t]) == Some(edge);
                        assert(pivot_table(*deaths)[reduced_triangles@[t].last().0] == t);
                    }
                    complex.triangles[triangle].value
                },
                None => INFINITY_BITS,
            };
            proof {
                assert(death == h1_death(complex.triangles@, reduced_triangles@, edge));
            }
            if death > birth {
                diagram.bars.push(Bar { dim: 1, birth, death });
            }
        }
        edge += 1;
    }
}

proof fn lemma_combination_zero(
    boundaries: Seq<Seq<(usize, u64)>>,
    transform: Seq<(usize, u64)>,
    n: nat,
    p: nat,
    row: usize,
)
    requires
        p > 0,
        forall|i: int| 0 <= i < n ==> lookup(#[trigger] boundaries[i], row) == 0,
    ensures
        combination(boundaries, transform, n, p, row) == 0,
    decreases n,
{
    if n > 0 {
        lemma_combination_zero(boundaries, transform, (n - 1) as nat, p, row);
        let last = n - 1;
        assert(0 <= last < n);
        assert(lookup(boundaries[last], row) == 0);
        let t = lookup(transform, last as usize);
        assert((0 + t * 0) % p == 0) by (nonlinear_arith)
            requires
                p > 0,
        ;
    }
}

/// A reduced column is canonical and holds the combination its change
/// column forms from `boundaries`.
pub open spec fn reduces_to(
    boundaries: Seq<Seq<(usize, u64)>>,
    terms: Seq<super::model::CertificateTerm>,
    p: nat,
    reduced: Seq<(usize, u64)>,
) -> bool {
    &&& wf_column(reduced, p)
    &&& forall|row: usize| #[trigger] lookup(reduced, row) == reduced_entry(boundaries, terms, p, row)
}

proof fn lemma_has_pivot_at_last(
    boundaries: Seq<Seq<(usize, u64)>>,
    terms: Seq<super::model::CertificateTerm>,
    p: nat,
    reduced: Seq<(usize, u64)>,
)
    requires
        reduces_to(boundaries, terms, p, reduced),
        reduced.len() > 0,
    ensures
        has_pivot(boundaries, terms, p, reduced.last().0),
{
    lemma_pivot_is_last_nonzero(reduced, p);
    assert(lookup(reduced, reduced.last().0) == reduced_entry(boundaries, terms, p, reduced.last().0));
    assert forall|later: usize| later > reduced.last().0 implies #[trigger] reduced_entry(boundaries, terms, p, later) == 0 by {
        assert(lookup(reduced, later) == reduced_entry(boundaries, terms, p, later));
    }
}

/// Every row of a reduced column is a row that some boundary column uses:
/// when all boundary rows lie below `bound`, so do the reduced rows.
pub proof fn lemma_rows_below(
    boundaries: Seq<Seq<(usize, u64)>>,
    terms: Seq<super::model::CertificateTerm>,
    p: nat,
    reduced: Seq<(usize, u64)>,
    bound: nat,
)
    requires
        p > 0,
        reduces_to(boundaries, terms, p, reduced),
        forall|i: int, k: int| 0 <= i < boundaries.len() && 0 <= k < boundaries[i].len() ==> (#[trigger] boundaries[i][k]).0 < bound,
    ensures
        forall|t: int| 0 <= t < reduced.len() ==> (#[trigger] reduced[t]).0 < bound,
{
    assert forall|t: int| 0 <= t < reduced.len() implies (#[trigger] reduced[t]).0 < bound by {
        let row = reduced[t].0;
        if row >= bound {
            assert forall|i: int| 0 <= i < boundaries.len() implies lookup(#[trigger] boundaries[i], row) == 0 by {
                assert forall|k: int| 0 <= k < boundaries[i].len() implies #[trigger] boundaries[i][k].0 != row by {
                    assert(boundaries[i][k].0 < bound);
                }
                lemma_lookup_absent(boundaries[i], row);
            }
            lemma_combination_zero(boundaries, term_pairs(terms), boundaries.len(), p, row);
            lemma_lookup_at(reduced, t);
            assert(lookup(reduced, row) == reduced_entry(boundaries, terms, p, row));
        }
    }
}

/// Reduced columns of a valid reduction end at pairwise different rows.
pub proof fn lemma_distinct_rows(
    boundaries: Seq<Seq<(usize, u64)>>,
    columns: Seq<Seq<super::model::CertificateTerm>>,
    p: nat,
    reduced: Seq<Seq<(usize, u64)>>,
)
    requires
        distinct_pivots(boundaries, columns, p),
        reduced.len() == columns.len(),
        forall|j: int| 0 <= j < reduced.len() ==> reduces_to(boundaries, columns[j], p, #[trigger] reduced[j]),
    ensures
        distinct_pivot_rows(reduced),
{
    assert forall|a: int, b: int|
        0 <= a < b < reduced.len() && reduced[a].len() > 0 && reduced[b].len() > 0 implies reduced[a].last().0
            != reduced[b].last().0 by {
        lemma_has_pivot_at_last(boundaries, columns[a], p, reduced[a]);
        lemma_has_pivot_at_last(boundaries, columns[b], p, reduced[b]);
    }
}

/// The reductions of both boundary matrices, checked, with the diagram
/// they determine.
pub struct CheckedReductions {
    /// The diagram, in canonical order.
    pub diagram: Diagram,
    /// The reduced edge columns `D V`.
    pub reduced_edges: Vec<SparseColumn>,
    /// The reduced triangle columns `D V`.
    pub reduced_triangles: Vec<SparseColumn>,
}

/// Checks the edge and triangle change columns against the boundary
/// matrices of the complex and derives the diagram of the reduction.
pub fn check_reductions(
    complex: &FilteredComplex,
    modulus: u32,
    edge_columns: &[ChangeColumn],
    triangle_columns: &[ChangeColumn],
    limits: CertificateLimits,
) -> (result: Result<CheckedReductions, CertificateError>)
    requires
        2 <= modulus,
        plain_edges(complex.vertex_count, complex.edges@),
        rows_of(complex.edges@, edge_row_table(complex.edge_rows)),
        true_triangles(complex.edges@, complex.triangles@),
    ensures
        result is Ok <==> valid_reduction(
            edge_boundary_views(complex.edges@, modulus as nat),
            change_views(edge_columns@),
            modulus as nat,
            limits.max_terms as nat,
        ) && valid_reduction(
            triangle_boundary_views(edge_row_table(complex.edge_rows), complex.triangles@, modulus as nat),
            change_views(triangle_columns@),
            modulus as nat,
            limits.max_terms as nat,
        ),
        result matches Ok(checked) ==> {
            &&& checked.reduced_edges@.len() == edge_columns@.len()
            &&& checked.reduced_triangles@.len() == triangle_columns@.len()
            &&& forall|j: int|
                0 <= j < edge_columns@.len() ==> reduces_to(
                    edge_boundary_views(complex.edges@, modulus as nat),
                    edge_columns@[j]@,
                    modulus as nat,
                    #[trigger] checked.reduced_edges@[j]@,
                )
            &&& forall|j: int|
                0 <= j < triangle_columns@.len() ==> reduces_to(
                    triangle_boundary_views(edge_row_table(complex.edge_rows), complex.triangles@, modulus as nat),
                    triangle_columns@[j]@,
                    modulus as nat,
                    #[trigger] checked.reduced_triangles@[j]@,
                )
            &&& canonical_form(
                checked.diagram@,
                raw_bars(
                    complex.vertex_count,
                    complex.edges@,
                    column_views(checked.reduced_edges@),
                    complex.triangles@,
                    column_views(checked.reduced_triangles@),
                ),
            )
        },
{
    let ghost p = modulus as nat;
    let edge_boundaries = complex.edge_boundaries(modulus);
    let triangle_boundaries = complex.triangle_boundaries(modulus);
    let ghost ebv = column_views(edge_boundaries@);
    let ghost tbv = column_views(triangle_boundaries@);
    let reduced_edges = check_matrix("edge", edge_boundaries.as_slice(), edge_columns, modulus, limits)?;
    let reduced_triangles = check_matrix("triangle", triangle_boundaries.as_slice(), triangle_columns, modulus, limits)?;
    proof {
        assert forall|j: int| 0 <= j < edge_columns@.len() implies reduces_to(
            ebv,
            edge_columns@[j]@,
            p,
            #[trigger] reduced_edges@[j]@,
        ) by {
            assert(change_views(edge_columns@)[j] == edge_columns@[j]@);
        }
        assert forall|j: int| 0 <= j < triangle_columns@.len() implies reduces_to(
            tbv,
            triangle_columns@[j]@,
            p,
            #[trigger] reduced_triangles@[j]@,
        ) by {
            assert(change_views(triangle_columns@)[j] == triangle_columns@[j]@);
        }
        assert forall|j: int|
            0 <= j < reduced_edges@.len() && (#[trigger] reduced_edges@[j])@.len() > 0 implies reduced_edges@[j]@.last().0
                < complex.vertex_count by {
            let reduced = reduced_edges@[j]@;
            let r = reduced.last().0;
            lemma_pivot_is_last_nonzero(reduced, p);
            if r >= complex.vertex_count {
                assert forall|i: int| 0 <= i < ebv.len() implies lookup(#[trigger] ebv[i], r) == 0 by {
                    let edge = complex.edges@[i];
                    assert(ebv[i] == edge_boundary(edge, p));
                    assert(plain_edges(complex.vertex_count, complex.edges@));
                    lemma_lookup_absent(ebv[i], r);
                }
                lemma_combination_zero(ebv, term_pairs(edge_columns@[j]@), ebv.len(), p, r);
                assert(change_views(edge_columns@)[j] == edge_columns@[j]@);
            }
        }
        let rtv = column_views(reduced_triangles@);
        assert forall|a: int, b: int|
            0 <= a < b < rtv.len() && rtv[a].len() > 0 && rtv[b].len() > 0 implies rtv[a].last().0 != rtv[b].last().0 by {
            assert(rtv[a] == reduced_triangles@[a]@);
            assert(rtv[b] == reduced_triangles@[b]@);
            lemma_has_pivot_at_last(tbv, triangle_columns@[a]@, p, rtv[a]);
            lemma_has_pivot_at_last(tbv, triangle_columns@[b]@, p, rtv[b]);
            assert(change_views(triangle_columns@)[a] == triangle_columns@[a]@);
            assert(change_views(triangle_columns@)[b] == triangle_columns@[b]@);
            assert(distinct_pivots(tbv, change_views(triangle_columns@), p));
        }
        assert(distinct_pivot_rows(rtv));
    }
    let mut diagram = checked_h0_diagram(complex, reduced_edges.as_slice());
    let deaths = h1_death_simplices(reduced_triangles.as_slice());
    proof {
        let rtv = column_views(reduced_triangles@);
        assert forall|row: usize| #[trigger] pivot_table(deaths).contains_key(row) <==> exists|t: int|
            0 <= t < rtv.len() && #[trigger] pivot_row(rtv[t]) == Some(row) by {
            if pivot_table(deaths).contains_key(row) {
                let t = choose|t: int| 0 <= t < reduced_triangles@.len() && #[trigger] pivot_row(reduced_triangles@[t]@) == Some(row);
                assert(rtv[t] == reduced_triangles@[t]@);
            }
            if exists|t: int| 0 <= t < rtv.len() && #[trigger] pivot_row(rtv[t]) == Some(row) {
                let t = choose|t: int| 0 <= t < rtv.len() && #[trigger] pivot_row(rtv[t]) == Some(row);
                assert(rtv[t] == reduced_triangles@[t]@);
            }
        }
        assert forall|t: int| 0 <= t < rtv.len() && (#[trigger] rtv[t]).len() > 0 implies pivot_table(deaths)[rtv[t].last().0] == t by {
            assert(rtv[t] == reduced_triangles@[t]@);
        }
    }
    checked_h1_bars(complex, reduced_edges.as_slice(), Ghost(column_views(reduced_triangles@)), &deaths, &mut diagram);
    let ghost raw = diagram@;
    canonicalize(&mut diagram);
    proof {
        assert(raw =~= raw_bars(
            complex.vertex_count,
            complex.edges@,
            column_views(reduced_edges@),
            complex.triangles@,
            column_views(reduced_triangles@),
        ));
    }
    Ok(CheckedReductions { diagram, reduced_edges, reduced_triangles })
}

/// The threshold pattern, positive infinity when absent.
pub open spec fn threshold_bits(threshold: Option<u64>) -> u64 {
    match threshold {
        Some(bits) => bits,
        None => INFINITY_BITS,
    }
}

/// `complex` is the filtered complex of the graph below the certificate's
/// threshold, the certificate's change columns reduce its boundary
/// matrices to the columns `reduced_edges` and `reduced_triangles`, and
/// the recorded diagram is the one that reduction determines.
pub open spec fn reduction_certified(
    certificate: CertificateView,
    vertex_count: usize,
    edges: Seq<WeightedEdge>,
    limits: CertificateLimits,
    complex: FilteredComplex,
    reduced_edges: Seq<Seq<(usize, u64)>>,
    reduced_triangles: Seq<Seq<(usize, u64)>>,
) -> bool {
    let p = certificate.modulus as nat;
    let edge_matrix = edge_boundary_views(complex.edges@, p);
    let triangle_matrix = triangle_boundary_views(edge_row_table(complex.edge_rows), complex.triangles@, p);
    &&& complex.filters(vertex_count, edges, threshold_bits(certificate.threshold))
    &&& complex.triangles@.len() <= limits.max_triangles
    &&& valid_reduction(edge_matrix, certificate.edge_columns, p, limits.max_terms as nat)
    &&& valid_reduction(triangle_matrix, certificate.triangle_columns, p, limits.max_terms as nat)
    &&& reduced_edges.len() == certificate.edge_columns.len()
    &&& reduced_triangles.len() == certificate.triangle_columns.len()
    &&& forall|j: int|
        0 <= j < reduced_edges.len() ==> reduces_to(edge_matrix, certificate.edge_columns[j], p, #[trigger] reduced_edges[j])
    &&& forall|j: int|
        0 <= j < reduced_triangles.len() ==> reduces_to(
            triangle_matrix,
            certificate.triangle_columns[j],
            p,
            #[trigger] reduced_triangles[j],
        )
    &&& canonical_form(
        certificate.bars,
        raw_bars(vertex_count, complex.edges@, reduced_edges, complex.triangles@, reduced_triangles),
    )
}

/// The certificate certifies the graph on `vertex_count` vertices with the
/// listed edges: an accepted header, the same vertex count, a valid
/// threshold, the graph binding, and a checked reduction of the filtered
/// complex whose diagram is the recorded one.
pub open spec fn certifies(
    certificate: CertificateView,
    vertex_count: usize,
    edges: Seq<WeightedEdge>,
    limits: CertificateLimits,
) -> bool {
    &&& supported_modulus(certificate.modulus as nat)
    &&& vertex_count <= limits.max_vertices
    &&& vertex_count == certificate.vertex_count
    &&& valid_threshold(certificate.threshold)
    &&& certificate.graph_digest == sha256(
        graph_message(vertex_count, edges, threshold_bits(certificate.threshold)),
    )
    &&& exists|complex: FilteredComplex, reduced_edges: Seq<Seq<(usize, u64)>>, reduced_triangles: Seq<Seq<(usize, u64)>>|
        #[trigger] reduction_certified(
            certificate,
            vertex_count,
            edges,
            limits,
            complex,
            reduced_edges,
            reduced_triangles,
        )
}

/// `diagram` is a canonical diagram of reduced columns that the
/// certificate's change columns give for the boundary matrices of
/// `complex`.
pub open spec fn reductions_diagram(
    certificate: CertificateView,
    complex: FilteredComplex,
    reduced_edges: Seq<Seq<(usize, u64)>>,
    reduced_triangles: Seq<Seq<(usize, u64)>>,
    diagram: Seq<Bar>,
) -> bool {
    let p = certificate.modulus as nat;
    let edge_matrix = edge_boundary_views(complex.edges@, p);
    let triangle_matrix = triangle_boundary_views(edge_row_table(complex.edge_rows), complex.triangles@, p);
    &&& reduced_edges.len() == certificate.edge_columns.len()
    &&& reduced_triangles.len() == certificate.triangle_columns.len()
    &&& forall|j: int|
        0 <= j < reduced_edges.len() ==> reduces_to(edge_matrix, certificate.edge_columns[j], p, #[trigger] reduced_edges[j])
    &&& forall|j: int|
        0 <= j < reduced_triangles.len() ==> reduces_to(
            triangle_matrix,
            certificate.triangle_columns[j],
            p,
            #[trigger] reduced_triangles[j],
        )
    &&& canonical_form(
        diagram,
        raw_bars(complex.vertex_count, complex.edges@, reduced_edges, complex.triangles@, reduced_triangles),
    )
}

/// The certificate's reductions of `complex` are refused: a list of change
/// columns is not a valid reduction of its boundary matrix within the term
/// limit, or the canonical diagram of the reduced columns differs from the
/// recorded one.
pub open spec fn reductions_refused(
    certificate: CertificateView,
    complex: FilteredComplex,
    limits: CertificateLimits,
) -> bool {
    let p = certificate.modulus as nat;
    let edge_matrix = edge_boundary_views(complex.edges@, p);
    let triangle_matrix = triangle_boundary_views(edge_row_table(complex.edge_rows), complex.triangles@, p);
    ||| !valid_reduction(edge_matrix, certificate.edge_columns, p, limits.max_terms as nat)
    ||| !valid_reduction(triangle_matrix, certificate.triangle_columns, p, limits.max_terms as nat)
    ||| exists|reduced_edges: Seq<Seq<(usize, u64)>>, reduced_triangles: Seq<Seq<(usize, u64)>>, diagram: Seq<Bar>|
        #[trigger] reductions_diagram(certificate, complex, reduced_edges, reduced_triangles, diagram)
            && diagram != certificate.bars
}

/// The reasons for which verification refuses the certificate for the
/// graph: a refused header, vertex count or threshold, a graph binding that
/// does not match, a filtered complex over the edge or triangle limit, or
/// refused reductions of the filtered complex.
pub open spec fn verification_refused(
    certificate: CertificateView,
    vertex_count: usize,
    edges: Seq<WeightedEdge>,
    limits: CertificateLimits,
) -> bool {
    let threshold = threshold_bits(certificate.threshold);
    ||| !(supported_modulus(certificate.modulus as nat) && vertex_count <= limits.max_vertices
        && vertex_count == certificate.vertex_count && valid_threshold(certificate.threshold))
    ||| certificate.graph_digest != sha256(graph_message(vertex_count, edges, threshold))
    ||| active_at(edges, threshold).len() > limits.max_edges
    ||| more_triangles_than(edges, threshold, limits.max_triangles)
    ||| exists|complex: FilteredComplex|
        #[trigger] complex.filters(vertex_count, edges, threshold) && reductions_refused(certificate, complex, limits)
}

/// Whether two digests are equal, byte for byte.
pub(crate) fn digests_equal(first: &[u8; 32], second: &[u8; 32]) -> (equal: bool)
    ensures
        equal == (first@ == second@),
{
    let mut index: usize = 0;
    while index < 32
        invariant
            index <= 32,
            first@.len() == 32,
            second@.len() == 32,
            forall|i: int| 0 <= i < index ==> first@[i] == second@[i],
        decreases 32 - index,
    {
        if first[index] != second[index] {
            return false;
        }
        index += 1;
    }
    proof {
        assert(first@ =~= second@);
    }
    true
}

impl ReductionCertificate {
    /// Verifies the certificate against the graph on `vertex_count`
    /// vertices with the listed edges: the header, the vertex count, the
    /// threshold, the graph binding, the reductions of both boundary
    /// matrices, and the recorded diagram are checked in that order. Gives
    /// the filtered complex and the checked reductions.
    pub fn verify_parts(
        &self,
        vertex_count: usize,
        edges: &[WeightedEdge],
        limits: CertificateLimits,
    ) -> (result: Result<(FilteredComplex, CheckedReductions), CertificateError>)
        requires
            simple_graph(vertex_count, edges@),
            vertex_count <= 0x400_0000_0000,
        ensures
            result matches Ok((complex, checked)) ==> {
                &&& checked.diagram@ == self@.bars
                &&& supported_modulus(self@.modulus as nat)
                &&& vertex_count <= limits.max_vertices
                &&& vertex_count == self@.vertex_count
                &&& valid_threshold(self@.threshold)
                &&& self@.graph_digest == sha256(graph_message(vertex_count, edges@, threshold_bits(self@.threshold)))
                &&& reduction_certified(
                    self@,
                    vertex_count,
                    edges@,
                    limits,
                    complex,
                    column_views(checked.reduced_edges@),
                    column_views(checked.reduced_triangles@),
                )
            },
            !(supported_modulus(self@.modulus as nat) && vertex_count <= limits.max_vertices
                && vertex_count == self@.vertex_count && valid_threshold(self@.threshold)) ==> result is Err,
            supported_modulus(self@.modulus as nat) && vertex_count <= limits.max_vertices && vertex_count
                == self@.vertex_count && valid_threshold(self@.threshold) && self@.graph_digest != sha256(
                graph_message(vertex_count, edges@, threshold_bits(self@.threshold)),
            ) ==> result is Err,
            result is Err ==> verification_refused(self@, vertex_count, edges@, limits),
    {
        proof {
            self.lemma_view();
        }
        validate_header(vertex_count, 1, self.modulus, limits)?;
        if vertex_count != self.vertex_count {
            return Err(
                CertificateError::new(
                    with_numbers("input has ", vertex_count, " vertices, certificate records ", self.vertex_count, ""),
                ),
            );
        }
        let threshold = checked_threshold(self.threshold)?;
        let digest = graph_digest(vertex_count, edges, threshold);
        if !digests_equal(&digest, &self.graph_digest) {
            return Err(CertificateError::new(literal("thresholded graph binding does not match")));
        }
        let complex = FilteredComplex::build(vertex_count, edges, threshold, limits)?;
        let checked = match check_reductions(
            &complex,
            self.modulus,
            self.edge_columns.as_slice(),
            self.triangle_columns.as_slice(),
            limits,
        ) {
            Ok(checked) => checked,
            Err(error) => {
                proof {
                    assert(change_views(self.edge_columns@) == self@.edge_columns);
                    assert(complex.filters(vertex_count, edges@, threshold_bits(self@.threshold)));
                    assert(reductions_refused(self@, complex, limits));
                }
                return Err(error);
            },
        };
        if !diagram_bits_equal(&checked.diagram, &self.diagram) {
            proof {
                let re = column_views(checked.reduced_edges@);
                let rt = column_views(checked.reduced_triangles@);
                assert forall|j: int| 0 <= j < re.len() implies reduces_to(
                    edge_boundary_views(complex.edges@, self.modulus as nat),
                    self@.edge_columns[j],
                    self.modulus as nat,
                    #[trigger] re[j],
                ) by {
                    assert(self@.edge_columns[j] == self.edge_columns@[j]@);
                }
                assert forall|j: int| 0 <= j < rt.len() implies reduces_to(
                    triangle_boundary_views(edge_row_table(complex.edge_rows), complex.triangles@, self.modulus as nat),
                    self@.triangle_columns[j],
                    self.modulus as nat,
                    #[trigger] rt[j],
                ) by {
                    assert(self@.triangle_columns[j] == self.triangle_columns@[j]@);
                }
                assert(reductions_diagram(self@, complex, re, rt, checked.diagram@));
                assert(complex.filters(vertex_count, edges@, threshold_bits(self@.threshold)));
                assert(reductions_refused(self@, complex, limits));
            }
            return Err(CertificateError::new(literal("recorded diagram differs from the checked reduction")));
        }
        proof {
            let p = self.modulus as nat;
            assert forall|j: int| 0 <= j < column_views(checked.reduced_edges@).len() implies reduces_to(
                edge_boundary_views(complex.edges@, p),
                self@.edge_columns[j],
                p,
                #[trigger] column_views(checked.reduced_edges@)[j],
            ) by {
                assert(self@.edge_columns[j] == self.edge_columns@[j]@);
            }
            assert forall|j: int| 0 <= j < column_views(checked.reduced_triangles@).len() implies reduces_to(
                triangle_boundary_views(edge_row_table(complex.edge_rows), complex.triangles@, p),
                self@.triangle_columns[j],
                p,
                #[trigger] column_views(checked.reduced_triangles@)[j],
            ) by {
                assert(self@.triangle_columns[j] == self.triangle_columns@[j]@);
            }
        }
        Ok((complex, checked))
    }

    /// Verifies the certificate against the graph on `vertex_count`
    /// vertices with the listed edges and returns its diagram.
    pub fn verify(&self, vertex_count: usize, edges: &[WeightedEdge], limits: CertificateLimits) -> (result:
        Result<Diagram, CertificateError>)
        requires
            simple_graph(vertex_count, edges@),
            vertex_count <= 0x400_0000_0000,
        ensures
            result matches Ok(diagram) ==> diagram@ == self@.bars && certifies(self@, vertex_count, edges@, limits),
            !(supported_modulus(self@.modulus as nat) && vertex_count <= limits.max_vertices
                && vertex_count == self@.vertex_count && valid_threshold(self@.threshold)) ==> result is Err,
            supported_modulus(self@.modulus as nat) && vertex_count <= limits.max_vertices && vertex_count
                == self@.vertex_count && valid_threshold(self@.threshold) && self@.graph_digest != sha256(
                graph_message(vertex_count, edges@, threshold_bits(self@.threshold)),
            ) ==> result is Err,
            result is Err ==> verification_refused(self@, vertex_count, edges@, limits),
    {
        let (complex, checked) = self.verify_parts(vertex_count, edges, limits)?;
        proof {
            assert(reduction_certified(
                self@,
                vertex_count,
                edges@,
                limits,
                complex,
                column_views(checked.reduced_edges@),
                column_views(checked.reduced_triangles@),
            ));
        }
        Ok(checked.diagram)
    }
}

} // verus!
