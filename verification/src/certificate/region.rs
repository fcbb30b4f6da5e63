//! Result-sensitive reduction regions: a checked reduction compiled into
//! the filtration comparisons that keep it valid, and its evaluation on
//! reweighted graphs with the same listed edges.

use std::collections::BTreeMap;
use vstd::prelude::*;

use crate::graph::WeightedEdge;

use super::checked::threshold_bits;
use super::complex::{max_bits, spec_edge_rank, spec_triangle_rank, total_key};
use super::guards::{guard_views, GuardView};
use super::model::{FiltrationSimplex, ReductionGuard};
use super::repair::{distinct_simplices, ordered_keys, position_map};
use super::verify::{edge_rank, triangle_rank};

verus! {

broadcast use vstd::std_specs::btree::group_btree_axioms;

/// How a guarded simplex takes its filtration value from the edge lengths
/// of the listed graph.
#[derive(Debug, Clone, Copy, PartialEq, Eq)]
pub enum RegionValueFormula {
    /// A vertex enters at zero.
    Vertex,
    /// An edge enters at the length of listed edge `index`.
    Edge(usize),
    /// A triangle enters at the largest length of three listed edges.
    Triangle(usize, usize, usize),
}

/// The value that a formula reads from the listed edge lengths: the larger
/// pattern of two, which on non-negative values that are not NaN is the
/// larger value.
pub open spec fn formula_value(formula: RegionValueFormula, values: Seq<u64>) -> u64 {
    match formula {
        RegionValueFormula::Vertex => 0,
        RegionValueFormula::Edge(edge) => values[edge as int],
        RegionValueFormula::Triangle(first, second, third) => max_bits(
            max_bits(values[first as int], values[second as int]),
            values[third as int],
        ),
    }
}

/// The formula reads only listed edges below `count`.
pub open spec fn formula_within(formula: RegionValueFormula, count: nat) -> bool {
    match formula {
        RegionValueFormula::Vertex => true,
        RegionValueFormula::Edge(edge) => edge < count,
        RegionValueFormula::Triangle(first, second, third) => first < count && second < count && third < count,
    }
}

/// The value of `formula` over the listed edge lengths `values`.
pub fn evaluate_formula(formula: RegionValueFormula, values: &[u64]) -> (value: u64)
    requires
        formula_within(formula, values@.len()),
    ensures
        value == formula_value(formula, values@),
{
    match formula {
        RegionValueFormula::Vertex => 0,
        RegionValueFormula::Edge(edge) => values[edge],
        RegionValueFormula::Triangle(first, second, third) => {
            let low = if values[first] >= values[second] {
                values[first]
            } else {
                values[second]
            };
            if low >= values[third] {
                low
            } else {
                values[third]
            }
        },
    }
}

/// The formula of a simplex over the listed edges with positions
/// `edge_index`: zero for a vertex, an edge's own length, or the largest
/// length of a triangle's three edges.
pub open spec fn simplex_formula(vertices: Seq<usize>, edge_index: Map<(usize, usize), usize>) -> RegionValueFormula {
    if vertices.len() == 1 {
        RegionValueFormula::Vertex
    } else if vertices.len() == 2 {
        RegionValueFormula::Edge(edge_index[(vertices[0], vertices[1])])
    } else {
        RegionValueFormula::Triangle(
            edge_index[(vertices[0], vertices[1])],
            edge_index[(vertices[0], vertices[2])],
            edge_index[(vertices[1], vertices[2])],
        )
    }
}

/// The simplex is a vertex, an edge, or a triangle whose edges all have
/// positions in `edge_index`.
pub open spec fn formula_defined(vertices: Seq<usize>, edge_index: Map<(usize, usize), usize>) -> bool {
    ||| vertices.len() == 1
    ||| vertices.len() == 2 && edge_index.contains_key((vertices[0], vertices[1]))
    ||| vertices.len() == 3 && edge_index.contains_key((vertices[0], vertices[1])) && edge_index.contains_key(
        (vertices[0], vertices[2]),
    ) && edge_index.contains_key((vertices[1], vertices[2]))
}

/// The value formula of a simplex over the listed edge positions.
pub fn region_value_formula(simplex: &FiltrationSimplex, edge_indices: &BTreeMap<(usize, usize), usize>) -> (formula:
    RegionValueFormula)
    requires
        ordered_keys::<(usize, usize)>(),
        formula_defined(simplex@, edge_indices@),
    ensures
        formula == simplex_formula(simplex@, edge_indices@),
{
    let vertices = simplex.vertices();
    if vertices.len() == 1 {
        RegionValueFormula::Vertex
    } else if vertices.len() == 2 {
        RegionValueFormula::Edge(position_of(edge_indices, (vertices[0], vertices[1])))
    } else {
        RegionValueFormula::Triangle(
            position_of(edge_indices, (vertices[0], vertices[1])),
            position_of(edge_indices, (vertices[0], vertices[2])),
            position_of(edge_indices, (vertices[1], vertices[2])),
        )
    }
}

/// The position of a listed edge that has one.
pub(crate) fn position_of(edge_indices: &BTreeMap<(usize, usize), usize>, edge: (usize, usize)) -> (position: usize)
    requires
        ordered_keys::<(usize, usize)>(),
        edge_indices@.contains_key(edge),
    ensures
        position == edge_indices@[edge],
{
    match edge_indices.get(&edge) {
        Some(position) => *position,
        None => 0,
    }
}

/// Colexicographic rank of a vertex, an edge, or a triangle.
pub open spec fn simplex_rank_spec(vertices: Seq<usize>) -> int {
    if vertices.len() == 1 {
        vertices[0] as int
    } else if vertices.len() == 2 {
        spec_edge_rank(vertices[0], vertices[1])
    } else {
        spec_triangle_rank((vertices[0], vertices[1], vertices[2]))
    }
}

/// Colexicographic rank of a vertex, an edge, or a triangle.
pub fn simplex_rank(simplex: &FiltrationSimplex) -> (rank: u128)
    requires
        1 <= simplex@.len() <= 3,
        forall|i: int| 0 <= i < simplex@.len() ==> simplex@[i] < 0x400_0000_0000,
    ensures
        rank == simplex_rank_spec(simplex@),
{
    let vertices = simplex.vertices();
    if vertices.len() == 1 {
        vertices[0] as u128
    } else if vertices.len() == 2 {
        edge_rank([vertices[0], vertices[1]])
    } else {
        triangle_rank([vertices[0], vertices[1], vertices[2]])
    }
}

/// The creator edge of an H1 class and the triangle that destroys it, if
/// one does, by their vertices.
#[derive(Debug, Clone, Copy)]
pub struct RegionH1Pair {
    /// Edge `(u, v)` whose reduced column is zero.
    pub birth: (usize, usize),
    /// Triangle `(u, v, w)` whose reduced column has the edge as pivot.
    pub death: Option<(usize, usize, usize)>,
}

/// The listed positions from which an H1 pair reads its values: the
/// creator edge, and the three edges of the destroying triangle.
pub open spec fn pair_formula(pair: RegionH1Pair, positions: Map<(usize, usize), usize>) -> (
    usize,
    Option<(usize, usize, usize)>,
) {
    (
        positions[pair.birth],
        match pair.death {
            Some((u, v, w)) => Some((positions[(u, v)], positions[(u, w)], positions[(v, w)])),
            None => None,
        },
    )
}

/// Every position an H1 formula reads lies below `count`.
pub open spec fn pair_within(formula: (usize, Option<(usize, usize, usize)>), count: nat) -> bool {
    &&& formula.0 < count
    &&& match formula.1 {
        Some((first, second, third)) => first < count && second < count && third < count,
        None => true,
    }
}

/// The filtration value of a simplex when the listed edges `topology` have
/// the lengths `values`.
pub open spec fn simplex_value(vertices: Seq<usize>, topology: Seq<(usize, usize)>, values: Seq<u64>) -> u64 {
    formula_value(simplex_formula(vertices, position_map(topology)), values)
}

/// A guard holds at the lengths `values` when its earlier simplex does not
/// follow its later one: its value is smaller under `f64::total_cmp`, or
/// equal with a rank that is not smaller than the later simplex's.
pub open spec fn guard_holds(guard: GuardView, topology: Seq<(usize, usize)>, values: Seq<u64>) -> bool {
    let earlier = total_key(simplex_value(guard.1, topology, values));
    let later = total_key(simplex_value(guard.2, topology, values));
    earlier < later || (earlier == later && simplex_rank_spec(guard.2) <= simplex_rank_spec(guard.1))
}

/// Mathematical content of a certified reduction region.
pub struct RegionView {
    /// Labeled vertex count fixed by the region.
    pub vertex_count: usize,
    /// Bit pattern of the fixed threshold, if any.
    pub threshold: Option<u64>,
    /// Endpoints of the listed edges, in listed order.
    pub topology: Seq<(usize, usize)>,
    /// Whether each listed edge lies within the threshold.
    pub active: Seq<bool>,
    /// Every distinct comparison the reduction asks for, in guard order.
    pub complete_guards: Seq<GuardView>,
    /// The transitive reduction of those comparisons, in guard order.
    pub guards: Seq<GuardView>,
    /// Listed positions of the edges whose reduced column kills a vertex,
    /// in filtration order.
    pub h0_deaths: Seq<usize>,
    /// Number of vertices that no edge kills.
    pub h0_essential: usize,
    /// The H1 creators and destroyers, in filtration order of the creators.
    pub h1_pairs: Seq<RegionH1Pair>,
}

/// Reusable exact H0 and H1 reduction under result-sensitive guards.
///
/// The region fixes the labeled graph and threshold membership. It does not
/// fix the complete weak edge order: reuse is valid while every declared
/// change-of-basis and pivot guard remains true.
pub struct CertifiedReductionRegion {
    pub(crate) vertex_count: usize,
    pub(crate) threshold: Option<u64>,
    pub(crate) topology: Vec<(usize, usize)>,
    pub(crate) active: Vec<bool>,
    pub(crate) complete_guards: Vec<ReductionGuard>,
    pub(crate) guards: Vec<ReductionGuard>,
    pub(crate) guard_indices: Vec<(usize, usize)>,
    pub(crate) guard_ranks: Vec<u128>,
    pub(crate) guard_formulas: Vec<RegionValueFormula>,
    pub(crate) h0_deaths: Vec<usize>,
    pub(crate) h0_essential: usize,
    pub(crate) h1_pairs: Vec<RegionH1Pair>,
    pub(crate) h1_formulas: Vec<(usize, Option<(usize, usize, usize)>)>,
}

/// The guard tables agree with the guards: each guard names two guarded
/// simplices whose formulas and ranks are those of its own simplices, and
/// each formula reads listed edges only.
pub open spec fn guard_tables(
    topology: Seq<(usize, usize)>,
    guards: Seq<GuardView>,
    indices: Seq<(usize, usize)>,
    ranks: Seq<u128>,
    formulas: Seq<RegionValueFormula>,
) -> bool {
    let positions = position_map(topology);
    &&& indices.len() == guards.len()
    &&& ranks.len() == formulas.len()
    &&& forall|k: int|
        0 <= k < indices.len() ==> {
            let (earlier, later) = #[trigger] indices[k];
            &&& earlier < formulas.len()
            &&& later < formulas.len()
            &&& formulas[earlier as int] == simplex_formula(guards[k].1, positions)
            &&& formulas[later as int] == simplex_formula(guards[k].2, positions)
            &&& ranks[earlier as int] == simplex_rank_spec(guards[k].1)
            &&& ranks[later as int] == simplex_rank_spec(guards[k].2)
        }
    &&& forall|n: int| 0 <= n < formulas.len() ==> formula_within(#[trigger] formulas[n], topology.len())
}

/// The H1 formulas read, for each pair, the listed positions of its edges.
pub open spec fn pair_tables(
    topology: Seq<(usize, usize)>,
    h1_pairs: Seq<RegionH1Pair>,
    h1_formulas: Seq<(usize, Option<(usize, usize, usize)>)>,
) -> bool {
    &&& h1_formulas.len() == h1_pairs.len()
    &&& forall|i: int|
        0 <= i < h1_formulas.len() ==> #[trigger] h1_formulas[i] == pair_formula(h1_pairs[i], position_map(topology))
            && pair_within(h1_formulas[i], topology.len())
}

/// The compiled tables agree with the region's guards and pairs.
pub open spec fn region_tables(
    topology: Seq<(usize, usize)>,
    guards: Seq<GuardView>,
    indices: Seq<(usize, usize)>,
    ranks: Seq<u128>,
    formulas: Seq<RegionValueFormula>,
    h1_pairs: Seq<RegionH1Pair>,
    h1_formulas: Seq<(usize, Option<(usize, usize, usize)>)>,
) -> bool {
    &&& guard_tables(topology, guards, indices, ranks, formulas)
    &&& pair_tables(topology, h1_pairs, h1_formulas)
}

impl View for CertifiedReductionRegion {
    type V = RegionView;

    closed spec fn view(&self) -> RegionView {
        RegionView {
            vertex_count: self.vertex_count,
            threshold: self.threshold,
            topology: self.topology@,
            active: self.active@,
            complete_guards: guard_views(self.complete_guards@),
            guards: guard_views(self.guards@),
            h0_deaths: self.h0_deaths@,
            h0_essential: self.h0_essential,
            h1_pairs: self.h1_pairs@,
        }
    }
}

impl CertifiedReductionRegion {
    /// The region's tables are consistent with its guards and pairs.
    #[verifier::type_invariant]
    pub closed spec fn consistent(self) -> bool {
        &&& self.active@.len() == self.topology@.len()
        &&& distinct_simplices(self.topology@)
        &&& forall|i: int| 0 <= i < self.h0_deaths@.len() ==> #[trigger] self.h0_deaths@[i] < self.topology@.len()
        &&& region_tables(
            self.topology@,
            guard_views(self.guards@),
            self.guard_indices@,
            self.guard_ranks@,
            self.guard_formulas@,
            self.h1_pairs@,
            self.h1_formulas@,
        )
    }

    /// The view reads the fields.
    pub(crate) proof fn lemma_view(&self)
        ensures
            self@.vertex_count == self.vertex_count,
            self@.threshold == self.threshold,
            self@.topology == self.topology@,
            self@.active == self.active@,
            self@.complete_guards == guard_views(self.complete_guards@),
            self@.guards == guard_views(self.guards@),
            self@.h0_deaths == self.h0_deaths@,
            self@.h0_essential == self.h0_essential,
            self@.h1_pairs == self.h1_pairs@,
    {
    }

    /// What the invariant says of the fields.
    pub(crate) proof fn lemma_consistent(&self)
        requires
            self.consistent(),
        ensures
            self.active@.len() == self.topology@.len(),
            distinct_simplices(self.topology@),
            forall|i: int| 0 <= i < self.h0_deaths@.len() ==> #[trigger] self.h0_deaths@[i] < self.topology@.len(),
            region_tables(
                self.topology@,
                guard_views(self.guards@),
                self.guard_indices@,
                self.guard_ranks@,
                self.guard_formulas@,
                self.h1_pairs@,
                self.h1_formulas@,
            ),
    {
    }

    /// The region with the given parts, whose tables agree with its guards
    /// and pairs.
    pub(crate) fn assemble(
        vertex_count: usize,
        threshold: Option<u64>,
        topology: Vec<(usize, usize)>,
        active: Vec<bool>,
        complete_guards: Vec<ReductionGuard>,
        guards: Vec<ReductionGuard>,
        tables: (Vec<(usize, usize)>, Vec<u128>, Vec<RegionValueFormula>),
        h0: (Vec<usize>, usize),
        h1: (Vec<RegionH1Pair>, Vec<(usize, Option<(usize, usize, usize)>)>),
    ) -> (region: Self)
        requires
            active@.len() == topology@.len(),
            distinct_simplices(topology@),
            forall|i: int| 0 <= i < h0.0@.len() ==> #[trigger] h0.0@[i] < topology@.len(),
            guard_tables(topology@, guard_views(guards@), tables.0@, tables.1@, tables.2@),
            pair_tables(topology@, h1.0@, h1.1@),
        ensures
            region@ == (RegionView {
                vertex_count,
                threshold,
                topology: topology@,
                active: active@,
                complete_guards: guard_views(complete_guards@),
                guards: guard_views(guards@),
                h0_deaths: h0.0@,
                h0_essential: h0.1,
                h1_pairs: h1.0@,
            }),
    {
        let (guard_indices, guard_ranks, guard_formulas) = tables;
        let (h0_deaths, h0_essential) = h0;
        let (h1_pairs, h1_formulas) = h1;
        CertifiedReductionRegion {
            vertex_count,
            threshold,
            topology,
            active,
            complete_guards,
            guards,
            guard_indices,
            guard_ranks,
            guard_formulas,
            h0_deaths,
            h0_essential,
            h1_pairs,
            h1_formulas,
        }
    }

    /// Labeled vertex count fixed by the region.
    pub fn vertex_count(&self) -> (count: usize)
        ensures
            count == self@.vertex_count,
    {
        self.vertex_count
    }

    /// Bit pattern of the fixed filtration threshold.
    pub fn threshold(&self) -> (threshold: Option<u64>)
        ensures
            threshold == self@.threshold,
    {
        self.threshold
    }

    /// All distinct comparisons derived before transitive removal.
    pub fn complete_guards(&self) -> (guards: &[ReductionGuard])
        ensures
            guard_views(guards@) == self@.complete_guards,
    {
        self.complete_guards.as_slice()
    }

    /// Transitively reduced comparisons checked during evaluation.
    pub fn guards(&self) -> (guards: &[ReductionGuard])
        ensures
            guard_views(guards@) == self@.guards,
    {
        self.guards.as_slice()
    }
}

} // verus!
