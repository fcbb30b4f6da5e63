//! Checking and evaluating a certified reduction region on a reweighted
//! graph with the same listed edges.

use vstd::prelude::*;

use vstd::multiset::Multiset;

use crate::classes::{pair_view, CriticalPair, CriticalSimplex};
use crate::diagram::{canonicalize, Bar, Diagram, INFINITY_BITS};
use crate::graph::{at_most, endpoints, value_at_most, WeightedEdge};
use crate::text::literal;

use super::checked::{canonical_form, threshold_bits};
use super::complex::{max_bits, simple_graph, total_key, total_order_key};
use super::guards::{
    lemma_seq_lt_asymmetric, lemma_seq_lt_irreflexive, lemma_seq_lt_total, lemma_seq_lt_transitive, same_vertices,
    seq_lt, vertices_less, GuardView,
};
use super::model::{CertificateError, FiltrationSimplex, RegionViolation, RegionViolationKind};
use super::region::{
    evaluate_formula, guard_holds, CertifiedReductionRegion, RegionH1Pair, RegionValueFormula, RegionView,
};
use super::repair::position_map;

verus! {

/// A violation as plain values: its kind, the failed guard's index, and the
/// vertices of the affected simplices.
pub type ViolationView = (RegionViolationKind, Option<usize>, Option<Seq<usize>>, Option<Seq<usize>>);

/// Vertices of an optional simplex.
pub open spec fn optional_vertices(simplex: Option<FiltrationSimplex>) -> Option<Seq<usize>> {
    match simplex {
        Some(simplex) => Some(simplex@),
        None => None,
    }
}

/// Plain view of one violation.
pub open spec fn violation_view(violation: RegionViolation) -> ViolationView {
    (
        violation.spec_kind(),
        violation.spec_guard_index(),
        optional_vertices(violation.spec_first()),
        optional_vertices(violation.spec_second()),
    )
}

/// Plain views of a list of violations.
pub open spec fn violation_views(violations: Seq<RegionViolation>) -> Seq<ViolationView> {
    violations.map_values(|violation: RegionViolation| violation_view(violation))
}

/// The lengths of the listed edges.
pub open spec fn lengths(edges: Seq<WeightedEdge>) -> Seq<u64> {
    Seq::new(edges.len(), |i: int| edges[i].2)
}

/// The first edge of `expected` that `listed` lacks.
pub open spec fn first_absent(expected: Seq<(usize, usize)>, listed: Seq<(usize, usize)>) -> Option<(usize, usize)>
    decreases expected.len(),
{
    if expected.len() == 0 {
        None
    } else if !listed.contains(expected[0]) {
        Some(expected[0])
    } else {
        first_absent(expected.drop_first(), listed)
    }
}

/// The edge reported when the listed edges changed: the first edge of the
/// region that is no longer listed, else the first newly listed edge.
pub open spec fn changed_edge(expected: Seq<(usize, usize)>, listed: Seq<(usize, usize)>) -> Option<Seq<usize>> {
    match first_absent(expected, listed) {
        Some(edge) => Some(seq![edge.0, edge.1]),
        None => match first_absent(listed, expected) {
            Some(edge) => Some(seq![edge.0, edge.1]),
            None => None,
        },
    }
}

/// Threshold crossings among the first `count` listed edges: each edge
/// whose membership below `threshold` differs from the region's.
pub open spec fn crossings(
    topology: Seq<(usize, usize)>,
    active: Seq<bool>,
    values: Seq<u64>,
    threshold: u64,
    count: int,
) -> Seq<ViolationView>
    decreases count,
{
    if count <= 0 {
        Seq::empty()
    } else {
        let rest = crossings(topology, active, values, threshold, count - 1);
        let edge = topology[count - 1];
        if value_at_most(values[count - 1], threshold) != active[count - 1] {
            rest.push((RegionViolationKind::ThresholdCrossing, None, Some(seq![edge.0, edge.1]), None))
        } else {
            rest
        }
    }
}

/// Failures among the first `count` guards at the lengths `values`.
pub open spec fn guard_failures(
    guards: Seq<GuardView>,
    topology: Seq<(usize, usize)>,
    values: Seq<u64>,
    count: int,
) -> Seq<ViolationView>
    decreases count,
{
    if count <= 0 {
        Seq::empty()
    } else {
        let rest = guard_failures(guards, topology, values, count - 1);
        let guard = guards[count - 1];
        if !guard_holds(guard, topology, values) {
            rest.push(
                (RegionViolationKind::GuardFailed, Some((count - 1) as usize), Some(guard.1), Some(guard.2)),
            )
        } else {
            rest
        }
    }
}

/// Every condition that keeps `region` from being reused on the graph
/// with `vertex_count` vertices and the listed `edges`: a changed vertex
/// count, else a changed edge list, else the threshold crossings, else the
/// failed guards.
pub open spec fn region_violations(region: RegionView, vertex_count: usize, edges: Seq<WeightedEdge>) -> Seq<
    ViolationView,
> {
    let listed = endpoints(edges);
    if vertex_count != region.vertex_count {
        seq![(RegionViolationKind::VertexSetChanged, None, None, None)]
    } else if listed != region.topology {
        seq![(RegionViolationKind::EdgeSetChanged, None, changed_edge(region.topology, listed), None)]
    } else {
        let values = lengths(edges);
        let crossed = crossings(
            region.topology,
            region.active,
            values,
            threshold_bits(region.threshold),
            region.topology.len() as int,
        );
        if crossed.len() > 0 {
            crossed
        } else {
            guard_failures(region.guards, region.topology, values, region.guards.len() as int)
        }
    }
}

/// Simplex on the two endpoints of an edge.
pub fn edge_simplex(edge: (usize, usize)) -> (simplex: FiltrationSimplex)
    ensures
        simplex@ == seq![edge.0, edge.1],
{
    let mut vertices: Vec<usize> = Vec::new();
    vertices.push(edge.0);
    vertices.push(edge.1);
    assert(vertices@ =~= seq![edge.0, edge.1]);
    FiltrationSimplex::new(vertices)
}

/// Whether `list` holds `edge`.
fn lists_edge(list: &[(usize, usize)], edge: (usize, usize)) -> (found: bool)
    ensures
        found == list@.contains(edge),
{
    let mut index: usize = 0;
    while index < list.len()
        invariant
            index <= list@.len(),
            forall|i: int| 0 <= i < index ==> list@[i] != edge,
        decreases list@.len() - index,
    {
        if list[index].0 == edge.0 && list[index].1 == edge.1 {
            return true;
        }
        index += 1;
    }
    false
}

/// The first edge of `expected` that `listed` lacks.
fn first_absent_edge(expected: &[(usize, usize)], listed: &[(usize, usize)]) -> (absent: Option<(usize, usize)>)
    ensures
        absent == first_absent(expected@, listed@),
{
    let mut index: usize = 0;
    proof {
        assert(expected@.subrange(0, expected@.len() as int) =~= expected@);
    }
    while index < expected.len()
        invariant
            index <= expected@.len(),
            first_absent(expected@, listed@) == first_absent(
                expected@.subrange(index as int, expected@.len() as int),
                listed@,
            ),
        decreases expected@.len() - index,
    {
        let ghost rest = expected@.subrange(index as int, expected@.len() as int);
        proof {
            assert(rest[0] == expected@[index as int]);
            assert(rest.drop_first() =~= expected@.subrange(index + 1, expected@.len() as int));
        }
        if !lists_edge(listed, expected[index]) {
            return Some(expected[index]);
        }
        index += 1;
    }
    None
}

/// Endpoints of the listed edges.
pub(crate) fn listed_endpoints(edges: &[WeightedEdge]) -> (listed: Vec<(usize, usize)>)
    ensures
        listed@ == endpoints(edges@),
{
    let mut listed: Vec<(usize, usize)> = Vec::new();
    let mut index: usize = 0;
    while index < edges.len()
        invariant
            index <= edges@.len(),
            listed@ == endpoints(edges@).take(index as int),
        decreases edges@.len() - index,
    {
        listed.push((edges[index].0, edges[index].1));
        index += 1;
        assert(listed@ =~= endpoints(edges@).take(index as int));
    }
    assert(listed@ =~= endpoints(edges@));
    listed
}

/// Lengths of the listed edges.
fn listed_lengths(edges: &[WeightedEdge]) -> (values: Vec<u64>)
    ensures
        values@ == lengths(edges@),
{
    let mut values: Vec<u64> = Vec::new();
    let mut index: usize = 0;
    while index < edges.len()
        invariant
            index <= edges@.len(),
            values@ == lengths(edges@).take(index as int),
        decreases edges@.len() - index,
    {
        values.push(edges[index].2);
        index += 1;
        assert(values@ =~= lengths(edges@).take(index as int));
    }
    assert(values@ =~= lengths(edges@));
    values
}

/// Whether two edge lists are equal, entry by entry.
fn same_edges(first: &[(usize, usize)], second: &[(usize, usize)]) -> (same: bool)
    ensures
        same == (first@ == second@),
{
    if first.len() != second.len() {
        return false;
    }
    let mut index: usize = 0;
    while index < first.len()
        invariant
            first@.len() == second@.len(),
            index <= first@.len(),
            forall|i: int| 0 <= i < index ==> first@[i] == second@[i],
        decreases first@.len() - index,
    {
        if first[index].0 != second[index].0 || first[index].1 != second[index].1 {
            return false;
        }
        index += 1;
    }
    assert(first@ =~= second@);
    true
}

/// The double with pattern `left` is greater than the one with pattern
/// `right`; false when either is NaN.
pub open spec fn value_greater(left: u64, right: u64) -> bool {
    value_at_most(right, left) && !value_at_most(left, right)
}

/// Whether the double with pattern `left` is greater than the one with
/// pattern `right`, compared as IEEE-754 values.
fn greater(left: u64, right: u64) -> (result: bool)
    ensures
        result == value_greater(left, right),
{
    at_most(right, left) && !at_most(left, right)
}

/// Length of the listed edge `edge` among `topology`.
pub open spec fn listed_value(edge: (usize, usize), topology: Seq<(usize, usize)>, values: Seq<u64>) -> u64 {
    values[position_map(topology)[edge] as int]
}

/// Value of the triangle of an H1 pair, or infinity when none destroys it.
pub open spec fn pair_death_value(pair: RegionH1Pair, topology: Seq<(usize, usize)>, values: Seq<u64>) -> u64 {
    match pair.death {
        Some((u, v, w)) => max_bits(
            max_bits(listed_value((u, v), topology, values), listed_value((u, w), topology, values)),
            listed_value((v, w), topology, values),
        ),
        None => INFINITY_BITS,
    }
}

/// An interval with its critical pair, as plain values.
pub type RecordView = (Bar, (Seq<usize>, u64), Option<(Seq<usize>, u64)>);

/// Plain view of one interval with its critical pair.
pub open spec fn record_view(record: (Bar, CriticalPair)) -> RecordView {
    (record.0, pair_view(record.1).0, pair_view(record.1).1)
}

/// Plain views of a list of intervals with their critical pairs.
pub open spec fn record_views(records: Seq<(Bar, CriticalPair)>) -> Seq<RecordView> {
    records.map_values(|record: (Bar, CriticalPair)| record_view(record))
}

/// The H1 intervals of the first `count` pairs whose death lies above
/// their birth, each with its creator and destroyer, in pair order.
pub open spec fn h1_records(
    pairs: Seq<RegionH1Pair>,
    topology: Seq<(usize, usize)>,
    values: Seq<u64>,
    count: int,
) -> Seq<RecordView>
    decreases count,
{
    if count <= 0 {
        Seq::empty()
    } else {
        let rest = h1_records(pairs, topology, values, count - 1);
        let pair = pairs[count - 1];
        let birth = listed_value(pair.birth, topology, values);
        let death = pair_death_value(pair, topology, values);
        if value_greater(death, birth) {
            rest.push(
                (
                    Bar { dim: 1, birth, death },
                    (seq![pair.birth.0, pair.birth.1], birth),
                    match pair.death {
                        Some((u, v, w)) => Some((seq![u, v, w], death)),
                        None => None,
                    },
                ),
            )
        } else {
            rest
        }
    }
}

/// Finite H0 intervals `[0, length)` of the first `count` killing edges
/// whose length is positive.
pub open spec fn h0_region_bars(deaths: Seq<usize>, values: Seq<u64>, count: int) -> Seq<Bar>
    decreases count,
{
    if count <= 0 {
        Seq::empty()
    } else {
        let rest = h0_region_bars(deaths, values, count - 1);
        let death = values[deaths[count - 1] as int];
        if value_greater(death, 0) {
            rest.push(Bar { dim: 0, birth: 0, death })
        } else {
            rest
        }
    }
}

/// `count` essential H0 intervals `[0, infinity)`.
pub open spec fn essential_bars(count: nat) -> Seq<Bar> {
    Seq::new(count, |i: int| Bar { dim: 0, birth: 0, death: INFINITY_BITS })
}

/// Every interval a region determines at the listed lengths `values`,
/// before canonical ordering: finite H0, essential H0, then H1.
pub open spec fn region_bars(region: RegionView, values: Seq<u64>) -> Seq<Bar> {
    h0_region_bars(region.h0_deaths, values, region.h0_deaths.len() as int) + essential_bars(
        region.h0_essential as nat,
    ) + h1_records(region.h1_pairs, region.topology, values, region.h1_pairs.len() as int).map_values(
        |record: RecordView| record.0,
    )
}

/// Optional vertex lists ordered with `None` first.
pub open spec fn option_le(first: Option<(Seq<usize>, u64)>, second: Option<(Seq<usize>, u64)>) -> bool {
    match (first, second) {
        (None, _) => true,
        (Some(_), None) => false,
        (Some(a), Some(b)) => a.0 == b.0 || seq_lt(a.0, b.0),
    }
}

/// Record order: by birth, then death under `f64::total_cmp`, then by the
/// creator's vertices, then by the destroyer's.
pub open spec fn record_le(first: RecordView, second: RecordView) -> bool {
    let (a, b) = (total_key(first.0.birth), total_key(second.0.birth));
    let (c, d) = (total_key(first.0.death), total_key(second.0.death));
    a < b || (a == b && (c < d || (c == d && (seq_lt(first.1.0, second.1.0) || (first.1.0 == second.1.0
        && option_le(first.2, second.2))))))
}

/// The records are in record order.
pub open spec fn records_sorted(records: Seq<RecordView>) -> bool {
    forall|i: int, j: int| 0 <= i < j < records.len() ==> record_le(records[i], records[j])
}

proof fn lemma_record_total(first: RecordView, second: RecordView)
    ensures
        record_le(first, second) || record_le(second, first),
{
    lemma_seq_lt_total(first.1.0, second.1.0);
    match (first.2, second.2) {
        (Some(a), Some(b)) => lemma_seq_lt_total(a.0, b.0),
        _ => {},
    }
}

proof fn lemma_option_le_transitive(
    a: Option<(Seq<usize>, u64)>,
    b: Option<(Seq<usize>, u64)>,
    c: Option<(Seq<usize>, u64)>,
)
    requires
        option_le(a, b),
        option_le(b, c),
    ensures
        option_le(a, c),
{
    match (a, b, c) {
        (Some(x), Some(y), Some(z)) => {
            if seq_lt(x.0, y.0) && seq_lt(y.0, z.0) {
                lemma_seq_lt_transitive(x.0, y.0, z.0);
            }
        },
        _ => {},
    }
}

proof fn lemma_record_transitive(first: RecordView, second: RecordView, third: RecordView)
    requires
        record_le(first, second),
        record_le(second, third),
    ensures
        record_le(first, third),
{
    if seq_lt(first.1.0, second.1.0) && seq_lt(second.1.0, third.1.0) {
        lemma_seq_lt_transitive(first.1.0, second.1.0, third.1.0);
    }
    if first.1.0 == second.1.0 && second.1.0 == third.1.0 && option_le(first.2, second.2) && option_le(
        second.2,
        third.2,
    ) {
        lemma_option_le_transitive(first.2, second.2, third.2);
    }
}

/// Whether `first` precedes or ties with `second` in record order.
fn record_precedes(first: &(Bar, CriticalPair), second: &(Bar, CriticalPair)) -> (le: bool)
    ensures
        le == record_le(record_view(*first), record_view(*second)),
{
    let a = total_order_key(first.0.birth);
    let b = total_order_key(second.0.birth);
    if a != b {
        return a < b;
    }
    let c = total_order_key(first.0.death);
    let d = total_order_key(second.0.death);
    if c != d {
        return c < d;
    }
    let x = first.1.birth.vertices.as_slice();
    let y = second.1.birth.vertices.as_slice();
    if vertices_less(x, y) {
        return true;
    }
    if !same_vertices(x, y) {
        return false;
    }
    match (&first.1.death, &second.1.death) {
        (None, _) => true,
        (Some(_), None) => false,
        (Some(p), Some(q)) => {
            same_vertices(p.vertices.as_slice(), q.vertices.as_slice()) || vertices_less(
                p.vertices.as_slice(),
                q.vertices.as_slice(),
            )
        },
    }
}

/// Inserts `record` after every record that precedes or ties with it.
fn insert_record(records: &mut Vec<(Bar, CriticalPair)>, record: (Bar, CriticalPair))
    requires
        records_sorted(record_views(old(records)@)),
    ensures
        records_sorted(record_views(final(records)@)),
        record_views(final(records)@).to_multiset() == record_views(old(records)@).to_multiset().insert(
            record_view(record),
        ),
{
    let ghost before = record_views(records@);
    let ghost x = record_view(record);
    let mut position: usize = 0;
    while position < records.len() && record_precedes(&records[position], &record)
        invariant
            position <= records@.len(),
            records@ == old(records)@,
            before == record_views(records@),
            x == record_view(record),
            forall|k: int| 0 <= k < position ==> record_le(#[trigger] before[k], x),
        decreases records@.len() - position,
    {
        proof {
            assert(before[position as int] == record_view(records@[position as int]));
        }
        position += 1;
    }
    proof {
        if position < records@.len() {
            assert(before[position as int] == record_view(records@[position as int]));
            lemma_record_total(before[position as int], x);
        }
    }
    records.insert(position, record);
    proof {
        let after = record_views(records@);
        assert(after =~= before.insert(position as int, x));
        vstd::seq_lib::to_multiset_insert(before, position as int, x);
        assert forall|a: int, b: int| 0 <= a < b < after.len() implies record_le(after[a], after[b]) by {
            if b < position {
                assert(after[a] == before[a] && after[b] == before[b]);
            } else if b == position {
                assert(after[a] == before[a]);
            } else if a < position {
                assert(after[a] == before[a] && after[b] == before[b - 1]);
                assert(record_le(before[a], x));
                assert(record_le(x, before[position as int]));
                if b - 1 > position {
                    lemma_record_transitive(x, before[position as int], before[b - 1]);
                }
                lemma_record_transitive(before[a], x, before[b - 1]);
            } else if a == position {
                assert(after[b] == before[b - 1]);
                if b - 1 > position {
                    lemma_record_transitive(x, before[position as int], before[b - 1]);
                }
            } else {
                assert(after[a] == before[a - 1] && after[b] == before[b - 1]);
            }
        }
    }
}

/// Interval order: by birth, then by death, under `f64::total_cmp`.
pub open spec fn bar_le(first: Bar, second: Bar) -> bool {
    total_key(first.birth) < total_key(second.birth) || (total_key(first.birth) == total_key(second.birth)
        && total_key(first.death) <= total_key(second.death))
}

/// The intervals are in interval order.
pub open spec fn bars_sorted(bars: Seq<Bar>) -> bool {
    forall|i: int, j: int| 0 <= i < j < bars.len() ==> bar_le(bars[i], bars[j])
}

/// Inserts `bar` after every interval that precedes or ties with it.
fn insert_bar(bars: &mut Vec<Bar>, bar: Bar)
    requires
        bars_sorted(old(bars)@),
    ensures
        bars_sorted(final(bars)@),
        final(bars)@.to_multiset() == old(bars)@.to_multiset().insert(bar),
{
    let ghost before = bars@;
    let birth = total_order_key(bar.birth);
    let death = total_order_key(bar.death);
    let mut position: usize = 0;
    while position < bars.len() && (total_order_key(bars[position].birth) < birth || (total_order_key(
        bars[position].birth,
    ) == birth && total_order_key(bars[position].death) <= death))
        invariant
            position <= bars@.len(),
            bars@ == before,
            birth == total_key(bar.birth),
            death == total_key(bar.death),
            forall|k: int| 0 <= k < position ==> bar_le(#[trigger] before[k], bar),
        decreases bars@.len() - position,
    {
        position += 1;
    }
    bars.insert(position, bar);
    proof {
        vstd::seq_lib::to_multiset_insert(before, position as int, bar);
        assert forall|a: int, b: int| 0 <= a < b < bars@.len() implies bar_le(bars@[a], bars@[b]) by {
            if b < position {
                assert(bars@[a] == before[a] && bars@[b] == before[b]);
            } else if b == position {
                assert(bars@[a] == before[a]);
            } else if a < position {
                assert(bars@[a] == before[a] && bars@[b] == before[b - 1]);
                assert(bar_le(before[position as int], before[b - 1]) || b - 1 == position);
            } else if a == position {
                assert(bars@[b] == before[b - 1]);
                assert(bar_le(before[position as int], before[b - 1]) || b - 1 == position);
            } else {
                assert(bars@[a] == before[a - 1] && bars@[b] == before[b - 1]);
            }
        }
    }
}

/// The lengths that the listed positions `positions` pick from `values`.
pub open spec fn indexed_values(values: Seq<u64>, positions: Seq<usize>) -> Seq<u64> {
    Seq::new(positions.len(), |i: int| values[positions[i] as int])
}

/// Every guard of `guards` holds at the lengths `values`.
pub open spec fn all_guards_hold(guards: Seq<GuardView>, topology: Seq<(usize, usize)>, values: Seq<u64>) -> bool {
    forall|k: int| 0 <= k < guards.len() ==> guard_holds(#[trigger] guards[k], topology, values)
}

/// The message with which evaluation stops at a violation of `kind`.
pub open spec fn region_end_message(kind: RegionViolationKind) -> Seq<char> {
    match kind {
        RegionViolationKind::VertexSetChanged => "certified region ended at VertexSetChanged"@,
        RegionViolationKind::EdgeSetChanged => "certified region ended at EdgeSetChanged"@,
        RegionViolationKind::ThresholdCrossing => "certified region ended at ThresholdCrossing"@,
        RegionViolationKind::GuardFailed => "certified region ended at GuardFailed"@,
    }
}

/// The message with which evaluation stops at a violation of `kind`.
fn end_message(kind: RegionViolationKind) -> (message: String)
    ensures
        message@ == region_end_message(kind),
{
    match kind {
        RegionViolationKind::VertexSetChanged => literal("certified region ended at VertexSetChanged"),
        RegionViolationKind::EdgeSetChanged => literal("certified region ended at EdgeSetChanged"),
        RegionViolationKind::ThresholdCrossing => literal("certified region ended at ThresholdCrossing"),
        RegionViolationKind::GuardFailed => literal("certified region ended at GuardFailed"),
    }
}

/// Exact result obtained by reusing one checked algebraic reduction.
#[derive(Debug, Clone)]
pub struct CertifiedRegionEvaluation {
    pub(crate) diagram: Diagram,
    pub(crate) h1_pairs: Vec<(Bar, CriticalPair)>,
    pub(crate) guards_checked: usize,
}

impl CertifiedRegionEvaluation {
    /// The intervals of the evaluated diagram.
    pub closed spec fn spec_diagram(&self) -> Seq<Bar> {
        self.diagram@
    }

    /// The positive H1 intervals with their critical pairs.
    pub closed spec fn spec_h1_pairs(&self) -> Seq<RecordView> {
        record_views(self.h1_pairs@)
    }

    /// Number of comparisons checked.
    pub closed spec fn spec_guards_checked(&self) -> usize {
        self.guards_checked
    }

    /// Exact H0 and H1 diagram at the updated weights.
    pub fn diagram(&self) -> (diagram: &Diagram)
        ensures
            diagram@ == self.spec_diagram(),
    {
        &self.diagram
    }

    /// Positive H1 intervals and their unchanged critical simplices.
    pub fn h1_critical_pairs(&self) -> (pairs: &[(Bar, CriticalPair)])
        ensures
            record_views(pairs@) == self.spec_h1_pairs(),
    {
        self.h1_pairs.as_slice()
    }

    /// Number of algebraic comparisons checked for this evaluation.
    pub fn guards_checked(&self) -> (count: usize)
        ensures
            count == self.spec_guards_checked(),
    {
        self.guards_checked
    }
}

impl CertifiedReductionRegion {
    /// Every failed topology or algebraic condition on the graph with
    /// `vertex_count` vertices and the listed `edges`.
    #[verifier::loop_isolation(false)]
    pub fn violations(&self, vertex_count: usize, edges: &[WeightedEdge]) -> (violations: Vec<RegionViolation>)
        ensures
            violation_views(violations@) == region_violations(self@, vertex_count, edges@),
    {
        proof {
            use_type_invariant(self);
            self.lemma_consistent();
            self.lemma_view();
        }
        let mut violations: Vec<RegionViolation> = Vec::new();
        if vertex_count != self.vertex_count {
            violations.push(RegionViolation::new(RegionViolationKind::VertexSetChanged, None, None, None));
            proof {
                assert(violation_views(violations@) =~= seq![
                    (RegionViolationKind::VertexSetChanged, None, None, None),
                ]);
            }
            return violations;
        }
        let listed = listed_endpoints(edges);
        if !same_edges(&listed, &self.topology) {
            let first = match first_absent_edge(&self.topology, &listed) {
                Some(edge) => Some(edge_simplex(edge)),
                None => match first_absent_edge(&listed, &self.topology) {
                    Some(edge) => Some(edge_simplex(edge)),
                    None => None,
                },
            };
            proof {
                assert(optional_vertices(first) == changed_edge(self@.topology, endpoints(edges@)));
            }
            violations.push(RegionViolation::new(RegionViolationKind::EdgeSetChanged, None, first, None));
            proof {
                assert(violation_views(violations@) =~= seq![
                    (RegionViolationKind::EdgeSetChanged, None, changed_edge(self@.topology, endpoints(edges@)), None),
                ]);
            }
            return violations;
        }
        let values = listed_lengths(edges);
        assert(listed@.len() == edges@.len());
        let threshold = match self.threshold {
            Some(bits) => bits,
            None => INFINITY_BITS,
        };
        let mut index: usize = 0;
        while index < self.topology.len()
            invariant
                index <= self.topology@.len(),
                self.active@.len() == self.topology@.len(),
                values@ == lengths(edges@),
                values@.len() == self.topology@.len(),
                threshold == threshold_bits(self@.threshold),
                violation_views(violations@) == crossings(
                    self@.topology,
                    self@.active,
                    values@,
                    threshold,
                    index as int,
                ),
            decreases self.topology@.len() - index,
        {
            if at_most(values[index], threshold) != self.active[index] {
                let ghost before = violations@;
                violations.push(
                    RegionViolation::new(
                        RegionViolationKind::ThresholdCrossing,
                        None,
                        Some(edge_simplex(self.topology[index])),
                        None,
                    ),
                );
                proof {
                    assert(violation_views(violations@) =~= violation_views(before).push(
                        violation_view(violations@[before.len() as int]),
                    ));
                }
            }
            index += 1;
        }
        if violations.len() > 0 {
            return violations;
        }
        let mut formula_values: Vec<u64> = Vec::new();
        let mut node: usize = 0;
        while node < self.guard_formulas.len()
            invariant
                node <= self.guard_formulas@.len(),
                values@.len() == self.topology@.len(),
                formula_values@.len() == node,
                forall|n: int| 0 <= n < self.guard_formulas@.len() ==> super::region::formula_within(
                    #[trigger] self.guard_formulas@[n],
                    self.topology@.len(),
                ),
                forall|n: int|
                    0 <= n < node ==> #[trigger] formula_values@[n] == super::region::formula_value(
                        self.guard_formulas@[n],
                        values@,
                    ),
            decreases self.guard_formulas@.len() - node,
        {
            formula_values.push(evaluate_formula(self.guard_formulas[node], &values));
            node += 1;
        }
        let mut index: usize = 0;
        while index < self.guards.len()
            invariant
                index <= self.guards@.len(),
                violation_views(violations@) == guard_failures(self@.guards, self@.topology, values@, index as int),
                values@ == lengths(edges@),
                formula_values@.len() == self.guard_formulas@.len(),
                forall|n: int|
                    0 <= n < self.guard_formulas@.len() ==> #[trigger] formula_values@[n] == super::region::formula_value(
                        self.guard_formulas@[n],
                        values@,
                    ),
                super::region::region_tables(
                    self.topology@,
                    super::guards::guard_views(self.guards@),
                    self.guard_indices@,
                    self.guard_ranks@,
                    self.guard_formulas@,
                    self.h1_pairs@,
                    self.h1_formulas@,
                ),
            decreases self.guards@.len() - index,
        {
            let (earlier, later) = self.guard_indices[index];
            proof {
                assert(self.guard_indices@[index as int] == (earlier, later));
                assert(self@.guards[index as int] == super::guards::guard_view(self.guards@[index as int]));
            }
            let earlier_key = total_order_key(formula_values[earlier]);
            let later_key = total_order_key(formula_values[later]);
            let holds = earlier_key < later_key || (earlier_key == later_key && self.guard_ranks[later]
                <= self.guard_ranks[earlier]);
            if !holds {
                let guard = &self.guards[index];
                let ghost before = violations@;
                violations.push(
                    RegionViolation::new(
                        RegionViolationKind::GuardFailed,
                        Some(index),
                        Some(guard.earlier().duplicate()),
                        Some(guard.later().duplicate()),
                    ),
                );
                proof {
                    assert(violation_views(violations@) =~= violation_views(before).push(
                        violation_view(violations@[before.len() as int]),
                    ));
                }
            }
            index += 1;
        }
        violations
    }

    /// The exact diagram at the listed lengths when every condition of the
    /// region holds, read off the checked reduction without reducing again.
    /// That it is the diagram every certificate of the updated graph
    /// records is `reweighting::lemma_accepted_reweighting_evaluates_exactly`.
    #[verifier::loop_isolation(false)]
    pub fn evaluate(&self, vertex_count: usize, edges: &[WeightedEdge]) -> (result: Result<
        CertifiedRegionEvaluation,
        CertificateError,
    >)
        requires
            simple_graph(vertex_count, edges@),
        ensures
            result is Err <==> region_violations(self@, vertex_count, edges@).len() > 0,
            result matches Err(error) ==> error.spec_message() == region_end_message(
                region_violations(self@, vertex_count, edges@)[0].0,
            ),
            result matches Ok(evaluation) ==> {
                &&& canonical_form(evaluation.spec_diagram(), region_bars(self@, lengths(edges@)))
                &&& records_sorted(evaluation.spec_h1_pairs())
                &&& evaluation.spec_h1_pairs().to_multiset() == h1_records(
                    self@.h1_pairs,
                    self@.topology,
                    lengths(edges@),
                    self@.h1_pairs.len() as int,
                ).to_multiset()
                &&& evaluation.spec_guards_checked() == self@.guards.len()
            },
    {
        proof {
            use_type_invariant(self);
            self.lemma_consistent();
            self.lemma_view();
        }
        let violations = self.violations(vertex_count, edges);
        if violations.len() > 0 {
            proof {
                assert(violation_views(violations@)[0] == violation_view(violations@[0]));
            }
            return Err(CertificateError::new(end_message(violations[0].kind())));
        }
        proof {
            assert(violation_views(violations@).len() == 0);
            assert(endpoints(edges@) == self@.topology);
            assert(endpoints(edges@).len() == edges@.len());
        }
        let values = listed_lengths(edges);
        let ghost positions = position_map(self@.topology);
        let mut bars: Vec<Bar> = Vec::new();
        let mut index: usize = 0;
        while index < self.h0_deaths.len()
            invariant
                index <= self.h0_deaths@.len(),
                values@ == lengths(edges@),
                values@.len() == self.topology@.len(),
                bars@ == h0_region_bars(self.h0_deaths@, values@, index as int),
            decreases self.h0_deaths@.len() - index,
        {
            let death = values[self.h0_deaths[index]];
            if greater(death, 0) {
                bars.push(Bar { dim: 0, birth: 0, death });
            }
            index += 1;
        }
        let ghost finite = bars@;
        let mut count: usize = 0;
        while count < self.h0_essential
            invariant
                count <= self.h0_essential,
                bars@ == finite + essential_bars(count as nat),
            decreases self.h0_essential - count,
        {
            bars.push(Bar { dim: 0, birth: 0, death: INFINITY_BITS });
            count += 1;
            assert(bars@ =~= finite + essential_bars(count as nat));
        }
        let ghost essential = bars@;
        let mut records: Vec<(Bar, CriticalPair)> = Vec::new();
        let mut index: usize = 0;
        proof {
            assert(essential =~= essential + h1_records(self@.h1_pairs, self@.topology, values@, 0).map_values(
                |record: RecordView| record.0,
            ));
            assert(record_views(records@) =~= h1_records(self@.h1_pairs, self@.topology, values@, 0));
        }
        while index < self.h1_pairs.len()
            invariant
                index <= self.h1_pairs@.len(),
                values@ == lengths(edges@),
                values@.len() == self.topology@.len(),
                bars@ == essential + h1_records(self@.h1_pairs, self@.topology, values@, index as int).map_values(
                    |record: RecordView| record.0,
                ),
                records_sorted(record_views(records@)),
                record_views(records@).to_multiset() == h1_records(
                    self@.h1_pairs,
                    self@.topology,
                    values@,
                    index as int,
                ).to_multiset(),
            decreases self.h1_pairs@.len() - index,
        {
            let pair = self.h1_pairs[index];
            let (birth_edge, death_edges) = self.h1_formulas[index];
            proof {
                assert(self.h1_formulas@[index as int] == (birth_edge, death_edges));
            }
            let birth = values[birth_edge];
            let death = match death_edges {
                Some((first, second, third)) => evaluate_formula(
                    RegionValueFormula::Triangle(first, second, third),
                    &values,
                ),
                None => INFINITY_BITS,
            };
            let ghost rest = h1_records(self@.h1_pairs, self@.topology, values@, index as int);
            if greater(death, birth) {
                let bar = Bar { dim: 1, birth, death };
                bars.push(bar);
                let mut creator: Vec<usize> = Vec::new();
                creator.push(pair.birth.0);
                creator.push(pair.birth.1);
                let destroyer = match pair.death {
                    Some((u, v, w)) => {
                        let mut vertices: Vec<usize> = Vec::new();
                        vertices.push(u);
                        vertices.push(v);
                        vertices.push(w);
                        assert(vertices@ =~= seq![u, v, w]);
                        Some(CriticalSimplex { vertices, value: death })
                    },
                    None => None,
                };
                let record = (bar, CriticalPair { birth: CriticalSimplex { vertices: creator, value: birth }, death: destroyer });
                proof {
                    assert(creator@ =~= seq![pair.birth.0, pair.birth.1]);
                    assert(record_view(record) == h1_records(self@.h1_pairs, self@.topology, values@, index + 1).last());
                }
                insert_record(&mut records, record);
                proof {
                    let next = h1_records(self@.h1_pairs, self@.topology, values@, index + 1);
                    assert(next == rest.push(record_view(record)));
                    vstd::seq_lib::to_multiset_build(rest, record_view(record));
                    assert(next.map_values(|record: RecordView| record.0) =~= rest.map_values(
                        |record: RecordView| record.0,
                    ).push(bar));
                }
            }
            index += 1;
        }
        let mut diagram = Diagram { bars };
        canonicalize(&mut diagram);
        Ok(CertifiedRegionEvaluation { diagram, h1_pairs: records, guards_checked: self.guards.len() })
    }

    /// The H1 intervals at the lengths `edge_values`, read through the
    /// listed positions `edge_positions` of the region's edges, in interval
    /// order, when every guard holds there.
    #[verifier::loop_isolation(false)]
    pub fn evaluate_h1_indexed(&self, edge_values: &[u64], edge_positions: &[usize]) -> (result: Result<
        Vec<Bar>,
        CertificateError,
    >)
        requires
            edge_positions@.len() == self@.topology.len(),
            forall|i: int| 0 <= i < edge_positions@.len() ==> #[trigger] edge_positions@[i] < edge_values@.len(),
            forall|i: int| 0 <= i < edge_values@.len() ==> #[trigger] edge_values@[i] <= INFINITY_BITS,
        ensures
            ({
                let values = indexed_values(edge_values@, edge_positions@);
                &&& result is Ok <==> all_guards_hold(self@.guards, self@.topology, values)
                &&& result matches Err(error) ==> error.spec_message() == region_end_message(
                    RegionViolationKind::GuardFailed,
                )
                &&& result matches Ok(bars) ==> {
                    &&& bars_sorted(bars@)
                    &&& bars@.to_multiset() == h1_records(
                        self@.h1_pairs,
                        self@.topology,
                        values,
                        self@.h1_pairs.len() as int,
                    ).map_values(|record: RecordView| record.0).to_multiset()
                }
            }),
    {
        proof {
            use_type_invariant(self);
            self.lemma_consistent();
            self.lemma_view();
        }
        let ghost values = indexed_values(edge_values@, edge_positions@);
        let mut picked: Vec<u64> = Vec::new();
        let mut index: usize = 0;
        while index < edge_positions.len()
            invariant
                index <= edge_positions@.len(),
                picked@ == values.take(index as int),
            decreases edge_positions@.len() - index,
        {
            picked.push(edge_values[edge_positions[index]]);
            index += 1;
            assert(picked@ =~= values.take(index as int));
        }
        assert(picked@ =~= values);
        let mut formula_values: Vec<u64> = Vec::new();
        let mut node: usize = 0;
        while node < self.guard_formulas.len()
            invariant
                node <= self.guard_formulas@.len(),
                formula_values@.len() == node,
                forall|n: int|
                    0 <= n < node ==> #[trigger] formula_values@[n] == super::region::formula_value(
                        self.guard_formulas@[n],
                        values,
                    ),
            decreases self.guard_formulas@.len() - node,
        {
            formula_values.push(evaluate_formula(self.guard_formulas[node], &picked));
            node += 1;
        }
        let mut index: usize = 0;
        while index < self.guards.len()
            invariant
                index <= self.guards@.len(),
                formula_values@.len() == self.guard_formulas@.len(),
                forall|n: int|
                    0 <= n < self.guard_formulas@.len() ==> #[trigger] formula_values@[n] == super::region::formula_value(
                        self.guard_formulas@[n],
                        values,
                    ),
                forall|k: int| 0 <= k < index ==> guard_holds(#[trigger] self@.guards[k], self@.topology, values),
            decreases self.guards@.len() - index,
        {
            let (earlier, later) = self.guard_indices[index];
            proof {
                assert(self.guard_indices@[index as int] == (earlier, later));
                assert(self@.guards[index as int] == super::guards::guard_view(self.guards@[index as int]));
            }
            let earlier_key = total_order_key(formula_values[earlier]);
            let later_key = total_order_key(formula_values[later]);
            if !(earlier_key < later_key || (earlier_key == later_key && self.guard_ranks[later]
                <= self.guard_ranks[earlier])) {
                return Err(CertificateError::new(literal("certified region ended at GuardFailed")));
            }
            index += 1;
        }
        let mut bars: Vec<Bar> = Vec::new();
        let mut index: usize = 0;
        proof {
            assert(h1_records(self@.h1_pairs, self@.topology, values, 0).map_values(|record: RecordView| record.0)
                =~= bars@);
        }
        while index < self.h1_formulas.len()
            invariant
                index <= self.h1_pairs@.len(),
                bars_sorted(bars@),
                bars@.to_multiset() == h1_records(self@.h1_pairs, self@.topology, values, index as int).map_values(
                    |record: RecordView| record.0,
                ).to_multiset(),
            decreases self.h1_pairs@.len() - index,
        {
            let (birth_edge, death_edges) = self.h1_formulas[index];
            proof {
                assert(self.h1_formulas@[index as int] == (birth_edge, death_edges));
            }
            let birth = picked[birth_edge];
            let death = match death_edges {
                Some((first, second, third)) => evaluate_formula(
                    RegionValueFormula::Triangle(first, second, third),
                    &picked,
                ),
                None => INFINITY_BITS,
            };
            let ghost rest = h1_records(self@.h1_pairs, self@.topology, values, index as int);
            if greater(death, birth) {
                let bar = Bar { dim: 1, birth, death };
                insert_bar(&mut bars, bar);
                proof {
                    let next = h1_records(self@.h1_pairs, self@.topology, values, index + 1);
                    assert(next.map_values(|record: RecordView| record.0) =~= rest.map_values(
                        |record: RecordView| record.0,
                    ).push(bar));
                    vstd::seq_lib::to_multiset_build(rest.map_values(|record: RecordView| record.0), bar);
                }
            }
            index += 1;
        }
        Ok(bars)
    }
}

} // verus!
