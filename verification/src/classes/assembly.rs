//! Assembling the canonical H1 class spaces of a diagram: the seeds are
//! validated, grouped by equal interval, and each group is replaced by the
//! canonical basis of the class space it spans, with identifiers and
//! provenance. The spaces come in interval order.

use vstd::prelude::*;

use crate::certificate::complex::{lemma_active_simple, simple_graph, total_key, total_order_key};
use crate::diagram::Bar;
use crate::digest::sha256;
use crate::error::Error;
use crate::field::spec_is_prime;
use crate::graph::{active_at, active_edges, edges_within, endpoints, WeightedEdge};

use super::basis::{
    canonical_basis_of, canonical_space_basis, gauge_rows, rows_dependent, shared_field_and_scale,
    strict_neighbor_lists,
};
use super::canonical::{basis_class_id, basis_class_message, class_space_message, group_id};
use super::provenance::{
    source_graph_digest, source_graph_message, PersistentClass, PersistentClassProvenance,
};
use super::space::{class_total, PersistentClassSpace};
use super::validation::{
    field_closed_on, has_vertex_potential, open_triangle_error, term_table, valid_cocycle_header, valid_cocycle_terms,
    valid_h1_cocycle, validate_h1_cocycle,
};
use crate::error::fails_with;
use super::{pair_view, Cocycle, CocycleTerm, CriticalPair, CriticalSimplex};
use crate::certificate::guards::{lemma_seq_lt_total, lemma_seq_lt_transitive, same_vertices, seq_lt, vertices_less};

verus! {

/// A cocycle as plain values: its modulus, its scale, and its terms.
pub open spec fn cocycle_view(cocycle: Cocycle) -> (u32, u64, Seq<CocycleTerm>) {
    (cocycle.modulus, cocycle.scale, cocycle.terms@)
}

/// The plain values of a list of cocycles.
pub open spec fn cocycle_views(cocycles: Seq<Cocycle>) -> Seq<(u32, u64, Seq<CocycleTerm>)> {
    cocycles.map_values(|cocycle: Cocycle| cocycle_view(cocycle))
}

/// The cocycles of the seeds whose interval is `interval`, in seed order,
/// as plain values.
pub open spec fn group_views(seeds: Seq<(Bar, Cocycle, CriticalPair)>, interval: Bar) -> Seq<(u32, u64, Seq<CocycleTerm>)>
    decreases seeds.len(),
{
    if seeds.len() == 0 {
        Seq::empty()
    } else {
        let rest = group_views(seeds.drop_last(), interval);
        if seeds.last().0 == interval {
            rest.push(cocycle_view(seeds.last().1))
        } else {
            rest
        }
    }
}

/// The cocycles of a list of classes.
pub open spec fn class_cocycles(classes: Seq<PersistentClass>) -> Seq<Cocycle> {
    classes.map_values(|class: PersistentClass| class.cocycle)
}

/// The seed is a valid H1 cocycle on the graph at its scale.
pub open spec fn valid_seed(vertex_count: usize, edges: Seq<WeightedEdge>, seed: (Bar, Cocycle, CriticalPair)) -> bool {
    valid_h1_cocycle(
        vertex_count,
        endpoints(active_at(edges, seed.1.scale)),
        seed.1.modulus,
        seed.1.scale,
        seed.1.terms@,
    )
}

/// Strict interval order: by birth, then by death, in the total order of
/// their bit patterns, then by dimension.
pub open spec fn interval_lt(first: Bar, second: Bar) -> bool {
    let a = total_key(first.birth);
    let b = total_key(second.birth);
    let c = total_key(first.death);
    let d = total_key(second.death);
    ||| a < b
    ||| a == b && c < d
    ||| a == b && c == d && first.dim < second.dim
}

/// The group of `cocycles` is refused: its cocycles do not share the field
/// and a scale, or their gauge-fixed rows are linearly dependent.
pub open spec fn group_refused(vertex_count: usize, edges: Seq<WeightedEdge>, modulus: u32, cocycles: Seq<Cocycle>) -> bool {
    ||| !shared_field_and_scale(cocycles, modulus)
    ||| forall|adjacency: Seq<Seq<usize>>|
        #[trigger] strict_neighbor_lists(vertex_count, endpoints(active_at(edges, cocycles[0].scale)), adjacency)
            ==> rows_dependent(
            gauge_rows(vertex_count, endpoints(active_at(edges, cocycles[0].scale)), adjacency, cocycles, modulus),
            modulus as nat,
        )
}

/// Each class of the space is its basis vector with its position, its
/// space's identifier and interval, a canonical identifier, and provenance
/// bound to that identifier and the graph at the class's scale.
pub open spec fn assembled_classes(
    vertex_count: usize,
    edges: Seq<WeightedEdge>,
    space: PersistentClassSpace,
) -> bool {
    forall|i: int|
        0 <= i < space.basis@.len() ==> {
            let class = #[trigger] space.basis@[i];
            &&& class.basis_index == i
            &&& class.group_id == space.id
            &&& class.interval == space.interval
            &&& class.id@ == sha256(basis_class_message(space.id@, i as usize, class.cocycle))
            &&& class.provenance matches Some(provenance) && provenance@.class_digest == class.id@
                && provenance@.source_graph_digest == sha256(
                source_graph_message(vertex_count, edges, class.cocycle.scale),
            ) && provenance@.interval == space.interval && provenance@.modulus == class.cocycle.modulus
                && provenance@.scale == class.cocycle.scale
        }
}

/// Every seed's interval is the interval of one of the spaces.
pub open spec fn covers_seeds(seeds: Seq<(Bar, Cocycle, CriticalPair)>, spaces: Seq<PersistentClassSpace>) -> bool {
    forall|k: int| 0 <= k < seeds.len() ==> space_intervals(spaces).contains(#[trigger] seeds[k].0)
}

/// The intervals of the spaces, in order.
pub open spec fn space_intervals(spaces: Seq<PersistentClassSpace>) -> Seq<Bar> {
    Seq::new(spaces.len(), |s: int| spaces[s].interval)
}

/// Spaces whose intervals are the listed intervals cover every seed whose
/// interval is listed.
proof fn lemma_covers(
    seeds: Seq<(Bar, Cocycle, CriticalPair)>,
    spaces: Seq<PersistentClassSpace>,
    intervals: Seq<Bar>,
)
    requires
        forall|k: int| 0 <= k < seeds.len() ==> intervals.contains(#[trigger] seeds[k].0),
        spaces.len() == intervals.len(),
        forall|t: int| 0 <= t < spaces.len() ==> (#[trigger] spaces[t]).interval == intervals[t],
    ensures
        covers_seeds(seeds, spaces),
{
    assert(space_intervals(spaces) =~= intervals);
}

/// `space` is the class space of its interval's group of seeds: the group
/// is not empty, the basis has one class per seed of the group and one
/// critical pair per class, the identifier is that of the interval and the
/// basis, the classes are assembled, and the basis is the canonical basis
/// of the group's gauge-fixed rows.
pub open spec fn space_of_group(
    vertex_count: usize,
    edges: Seq<WeightedEdge>,
    modulus: u32,
    seeds: Seq<(Bar, Cocycle, CriticalPair)>,
    space: PersistentClassSpace,
) -> bool {
    &&& group_views(seeds, space.interval).len() > 0
    &&& space.basis@.len() == group_views(seeds, space.interval).len()
    &&& space.critical_pairs@.len() == space.basis@.len()
    &&& pair_views(space.critical_pairs@).to_multiset() == group_pair_views(seeds, space.interval).to_multiset()
    &&& pairs_sorted(pair_views(space.critical_pairs@))
    &&& space.id@ == sha256(class_space_message(space.interval, modulus, class_cocycles(space.basis@)))
    &&& assembled_classes(vertex_count, edges, space)
    &&& exists|group: Seq<Cocycle>|
        #[trigger] cocycle_views(group) == group_views(seeds, space.interval) && forall|adjacency: Seq<Seq<usize>>|
            #[trigger] strict_neighbor_lists(vertex_count, endpoints(active_at(edges, group[0].scale)), adjacency)
                ==> canonical_basis_of(
                class_cocycles(space.basis@),
                gauge_rows(vertex_count, endpoints(active_at(edges, group[0].scale)), adjacency, group, modulus),
                endpoints(active_at(edges, group[0].scale)),
                modulus,
                group[0].scale,
            )
}

/// The endpoints of the listed edges present at `scale`.
pub open spec fn graph_active(edges: Seq<WeightedEdge>, scale: u64) -> Seq<(usize, usize)> {
    endpoints(active_at(edges, scale))
}

/// A well-formed cocycle that is closed and is a vertex coboundary.
pub open spec fn closed_coboundary(vertex_count: usize, active: Seq<(usize, usize)>, cocycle: Cocycle) -> bool {
    &&& valid_cocycle_header(cocycle.modulus, cocycle.scale, cocycle.terms@)
    &&& valid_cocycle_terms(vertex_count, active, cocycle.modulus, cocycle.terms@)
    &&& field_closed_on(active, term_table(cocycle.terms@), cocycle.modulus)
    &&& has_vertex_potential(vertex_count, active, term_table(cocycle.terms@), cocycle.modulus)
}

/// A well-formed cocycle that is not closed.
pub open spec fn open_cocycle(vertex_count: usize, active: Seq<(usize, usize)>, cocycle: Cocycle) -> bool {
    &&& valid_cocycle_header(cocycle.modulus, cocycle.scale, cocycle.terms@)
    &&& valid_cocycle_terms(vertex_count, active, cocycle.modulus, cocycle.terms@)
    &&& !field_closed_on(active, term_table(cocycle.terms@), cocycle.modulus)
}

/// Checks that an H1 cocycle is canonical, closed, and nontrivial on the
/// graph with `vertex_count` vertices and the listed edges, at the edges
/// present at the cocycle's scale.
pub fn validate_h1_cocycle_on_graph(vertex_count: usize, edges: &[WeightedEdge], cocycle: &Cocycle) -> (result: Result<
    (),
    Error,
>)
    requires
        simple_graph(vertex_count, edges@),
    ensures
        result is Ok <==> valid_h1_cocycle(
            vertex_count,
            graph_active(edges@, cocycle.scale),
            cocycle.modulus,
            cocycle.scale,
            cocycle.terms@,
        ),
        closed_coboundary(vertex_count, graph_active(edges@, cocycle.scale), *cocycle) ==> fails_with(
            result,
            "cocycle is a vertex coboundary at its scale"@,
        ),
        open_cocycle(vertex_count, graph_active(edges@, cocycle.scale), *cocycle) ==> (result matches Err(error)
            && open_triangle_error(graph_active(edges@, cocycle.scale), term_table(cocycle.terms@), cocycle.modulus, error)),
{
    let active = active_edges(edges, cocycle.scale);
    proof {
        lemma_active_simple(vertex_count, edges@, cocycle.scale);
        assert forall|i: int| 0 <= i < active@.len() implies (#[trigger] active@[i]).0 < vertex_count && active@[i].1
            < vertex_count by {
            assert(active@[i] == (active_at(edges@, cocycle.scale)[i].0, active_at(edges@, cocycle.scale)[i].1));
        }
        assert(edges_within(vertex_count, active@));
    }
    validate_h1_cocycle(vertex_count, active.as_slice(), cocycle.modulus, cocycle.scale, cocycle.terms.as_slice())
}

/// A critical pair as plain values.
pub type PairView = ((Seq<usize>, u64), Option<(Seq<usize>, u64)>);

/// The plain values of a list of critical pairs.
pub open spec fn pair_views(pairs: Seq<CriticalPair>) -> Seq<PairView> {
    pairs.map_values(|pair: CriticalPair| pair_view(pair))
}

/// The critical pairs of the seeds whose interval is `interval`, in seed
/// order, as plain values.
pub open spec fn group_pair_views(seeds: Seq<(Bar, Cocycle, CriticalPair)>, interval: Bar) -> Seq<PairView>
    decreases seeds.len(),
{
    if seeds.len() == 0 {
        Seq::empty()
    } else {
        let rest = group_pair_views(seeds.drop_last(), interval);
        if seeds.last().0 == interval {
            rest.push(pair_view(seeds.last().2))
        } else {
            rest
        }
    }
}

/// Destroyer order: by the destroyer's vertices, an absent destroyer last.
pub open spec fn death_le(first: Option<(Seq<usize>, u64)>, second: Option<(Seq<usize>, u64)>) -> bool {
    match (first, second) {
        (Some(a), Some(b)) => a.0 == b.0 || seq_lt(a.0, b.0),
        (Some(_), None) => true,
        (None, None) => true,
        (None, Some(_)) => false,
    }
}

/// Critical pair order: by the creator's vertices, then by the
/// destroyer's.
pub open spec fn critical_le(first: PairView, second: PairView) -> bool {
    seq_lt(first.0.0, second.0.0) || (first.0.0 == second.0.0 && death_le(first.1, second.1))
}

/// The critical pairs are in critical pair order.
pub open spec fn pairs_sorted(pairs: Seq<PairView>) -> bool {
    forall|i: int, j: int| 0 <= i < j < pairs.len() ==> critical_le(pairs[i], pairs[j])
}

proof fn lemma_critical_total(first: PairView, second: PairView)
    ensures
        critical_le(first, second) || critical_le(second, first),
{
    lemma_seq_lt_total(first.0.0, second.0.0);
    match (first.1, second.1) {
        (Some(a), Some(b)) => lemma_seq_lt_total(a.0, b.0),
        _ => {},
    }
}

proof fn lemma_critical_transitive(first: PairView, second: PairView, third: PairView)
    requires
        critical_le(first, second),
        critical_le(second, third),
    ensures
        critical_le(first, third),
{
    if seq_lt(first.0.0, second.0.0) && seq_lt(second.0.0, third.0.0) {
        lemma_seq_lt_transitive(first.0.0, second.0.0, third.0.0);
    }
    match (first.1, second.1, third.1) {
        (Some(a), Some(b), Some(c)) => {
            if seq_lt(a.0, b.0) && seq_lt(b.0, c.0) {
                lemma_seq_lt_transitive(a.0, b.0, c.0);
            }
        },
        _ => {},
    }
}

/// Whether `first` comes no later than `second` in critical pair order.
fn critical_precedes(first: &CriticalPair, second: &CriticalPair) -> (le: bool)
    ensures
        le == critical_le(pair_view(*first), pair_view(*second)),
{
    let x = first.birth.vertices.as_slice();
    let y = second.birth.vertices.as_slice();
    if vertices_less(x, y) {
        return true;
    }
    if !same_vertices(x, y) {
        return false;
    }
    match (&first.death, &second.death) {
        (Some(p), Some(q)) => {
            same_vertices(p.vertices.as_slice(), q.vertices.as_slice()) || vertices_less(
                p.vertices.as_slice(),
                q.vertices.as_slice(),
            )
        },
        (Some(_), None) => true,
        (None, None) => true,
        (None, Some(_)) => false,
    }
}

/// The critical pairs in critical pair order; equal pairs keep their order.
fn sort_pairs(pairs: Vec<CriticalPair>) -> (sorted: Vec<CriticalPair>)
    ensures
        pairs_sorted(pair_views(sorted@)),
        pair_views(sorted@).to_multiset() == pair_views(pairs@).to_multiset(),
{
    let ghost all = pairs@;
    let mut rest = pairs;
    let mut sorted: Vec<CriticalPair> = Vec::new();
    let ghost mut taken: int = 0;
    proof {
        assert(pair_views(sorted@) =~= Seq::<PairView>::empty());
        assert(pair_views(all.take(0)) =~= Seq::<PairView>::empty());
    }
    while rest.len() > 0
        invariant
            0 <= taken <= all.len(),
            rest@ == all.subrange(taken, all.len() as int),
            pairs_sorted(pair_views(sorted@)),
            pair_views(sorted@).to_multiset() == pair_views(all.take(taken)).to_multiset(),
        decreases rest@.len(),
    {
        let pair = rest.remove(0);
        let ghost before = pair_views(sorted@);
        let ghost x = pair_view(pair);
        let mut position: usize = 0;
        while position < sorted.len() && critical_precedes(&sorted[position], &pair)
            invariant
                position <= sorted@.len(),
                before == pair_views(sorted@),
                x == pair_view(pair),
                forall|k: int| 0 <= k < position ==> critical_le(#[trigger] before[k], x),
            decreases sorted@.len() - position,
        {
            proof {
                assert(before[position as int] == pair_view(sorted@[position as int]));
            }
            position += 1;
        }
        proof {
            if position < sorted@.len() {
                assert(before[position as int] == pair_view(sorted@[position as int]));
                lemma_critical_total(before[position as int], x);
            }
        }
        sorted.insert(position, pair);
        proof {
            let after = pair_views(sorted@);
            assert(after =~= before.insert(position as int, x));
            vstd::seq_lib::to_multiset_insert(before, position as int, x);
            assert forall|a: int, b: int| 0 <= a < b < after.len() implies critical_le(after[a], after[b]) by {
                if b < position {
                    assert(after[a] == before[a] && after[b] == before[b]);
                } else if b == position {
                    assert(after[a] == before[a]);
                } else if a < position {
                    assert(after[a] == before[a] && after[b] == before[b - 1]);
                    if b - 1 > position {
                        lemma_critical_transitive(x, before[position as int], before[b - 1]);
                    }
                    lemma_critical_transitive(before[a], x, before[b - 1]);
                } else if a == position {
                    assert(after[b] == before[b - 1]);
                    if b - 1 > position {
                        lemma_critical_transitive(x, before[position as int], before[b - 1]);
                    }
                } else {
                    assert(after[a] == before[a - 1] && after[b] == before[b - 1]);
                }
            }
            assert(all[taken] == pair);
            assert(pair_views(all.take(taken + 1)) =~= pair_views(all.take(taken)).push(x));
            vstd::seq_lib::to_multiset_build(pair_views(all.take(taken)), x);
            assert(pair_views(all.take(taken)).to_multiset().insert(x) == before.to_multiset().insert(x));
            taken = taken + 1;
            assert(rest@ =~= all.subrange(taken, all.len() as int));
        }
    }
    proof {
        assert(all.take(taken) =~= all);
    }
    sorted
}

/// A copy of the cocycle.
fn copy_cocycle(cocycle: &Cocycle) -> (copy: Cocycle)
    ensures
        cocycle_view(copy) == cocycle_view(*cocycle),
{
    let mut terms: Vec<CocycleTerm> = Vec::new();
    let mut t: usize = 0;
    while t < cocycle.terms.len()
        invariant
            t <= cocycle.terms@.len(),
            terms@ == cocycle.terms@.take(t as int),
        decreases cocycle.terms@.len() - t,
    {
        terms.push(cocycle.terms[t]);
        t += 1;
        proof {
            assert(terms@ =~= cocycle.terms@.take(t as int));
        }
    }
    proof {
        assert(terms@ =~= cocycle.terms@);
    }
    Cocycle { modulus: cocycle.modulus, scale: cocycle.scale, terms }
}

/// A copy of the critical simplex.
fn copy_simplex(simplex: &CriticalSimplex) -> (copy: CriticalSimplex)
    ensures
        copy.vertices@ == simplex.vertices@,
        copy.value == simplex.value,
{
    let mut vertices: Vec<usize> = Vec::new();
    let mut t: usize = 0;
    while t < simplex.vertices.len()
        invariant
            t <= simplex.vertices@.len(),
            vertices@ == simplex.vertices@.take(t as int),
        decreases simplex.vertices@.len() - t,
    {
        vertices.push(simplex.vertices[t]);
        t += 1;
        proof {
            assert(vertices@ =~= simplex.vertices@.take(t as int));
        }
    }
    proof {
        assert(vertices@ =~= simplex.vertices@);
    }
    CriticalSimplex { vertices, value: simplex.value }
}

/// A copy of the critical pair.
fn copy_pair(pair: &CriticalPair) -> (copy: CriticalPair)
    ensures
        super::pair_view(copy) == super::pair_view(*pair),
{
    let death = match &pair.death {
        Some(simplex) => Some(copy_simplex(simplex)),
        None => None,
    };
    CriticalPair { birth: copy_simplex(&pair.birth), death }
}

/// Whether `first` comes before `second` in interval order.
fn interval_before(first: Bar, second: Bar) -> (before: bool)
    ensures
        before == interval_lt(first, second),
{
    let a = total_order_key(first.birth);
    let b = total_order_key(second.birth);
    let c = total_order_key(first.death);
    let d = total_order_key(second.death);
    a < b || (a == b && c < d) || (a == b && c == d && first.dim < second.dim)
}

/// `total_key` tells bit patterns apart.
proof fn lemma_total_key_injective(a: u64, b: u64)
    requires
        total_key(a) == total_key(b),
    ensures
        a == b,
{
}

/// Distinct intervals are ordered one way or the other.
proof fn lemma_interval_total(first: Bar, second: Bar)
    requires
        first != second,
    ensures
        interval_lt(first, second) || interval_lt(second, first),
{
    if total_key(first.birth) == total_key(second.birth) {
        lemma_total_key_injective(first.birth, second.birth);
    }
    if total_key(first.death) == total_key(second.death) {
        lemma_total_key_injective(first.death, second.death);
    }
}

/// The distinct intervals of the seeds, in interval order.
fn sorted_intervals(seeds: &[(Bar, Cocycle, CriticalPair)]) -> (result: (Vec<Bar>, Ghost<Seq<int>>))
    ensures
        forall|a: int, b: int| 0 <= a < b < result.0@.len() ==> interval_lt(result.0@[a], result.0@[b]),
        forall|k: int| 0 <= k < seeds@.len() ==> result.0@.contains(#[trigger] seeds@[k].0),
        result.1@.len() == result.0@.len(),
        forall|a: int| 0 <= a < result.0@.len() ==> 0 <= #[trigger] result.1@[a] < seeds@.len() && seeds@[result.1@[a]].0 == result.0@[a],
{
    let mut intervals: Vec<Bar> = Vec::new();
    let ghost mut origin: Seq<int> = Seq::empty();
    let mut k: usize = 0;
    while k < seeds.len()
        invariant
            k <= seeds@.len(),
            forall|a: int, b: int| 0 <= a < b < intervals@.len() ==> interval_lt(intervals@[a], intervals@[b]),
            forall|j: int| 0 <= j < k ==> intervals@.contains(#[trigger] seeds@[j].0),
            origin.len() == intervals@.len(),
            forall|a: int| 0 <= a < intervals@.len() ==> 0 <= #[trigger] origin[a] < k && seeds@[origin[a]].0 == intervals@[a],
        decreases seeds@.len() - k,
    {
        let interval = seeds[k].0;
        let mut position: usize = 0;
        let mut found = false;
        while position < intervals.len()
            invariant
                position <= intervals@.len(),
                forall|t: int| 0 <= t < position ==> interval_lt(#[trigger] intervals@[t], interval),
                found ==> position < intervals@.len() && intervals@[position as int] == interval,
            ensures
                position <= intervals@.len(),
                forall|t: int| 0 <= t < position ==> interval_lt(#[trigger] intervals@[t], interval),
                found ==> position < intervals@.len() && intervals@[position as int] == interval,
                !found && position < intervals@.len() ==> intervals@[position as int] != interval && !interval_lt(
                    intervals@[position as int],
                    interval,
                ),
            decreases intervals@.len() - position,
        {
            if intervals[position] == interval {
                found = true;
                break;
            }
            if !interval_before(intervals[position], interval) {
                break;
            }
            position += 1;
        }
        if !found {
            let ghost before = intervals@;
            proof {
                if position < before.len() {
                    lemma_interval_total(before[position as int], interval);
                }
                assert forall|t: int| position <= t < before.len() implies interval_lt(interval, #[trigger] before[t]) by {
                    if t > position {
                        assert(interval_lt(before[position as int], before[t]));
                    }
                }
            }
            intervals.insert(position, interval);
            proof {
                let before_origin = origin;
                origin = origin.insert(position as int, k as int);
                assert forall|a: int| 0 <= a < intervals@.len() implies 0 <= #[trigger] origin[a] < k + 1 && seeds@[origin[a]].0 == intervals@[a] by {
                    if a < position {
                        assert(intervals@[a] == before[a] && origin[a] == before_origin[a]);
                    } else if a > position {
                        assert(intervals@[a] == before[a - 1] && origin[a] == before_origin[a - 1]);
                    }
                }
                assert forall|a: int, b: int| 0 <= a < b < intervals@.len() implies interval_lt(intervals@[a], intervals@[b]) by {
                    if b < position {
                        assert(intervals@[a] == before[a] && intervals@[b] == before[b]);
                    } else if b == position {
                        assert(intervals@[a] == before[a]);
                    } else if a < position {
                        assert(intervals@[a] == before[a] && intervals@[b] == before[b - 1]);
                        assert(interval_lt(interval, before[b - 1]));
                    } else if a == position {
                        assert(intervals@[b] == before[b - 1]);
                    } else {
                        assert(intervals@[a] == before[a - 1] && intervals@[b] == before[b - 1]);
                    }
                }
                assert(intervals@[position as int] == interval);
                assert forall|j: int| 0 <= j < k + 1 implies intervals@.contains(#[trigger] seeds@[j].0) by {
                    if j < k {
                        let t = choose|t: int| 0 <= t < before.len() && before[t] == seeds@[j].0;
                        if t < position {
                            assert(intervals@[t] == before[t]);
                        } else {
                            assert(intervals@[t + 1] == before[t]);
                        }
                    }
                }
            }
        } else {
            proof {
                assert(intervals@.contains(seeds@[k as int].0)) by {
                    assert(intervals@[position as int] == interval);
                }
            }
        }
        k += 1;
    }
    (intervals, Ghost(origin))
}

/// Copies of the cocycles and critical pairs of the seeds with the given
/// interval, in seed order.
fn collect_group(seeds: &[(Bar, Cocycle, CriticalPair)], interval: Bar) -> (group: (Vec<Cocycle>, Vec<CriticalPair>))
    ensures
        cocycle_views(group.0@) == group_views(seeds@, interval),
        pair_views(group.1@) == group_pair_views(seeds@, interval),
        group.1@.len() == group.0@.len(),
{
    let mut cocycles: Vec<Cocycle> = Vec::new();
    let mut pairs: Vec<CriticalPair> = Vec::new();
    let mut k: usize = 0;
    while k < seeds.len()
        invariant
            k <= seeds@.len(),
            cocycle_views(cocycles@) == group_views(seeds@.take(k as int), interval),
            pair_views(pairs@) == group_pair_views(seeds@.take(k as int), interval),
            pairs@.len() == cocycles@.len(),
        decreases seeds@.len() - k,
    {
        let ghost before = cocycles@;
        let ghost before_pairs = pairs@;
        proof {
            assert(seeds@.take(k + 1).drop_last() =~= seeds@.take(k as int));
            assert(seeds@.take(k + 1).last() == seeds@[k as int]);
        }
        if seeds[k].0 == interval {
            cocycles.push(copy_cocycle(&seeds[k].1));
            pairs.push(copy_pair(&seeds[k].2));
            proof {
                assert(cocycle_views(cocycles@) =~= cocycle_views(before).push(cocycle_view(seeds@[k as int].1)));
                assert(pair_views(pairs@) =~= pair_views(before_pairs).push(pair_view(seeds@[k as int].2)));
            }
        }
        k += 1;
    }
    proof {
        assert(seeds@.take(seeds@.len() as int) =~= seeds@);
    }
    (cocycles, pairs)
}

/// The class space of `interval` from the canonical basis of its group.
fn assemble_space(
    vertex_count: usize,
    edges: &[WeightedEdge],
    modulus: u32,
    interval: Bar,
    basis: Vec<Cocycle>,
    critical_pairs: Vec<CriticalPair>,
) -> (space: PersistentClassSpace)
    ensures
        space.interval == interval,
        space.id@ == sha256(class_space_message(interval, modulus, basis@)),
        class_cocycles(space.basis@) == basis@,
        space.critical_pairs@ == critical_pairs@,
        assembled_classes(vertex_count, edges@, space),
{
    let id = group_id(interval, modulus, basis.as_slice());
    let ghost all = basis@;
    proof {
        assert(basis@.len() == basis.len());
    }
    let mut rest = basis;
    let mut classes: Vec<PersistentClass> = Vec::new();
    let mut index: usize = 0;
    while rest.len() > 0
        invariant
            all.len() <= usize::MAX,
            index + rest@.len() == all.len(),
            rest@ == all.subrange(index as int, all.len() as int),
            class_cocycles(classes@) == all.take(index as int),
            classes@.len() == index,
            forall|i: int|
                0 <= i < classes@.len() ==> {
                    let class = #[trigger] classes@[i];
                    &&& class.basis_index == i
                    &&& class.group_id == id
                    &&& class.interval == interval
                    &&& class.id@ == sha256(basis_class_message(id@, i as usize, class.cocycle))
                    &&& class.provenance matches Some(provenance) && provenance@.class_digest == class.id@
                        && provenance@.source_graph_digest == sha256(
                        source_graph_message(vertex_count, edges@, class.cocycle.scale),
                    ) && provenance@.interval == interval && provenance@.modulus == class.cocycle.modulus
                        && provenance@.scale == class.cocycle.scale
                },
        decreases rest@.len(),
    {
        let cocycle = rest.remove(0);
        let class_id = basis_class_id(id, index, &cocycle);
        let source = source_graph_digest(vertex_count, edges, cocycle.scale);
        let provenance = PersistentClassProvenance::from_parts(
            source,
            *class_id.as_bytes(),
            interval,
            cocycle.modulus,
            cocycle.scale,
        );
        let ghost before = classes@;
        classes.push(
            PersistentClass {
                id: class_id,
                group_id: id,
                basis_index: index,
                interval,
                cocycle,
                provenance: Some(provenance),
            },
        );
        proof {
            assert(all[index as int] == cocycle);
            assert(class_cocycles(classes@) =~= all.take(index + 1));
            assert(rest@ =~= all.subrange(index + 1, all.len() as int));
            assert forall|i: int| 0 <= i < classes@.len() implies #[trigger] classes@[i].basis_index == i by {
                if i < index {
                    assert(classes@[i] == before[i]);
                }
            }
        }
        index += 1;
    }
    proof {
        assert(all.take(all.len() as int) =~= all);
    }
    PersistentClassSpace { id, interval, basis: classes, critical_pairs }
}

/// The canonical H1 class spaces of the seeds on the graph with the listed
/// edges: every seed is validated, the seeds are grouped by equal
/// interval, each group is replaced by the canonical basis of its class
/// space with identifiers and provenance, and the spaces come in interval
/// order.
pub fn canonical_spaces(
    vertex_count: usize,
    edges: &[WeightedEdge],
    modulus: u32,
    seeds: &[(Bar, Cocycle, CriticalPair)],
) -> (result: Result<Vec<PersistentClassSpace>, Error>)
    requires
        simple_graph(vertex_count, edges@),
        spec_is_prime(modulus as nat),
    ensures
        result matches Ok(spaces) ==> {
            &&& forall|a: int, b: int| 0 <= a < b < spaces@.len() ==> interval_lt(spaces@[a].interval, spaces@[b].interval)
            &&& covers_seeds(seeds@, spaces@)
            &&& forall|s: int| 0 <= s < spaces@.len() ==> space_of_group(vertex_count, edges@, modulus, seeds@, #[trigger] spaces@[s])
        },
        result is Err ==> {
            ||| exists|k: int| 0 <= k < seeds@.len() && !valid_seed(vertex_count, edges@, #[trigger] seeds@[k])
            ||| exists|group: Seq<Cocycle>, k: int|
                #![trigger cocycle_views(group), seeds@[k]]
                0 <= k < seeds@.len() && cocycle_views(group) == group_views(seeds@, seeds@[k].0)
                    && group_refused(vertex_count, edges@, modulus, group)
        },
{
    let mut k: usize = 0;
    while k < seeds.len()
        invariant
            simple_graph(vertex_count, edges@),
            k <= seeds@.len(),
            forall|j: int| 0 <= j < k ==> valid_seed(vertex_count, edges@, #[trigger] seeds@[j]),
        decreases seeds@.len() - k,
    {
        let cocycle = &seeds[k].1;
        let checked = validate_h1_cocycle_on_graph(vertex_count, edges, cocycle);
        if checked.is_err() {
            proof {
                assert(!valid_seed(vertex_count, edges@, seeds@[k as int]));
            }
            return Err(checked.unwrap_err());
        }
        k += 1;
    }
    let (intervals, origin) = sorted_intervals(seeds);
    let mut spaces: Vec<PersistentClassSpace> = Vec::new();
    let mut s: usize = 0;
    while s < intervals.len()
        invariant
            simple_graph(vertex_count, edges@),
            spec_is_prime(modulus as nat),
            forall|j: int| 0 <= j < seeds@.len() ==> valid_seed(vertex_count, edges@, #[trigger] seeds@[j]),
            forall|a: int, b: int| 0 <= a < b < intervals@.len() ==> interval_lt(intervals@[a], intervals@[b]),
            origin@.len() == intervals@.len(),
            forall|a: int| 0 <= a < intervals@.len() ==> 0 <= #[trigger] origin@[a] < seeds@.len() && seeds@[origin@[a]].0 == intervals@[a],
            s <= intervals@.len(),
            spaces@.len() == s,
            forall|t: int| 0 <= t < s ==> (#[trigger] spaces@[t]).interval == intervals@[t],
            forall|t: int| 0 <= t < s ==> space_of_group(vertex_count, edges@, modulus, seeds@, #[trigger] spaces@[t]),
        decreases intervals@.len() - s,
    {
        let interval = intervals[s];
        let (group, pairs) = collect_group(seeds, interval);
        proof {
            let j = origin@[s as int];
            lemma_group_nonempty(seeds@, interval, j);
            assert(group@.len() == cocycle_views(group@).len());
            assert(cocycle_views(group@)[0] == cocycle_view(group@[0]));
            let g0 = group_views(seeds@, interval)[0];
            lemma_group_member(seeds@, interval, 0);
            let m = choose|m: int| 0 <= m < seeds@.len() && seeds@[m].0 == interval && cocycle_view(seeds@[m].1) == g0;
            assert(valid_seed(vertex_count, edges@, seeds@[m]));
            assert forall|i: int, t: int| 0 <= i < group@.len() && 0 <= t < group@[i].terms@.len() implies (
            #[trigger] group@[i].terms@[t]).coefficient < group@[i].modulus by {
                lemma_group_member(seeds@, interval, i);
                assert(cocycle_views(group@)[i] == cocycle_view(group@[i]));
                let n = choose|n: int| 0 <= n < seeds@.len() && seeds@[n].0 == interval && cocycle_view(seeds@[n].1)
                    == group_views(seeds@, interval)[i];
                assert(valid_seed(vertex_count, edges@, seeds@[n]));
                assert(super::validation::valid_cocycle_term(
                    vertex_count,
                    endpoints(active_at(edges@, seeds@[n].1.scale)),
                    seeds@[n].1.modulus,
                    seeds@[n].1.terms@[t],
                ));
            }
        }
        let basis = match canonical_space_basis(vertex_count, edges, modulus, group.as_slice()) {
            Ok(basis) => basis,
            Err(error) => {
                proof {
                    let j = origin@[s as int];
                    assert(cocycle_views(group@) == group_views(seeds@, seeds@[j].0));
                    assert(group_refused(vertex_count, edges@, modulus, group@));
                }
                return Err(error);
            },
        };
        let ghost unsorted = pairs@;
        let pairs = sort_pairs(pairs);
        proof {
            vstd::seq_lib::to_multiset_len(pair_views(pairs@));
            vstd::seq_lib::to_multiset_len(pair_views(unsorted));
            assert(pair_views(pairs@).len() == pairs@.len());
            assert(pair_views(unsorted).len() == unsorted.len());
        }
        let space = assemble_space(vertex_count, edges, modulus, interval, basis, pairs);
        let ghost before = spaces@;
        spaces.push(space);
        proof {
            assert(spaces@[s as int] == space);
            assert(cocycle_views(group@) == group_views(seeds@, space.interval));
            assert(seeds@[origin@[s as int]].0 == space.interval);
            lemma_group_nonempty(seeds@, space.interval, origin@[s as int]);
            assert forall|t: int| 0 <= t < s + 1 implies (#[trigger] spaces@[t]).interval == intervals@[t] by {
                if t < s {
                    assert(spaces@[t] == before[t]);
                }
            }
        }
        s += 1;
    }
    proof {
        lemma_covers(seeds@, spaces@, intervals@);
        assert forall|a: int, b: int| 0 <= a < b < spaces@.len() implies interval_lt(spaces@[a].interval, spaces@[b].interval) by {
            assert(spaces@[a].interval == intervals@[a]);
            assert(spaces@[b].interval == intervals@[b]);
        }
    }
    Ok(spaces)
}

/// A seed with the interval puts a cocycle in its group.
proof fn lemma_group_nonempty(seeds: Seq<(Bar, Cocycle, CriticalPair)>, interval: Bar, j: int)
    requires
        0 <= j < seeds.len(),
        seeds[j].0 == interval,
    ensures
        group_views(seeds, interval).len() > 0,
    decreases seeds.len(),
{
    if j < seeds.len() - 1 {
        assert(seeds.drop_last()[j] == seeds[j]);
        lemma_group_nonempty(seeds.drop_last(), interval, j);
    }
}

/// Every member of a group is the cocycle of a seed with the interval.
proof fn lemma_group_member(seeds: Seq<(Bar, Cocycle, CriticalPair)>, interval: Bar, i: int)
    requires
        0 <= i < group_views(seeds, interval).len(),
    ensures
        exists|m: int| 0 <= m < seeds.len() && seeds[m].0 == interval && cocycle_view(seeds[m].1) == group_views(seeds, interval)[i],
    decreases seeds.len(),
{
    let rest = group_views(seeds.drop_last(), interval);
    if i < rest.len() {
        lemma_group_member(seeds.drop_last(), interval, i);
        let m = choose|m: int| 0 <= m < seeds.drop_last().len() && seeds.drop_last()[m].0 == interval && cocycle_view(seeds.drop_last()[m].1) == rest[i];
        assert(seeds[m] == seeds.drop_last()[m]);
    } else {
        assert(seeds[seeds.len() - 1] == seeds.last());
    }
}

} // verus!
