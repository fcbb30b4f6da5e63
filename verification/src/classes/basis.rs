//! The canonical basis of a persistent H1 class space: each cocycle fixed
//! to the gauge that vanishes on a breadth-first spanning forest of the
//! active graph, then the rows brought to reduced row echelon form.

use vstd::prelude::*;

use crate::graph::{active_adjacency, adjacent, ascending, edges_within, neighbor_lists};

use super::validation::{
    coefficient_table, coefficient_table_insert, lemma_assign_one, lemma_term_table_below, new_coefficient_table,
    oriented_coefficient, oriented_table_value, table_below, table_coefficient, table_value, term_table,
    unassigned, CoefficientTable,
};
use super::{Cocycle, CocycleTerm};
use crate::certificate::complex::{lemma_active_simple, simple_graph};
use crate::certificate::repair::{distinct_simplices, lemma_position_map, position_map};
use crate::error::fails_with;
use crate::graph::{active_at, active_edges, endpoints, WeightedEdge};
use crate::certificate::algebra::{column_views, lemma_linear_step};
use crate::certificate::sparse::{lookup, lemma_lookup_at, lemma_lookup_absent, lemma_lookup_below, sorted_keys, wf_column, SparseColumn};
use vstd::arithmetic::div_mod::lemma_small_mod;
use crate::error::Error;
use crate::field::{inverse_mod, lemma_inverse_mod_is_inverse, spec_inverse_mod, spec_is_prime};
use crate::text::literal;

verus! {

/// Queue of discovered vertices and the potential of each.
pub type GaugeState = (Seq<usize>, Map<usize, nat>);

/// Visits the neighbors `list` of `u` in order: each one without a
/// potential receives `u`'s plus the oriented coefficient and joins the
/// queue.
pub open spec fn visit(
    list: Seq<usize>,
    u: usize,
    state: GaugeState,
    table: Map<(usize, usize), u64>,
    modulus: u32,
) -> GaugeState
    decreases list.len(),
{
    if list.len() == 0 {
        state
    } else {
        let before = visit(list.drop_last(), u, state, table, modulus);
        let v = list.last();
        if before.1.contains_key(v) {
            before
        } else {
            (
                before.0.push(v),
                before.1.insert(v, ((before.1[u] + oriented_table_value(table, u, v, modulus)) % (modulus as int)) as nat),
            )
        }
    }
}

/// Processes the queue from position `head`, at most `fuel` vertices.
pub open spec fn drain(
    adjacency: Seq<Seq<usize>>,
    state: GaugeState,
    head: nat,
    fuel: nat,
    table: Map<(usize, usize), u64>,
    modulus: u32,
) -> (GaugeState, nat)
    decreases fuel,
{
    if fuel == 0 || head >= state.0.len() {
        (state, head)
    } else {
        let u = state.0[head as int];
        drain(adjacency, visit(adjacency[u as int], u, state, table, modulus), head + 1, (fuel - 1) as nat, table, modulus)
    }
}

/// The breadth-first gauge after trying the first `roots` vertices as
/// roots: a vertex without a potential becomes a root with potential zero,
/// and its component is searched.
pub open spec fn gauge(
    adjacency: Seq<Seq<usize>>,
    vertex_count: nat,
    roots: nat,
    table: Map<(usize, usize), u64>,
    modulus: u32,
) -> (GaugeState, nat)
    decreases roots,
{
    if roots == 0 {
        ((Seq::empty(), Map::empty()), 0)
    } else {
        let (state, head) = gauge(adjacency, vertex_count, (roots - 1) as nat, table, modulus);
        let root = (roots - 1) as usize;
        if state.1.contains_key(root) {
            (state, head)
        } else {
            drain(
                adjacency,
                (state.0.push(root), state.1.insert(root, 0)),
                head,
                vertex_count,
                table,
                modulus,
            )
        }
    }
}

/// Strictly increasing neighbor lists of the graph.
pub open spec fn strict_neighbor_lists(
    vertex_count: usize,
    edges: Seq<(usize, usize)>,
    adjacency: Seq<Seq<usize>>,
) -> bool {
    &&& adjacency.len() == vertex_count
    &&& forall|x: int| 0 <= x < vertex_count ==> strictly_ascending(#[trigger] adjacency[x])
    &&& forall|x: usize, y: usize|
        x < vertex_count ==> (#[trigger] adjacency[x as int].contains(y) <==> adjacent(edges, x, y))
}

/// Strictly increasing values.
pub open spec fn strictly_ascending(values: Seq<usize>) -> bool {
    forall|i: int, j: int| 0 <= i < j < values.len() ==> values[i] < values[j]
}

/// Two strictly increasing lists with the same members are equal.
pub proof fn lemma_strict_unique(first: Seq<usize>, second: Seq<usize>)
    requires
        strictly_ascending(first),
        strictly_ascending(second),
        forall|y: usize| first.contains(y) <==> second.contains(y),
    ensures
        first == second,
    decreases first.len(),
{
    if first.len() == 0 {
        if second.len() > 0 {
            assert(second.contains(second[0]));
        }
        assert(first =~= second);
    } else {
        assert(first.contains(first[0]));
        assert(second.len() > 0);
        assert(second.contains(second[0]));
        let i = choose|i: int| 0 <= i < second.len() && second[i] == first[0];
        let j = choose|j: int| 0 <= j < first.len() && first[j] == second[0];
        assert(first[0] == second[0]) by {
            if i > 0 {
                assert(second[0] < second[i]);
                if j > 0 {
                    assert(first[0] < first[j]);
                }
            }
        }
        let a = first.drop_first();
        let b = second.drop_first();
        assert forall|y: usize| a.contains(y) <==> b.contains(y) by {
            if a.contains(y) {
                let k = choose|k: int| 0 <= k < a.len() && a[k] == y;
                assert(first[k + 1] == y);
                assert(first.contains(y));
                let m = choose|m: int| 0 <= m < second.len() && second[m] == y;
                assert(first[0] < first[k + 1]);
                assert(m > 0);
                assert(b[m - 1] == y);
            }
            if b.contains(y) {
                let k = choose|k: int| 0 <= k < b.len() && b[k] == y;
                assert(second[k + 1] == y);
                assert(second.contains(y));
                let m = choose|m: int| 0 <= m < first.len() && first[m] == y;
                assert(second[0] < second[k + 1]);
                assert(m > 0);
                assert(a[m - 1] == y);
            }
        }
        lemma_strict_unique(a, b);
        assert(first =~= seq![first[0]] + a);
        assert(second =~= seq![second[0]] + b);
    }
}

/// The list without repeated neighbors.
fn without_repeats(values: &Vec<usize>) -> (strict: Vec<usize>)
    requires
        ascending(values@),
    ensures
        strictly_ascending(strict@),
        forall|y: usize| strict@.contains(y) <==> values@.contains(y),
{
    let mut strict: Vec<usize> = Vec::new();
    let mut index: usize = 0;
    while index < values.len()
        invariant
            ascending(values@),
            index <= values@.len(),
            strictly_ascending(strict@),
            forall|y: usize| strict@.contains(y) <==> values@.take(index as int).contains(y),
            strict@.len() > 0 ==> index > 0 && strict@.last() == values@[index - 1],
        decreases values@.len() - index,
    {
        let value = values[index];
        let ghost prefix = values@.take(index as int);
        proof {
            assert(values@.take(index + 1) =~= prefix.push(value));
        }
        if strict.len() == 0 || strict[strict.len() - 1] != value {
            proof {
                if strict@.len() > 0 {
                    assert(values@[index - 1] <= value);
                }
            }
            let ghost before = strict@;
            strict.push(value);
            proof {
                assert forall|i: int, j: int| 0 <= i < j < strict@.len() implies strict@[i] < strict@[j] by {
                    if j == strict@.len() - 1 && i < j {
                        assert(before[i] <= before.last());
                        if i < before.len() - 1 {
                            assert(before[i] < before.last());
                        }
                    }
                }
                assert forall|y: usize| strict@.contains(y) <==> values@.take(index + 1).contains(y) by {
                    if strict@.contains(y) && y != value {
                        let k = choose|k: int| 0 <= k < strict@.len() && strict@[k] == y;
                        assert(before[k] == y);
                        assert(before.contains(y));
                    }
                    if before.contains(y) {
                        let k = choose|k: int| 0 <= k < before.len() && before[k] == y;
                        assert(strict@[k] == y);
                    }
                    if y == value {
                        assert(strict@[strict@.len() - 1] == value);
                    }
                    let next = values@.take(index + 1);
                    if next.contains(y) {
                        let k = choose|k: int| 0 <= k < next.len() && next[k] == y;
                        if k < index {
                            assert(prefix[k] == y);
                            assert(prefix.contains(y));
                        }
                    }
                    if strict@.contains(y) {
                        if y == value {
                            assert(next[index as int] == value);
                        } else {
                            let k = choose|k: int| 0 <= k < prefix.len() && prefix[k] == y;
                            assert(next[k] == y);
                        }
                    }
                }
            }
        } else {
            proof {
                assert(strict@[strict@.len() - 1] == value);
                assert(strict@.contains(value));
                let next = values@.take(index + 1);
                assert forall|y: usize| strict@.contains(y) <==> next.contains(y) by {
                    if next.contains(y) {
                        let k = choose|k: int| 0 <= k < next.len() && next[k] == y;
                        if k < index {
                            assert(prefix[k] == y);
                            assert(prefix.contains(y));
                        }
                    }
                    if strict@.contains(y) {
                        let k = choose|k: int| 0 <= k < prefix.len() && prefix[k] == y;
                        assert(next[k] == y);
                    }
                }
            }
        }
        index += 1;
    }
    proof {
        assert(values@.take(values@.len() as int) =~= values@);
    }
    strict
}

/// Strictly increasing neighbor lists of the graph.
fn strict_adjacency(vertex_count: usize, edges: &[(usize, usize)]) -> (adjacency: Vec<Vec<usize>>)
    requires
        edges_within(vertex_count, edges@),
    ensures
        strict_neighbor_lists(vertex_count, edges@, adjacency@.map_values(|list: Vec<usize>| list@)),
{
    let lists = active_adjacency(vertex_count, edges);
    let mut adjacency: Vec<Vec<usize>> = Vec::new();
    let mut x: usize = 0;
    while x < lists.len()
        invariant
            neighbor_lists(vertex_count, edges@, lists@),
            x <= lists@.len(),
            adjacency@.len() == x,
            forall|k: int| 0 <= k < x ==> strictly_ascending(#[trigger] adjacency@[k]@),
            forall|k: int, y: usize| 0 <= k < x ==> (#[trigger] adjacency@[k]@.contains(y) <==> lists@[k]@.contains(y)),
        decreases lists@.len() - x,
    {
        adjacency.push(without_repeats(&lists[x]));
        x += 1;
    }
    proof {
        let views = adjacency@.map_values(|list: Vec<usize>| list@);
        assert forall|k: int| 0 <= k < vertex_count implies strictly_ascending(#[trigger] views[k]) by {
            assert(views[k] == adjacency@[k]@);
        }
        assert forall|a: usize, y: usize| a < vertex_count implies (#[trigger] views[a as int].contains(y) <==> adjacent(
            edges@,
            a,
            y,
        )) by {
            assert(views[a as int] == adjacency@[a as int]@);
            assert(lists@[a as int]@.contains(y) <==> adjacent(edges@, a, y));
        }
    }
    adjacency
}

/// The potentials recorded so far.
pub open spec fn assigned_map(assigned: Seq<Option<u64>>) -> Map<usize, nat> {
    Map::new(
        |x: usize| (x as int) < assigned.len() && assigned[x as int] is Some,
        |x: usize| assigned[x as int]->0 as nat,
    )
}

/// Visiting keeps every potential already assigned.
proof fn lemma_visit_keeps(list: Seq<usize>, u: usize, state: GaugeState, table: Map<(usize, usize), u64>, modulus: u32, x: usize)
    requires
        state.1.contains_key(x),
    ensures
        visit(list, u, state, table, modulus).1.contains_key(x),
        visit(list, u, state, table, modulus).1[x] == state.1[x],
    decreases list.len(),
{
    if list.len() > 0 {
        lemma_visit_keeps(list.drop_last(), u, state, table, modulus, x);
    }
}

/// The shape of the search state: queued vertices are distinct, lie below
/// the vertex count, and are exactly the vertices with a potential, each
/// below the modulus.
spec fn search_state(vertex_count: usize, modulus: u32, queue: Seq<usize>, assigned: Seq<Option<u64>>) -> bool {
    &&& assigned.len() == vertex_count
    &&& forall|i: int| 0 <= i < queue.len() ==> (#[trigger] queue[i]) < vertex_count && assigned[queue[i] as int] is Some
    &&& forall|i: int, j: int| 0 <= i < j < queue.len() ==> queue[i] != queue[j]
    &&& forall|x: int| 0 <= x < vertex_count && (#[trigger] assigned[x]) is Some ==> queue.contains(x as usize)
    &&& forall|x: int| 0 <= x < vertex_count && (#[trigger] assigned[x]) is Some ==> assigned[x]->0 < modulus
    &&& unassigned(assigned) + queue.len() == vertex_count
}

/// Potentials of the breadth-first gauge: every vertex receives the
/// potential the search from the least vertex of its component gives it.
fn gauge_potential(
    vertex_count: usize,
    adjacency: &Vec<Vec<usize>>,
    table: &CoefficientTable,
    modulus: u32,
) -> (potential: Vec<u64>)
    requires
        modulus > 0,
        table_below(coefficient_table(*table), modulus),
        adjacency@.len() == vertex_count,
        forall|x: int, k: int| 0 <= x < vertex_count && 0 <= k < adjacency@[x]@.len() ==> #[trigger] adjacency@[x]@[k] < vertex_count,
    ensures
        ({
            let result = gauge(
                adjacency@.map_values(|list: Vec<usize>| list@),
                vertex_count as nat,
                vertex_count as nat,
                coefficient_table(*table),
                modulus,
            ).0.1;
            &&& potential@.len() == vertex_count
            &&& forall|x: usize| x < vertex_count ==> #[trigger] result.contains_key(x)
            &&& forall|x: usize| x < vertex_count ==> #[trigger] potential@[x as int] == result[x]
            &&& forall|x: int| 0 <= x < vertex_count ==> #[trigger] potential@[x] < modulus
        }),
{
    let ghost adj = adjacency@.map_values(|list: Vec<usize>| list@);
    let ghost map = coefficient_table(*table);
    let ghost n = vertex_count as nat;
    let wide = modulus as u64;
    let mut assigned: Vec<Option<u64>> = Vec::new();
    while assigned.len() < vertex_count
        invariant
            assigned@.len() <= vertex_count,
            forall|x: int| 0 <= x < assigned@.len() ==> #[trigger] assigned@[x] is None,
            unassigned(assigned@) == assigned@.len(),
        decreases vertex_count - assigned@.len(),
    {
        let ghost before = assigned@;
        assigned.push(None);
        proof {
            assert(assigned@.drop_last() =~= before);
        }
    }
    let mut queue: Vec<usize> = Vec::new();
    let mut head: usize = 0;
    let mut root: usize = 0;
    proof {
        assert(assigned_map(assigned@) =~= Map::<usize, nat>::empty());
        assert(queue@ =~= Seq::<usize>::empty());
    }
    while root < vertex_count
        invariant
            modulus > 0,
            wide == modulus,
            map == coefficient_table(*table),
            table_below(map, modulus),
            adj == adjacency@.map_values(|list: Vec<usize>| list@),
            n == vertex_count,
            adjacency@.len() == vertex_count,
            forall|x: int, k: int| 0 <= x < vertex_count && 0 <= k < adjacency@[x]@.len() ==> #[trigger] adjacency@[x]@[k] < vertex_count,
            root <= vertex_count,
            search_state(vertex_count, modulus, queue@, assigned@),
            head == queue@.len(),
            ((queue@, assigned_map(assigned@)), head as nat) == gauge(adj, n, root as nat, map, modulus),
            forall|x: int| 0 <= x < root ==> #[trigger] assigned@[x] is Some,
        decreases vertex_count - root,
    {
        if assigned[root].is_none() {
            let ghost before = assigned@;
            proof {
                lemma_assign_one(before, root as int, 0);
                assert(!queue@.contains(root)) by {
                    if queue@.contains(root) {
                        let i = choose|i: int| 0 <= i < queue@.len() && queue@[i] == root;
                    }
                }
            }
            let ghost old_queue = queue@;
            assigned.set(root, Some(0));
            queue.push(root);
            let ghost start = (queue@, assigned_map(assigned@));
            let ghost start_head = head as nat;
            proof {
                assert(assigned_map(assigned@) =~= assigned_map(before).insert(root, 0));
                assert(assigned_map(before) == gauge(adj, n, root as nat, map, modulus).0.1);
                assert(!gauge(adj, n, root as nat, map, modulus).0.1.contains_key(root));
                assert forall|x: int| 0 <= x < vertex_count && (#[trigger] assigned@[x]) is Some implies queue@.contains(x as usize) by {
                    if x != root {
                        assert(before[x] is Some);
                        assert(old_queue.contains(x as usize));
                        let i = choose|i: int| 0 <= i < old_queue.len() && old_queue[i] == x as usize;
                        assert(queue@[i] == x as usize);
                    } else {
                        assert(queue@[queue@.len() - 1] == root);
                    }
                }
            }
            while head < queue.len()
                invariant
                    modulus > 0,
                    wide == modulus,
                    map == coefficient_table(*table),
                    table_below(map, modulus),
                    adj == adjacency@.map_values(|list: Vec<usize>| list@),
                    n == vertex_count,
                    adjacency@.len() == vertex_count,
                    forall|x: int, k: int| 0 <= x < vertex_count && 0 <= k < adjacency@[x]@.len() ==> #[trigger] adjacency@[x]@[k] < vertex_count,
                    search_state(vertex_count, modulus, queue@, assigned@),
                    start_head <= head <= queue@.len(),
                    drain(adj, (queue@, assigned_map(assigned@)), head as nat, (n - (head - start_head)) as nat, map, modulus)
                        == drain(adj, start, start_head, n, map, modulus),
                    head - start_head <= n,
                    root < vertex_count,
                    assigned@[root as int] is Some,
                    forall|x: int| 0 <= x < root ==> #[trigger] assigned@[x] is Some,
                decreases vertex_count - head,
            {
                let u = queue[head];
                let pu = match assigned[u] {
                    Some(value) => value,
                    None => 0,
                };
                let ghost state0 = (queue@, assigned_map(assigned@));
                proof {
                    assert(queue@.len() <= vertex_count);
                    assert(adj[u as int] == adjacency@[u as int]@);
                }
                let ghost fuel = (n - (head - start_head)) as nat;
                head += 1;
                let neighbors = &adjacency[u];
                let mut k: usize = 0;
                proof {
                    assert(adj[u as int].take(0) =~= Seq::<usize>::empty());
                }
                while k < neighbors.len()
                    invariant
                        modulus > 0,
                        wide == modulus,
                        map == coefficient_table(*table),
                        table_below(map, modulus),
                        neighbors@ == adj[u as int],
                        forall|j: int| 0 <= j < neighbors@.len() ==> #[trigger] neighbors@[j] < vertex_count,
                        search_state(vertex_count, modulus, queue@, assigned@),
                        state0.1.contains_key(u),
                        state0.1[u] == pu,
                        pu < modulus,
                        (queue@, assigned_map(assigned@)) == visit(neighbors@.take(k as int), u, state0, map, modulus),
                        k <= neighbors@.len(),
                        head <= queue@.len(),
                        root < vertex_count,
                        assigned@[root as int] is Some,
                        forall|x: int| 0 <= x < root ==> #[trigger] assigned@[x] is Some,
                    decreases neighbors@.len() - k,
                {
                    let v = neighbors[k];
                    let ghost prefix = neighbors@.take(k as int);
                    let ghost current = visit(prefix, u, state0, map, modulus);
                    proof {
                        assert(neighbors@.take(k + 1).drop_last() =~= prefix);
                        assert(neighbors@.take(k + 1).last() == v);
                        lemma_visit_keeps(prefix, u, state0, map, modulus, u);
                    }
                    if assigned[v].is_none() {
                        let offset = oriented_coefficient(table, u, v, modulus);
                        let value = (pu + offset) % wide;
                        let ghost before = assigned@;
                        proof {
                            lemma_assign_one(before, v as int, value);
                            assert(!queue@.contains(v)) by {
                                if queue@.contains(v) {
                                    let i = choose|i: int| 0 <= i < queue@.len() && queue@[i] == v;
                                }
                            }
                            assert(!current.1.contains_key(v));
                        }
                        let ghost old_queue = queue@;
                        assigned.set(v, Some(value));
                        queue.push(v);
                        proof {
                            assert(assigned_map(assigned@) =~= current.1.insert(v, value as nat));
                            assert forall|x: int| 0 <= x < vertex_count && (#[trigger] assigned@[x]) is Some implies queue@.contains(x as usize) by {
                                if x != v {
                                    assert(before[x] is Some);
                                    assert(old_queue.contains(x as usize));
                                    let i = choose|i: int| 0 <= i < old_queue.len() && old_queue[i] == x as usize;
                                    assert(queue@[i] == x as usize);
                                } else {
                                    assert(queue@[queue@.len() - 1] == v);
                                }
                            }
                        }
                    } else {
                        proof {
                            assert(current.1.contains_key(v));
                        }
                    }
                    k += 1;
                }
                proof {
                    assert(neighbors@.take(neighbors@.len() as int) =~= neighbors@);
                    assert(state0.0[(head - 1) as int] == u);
                }
            }
            proof {
                assert(drain(adj, (queue@, assigned_map(assigned@)), head as nat, (n - (head - start_head)) as nat, map, modulus)
                    == ((queue@, assigned_map(assigned@)), head as nat));
            }
        } else {
            proof {
                assert(assigned_map(assigned@).contains_key(root));
            }
        }
        root += 1;
    }
    let mut potential: Vec<u64> = Vec::new();
    let mut x: usize = 0;
    while x < vertex_count
        invariant
            x <= vertex_count,
            assigned@.len() == vertex_count,
            forall|y: int| 0 <= y < vertex_count ==> #[trigger] assigned@[y] is Some,
            forall|y: int| 0 <= y < vertex_count && (#[trigger] assigned@[y]) is Some ==> assigned@[y]->0 < modulus,
            potential@.len() == x,
            forall|y: int| 0 <= y < x ==> #[trigger] potential@[y] == assigned@[y]->0,
        decreases vertex_count - x,
    {
        let value = match assigned[x] {
            Some(value) => value,
            None => 0,
        };
        potential.push(value);
        x += 1;
    }
    proof {
        let result = gauge(adj, n, n, map, modulus).0.1;
        assert(result == assigned_map(assigned@));
        assert forall|y: usize| y < vertex_count implies #[trigger] result.contains_key(y) by {
            assert(assigned@[y as int] is Some);
        }
        assert forall|y: usize| y < vertex_count implies #[trigger] potential@[y as int] == result[y] by {
            assert(assigned@[y as int] is Some);
        }
        assert forall|y: int| 0 <= y < vertex_count implies #[trigger] potential@[y] < modulus by {
            assert(assigned@[y] is Some);
        }
    }
    potential
}

/// The gauge-fixed coefficient of listed active edge `i`: the cocycle's
/// coefficient plus the potential difference across the edge, modulo the
/// field size.
pub open spec fn gauge_value(
    active: Seq<(usize, usize)>,
    table: Map<(usize, usize), u64>,
    potential: Map<usize, nat>,
    modulus: u32,
    i: int,
) -> nat {
    let (u, v) = active[i];
    ((table_value(table, u, v) + potential[u] + modulus - potential[v]) % (modulus as int)) as nat
}

/// The nonzero gauge-fixed coefficients of the first `count` active edges,
/// by edge position.
pub open spec fn gauge_row(
    active: Seq<(usize, usize)>,
    table: Map<(usize, usize), u64>,
    potential: Map<usize, nat>,
    modulus: u32,
    count: int,
) -> Seq<(usize, u64)>
    decreases count,
{
    if count <= 0 {
        Seq::empty()
    } else {
        let rest = gauge_row(active, table, potential, modulus, count - 1);
        let value = gauge_value(active, table, potential, modulus, count - 1);
        if value != 0 {
            rest.push(((count - 1) as usize, value as u64))
        } else {
            rest
        }
    }
}

/// The gauge-fixed row of a cocycle with coefficient table `table` over the
/// active edges, with the breadth-first potentials of the strictly
/// ascending neighbor lists `adjacency`.
pub open spec fn fixed_row(
    vertex_count: usize,
    active: Seq<(usize, usize)>,
    adjacency: Seq<Seq<usize>>,
    table: Map<(usize, usize), u64>,
    modulus: u32,
) -> Seq<(usize, u64)> {
    let potential = gauge(adjacency, vertex_count as nat, vertex_count as nat, table, modulus).0.1;
    gauge_row(active, table, potential, modulus, active.len() as int)
}

/// Gauge-fixed entries of the active edges under `potential`.
fn adjusted_edge_row(
    vertex_count: usize,
    active: &[(usize, usize)],
    table: &CoefficientTable,
    potential: &Vec<u64>,
    modulus: u32,
    Ghost(potential_map): Ghost<Map<usize, nat>>,
) -> (row: SparseColumn)
    requires
        modulus > 0,
        table_below(coefficient_table(*table), modulus),
        potential@.len() == vertex_count,
        forall|x: int| 0 <= x < vertex_count ==> #[trigger] potential@[x] < modulus,
        forall|x: usize| x < vertex_count ==> #[trigger] potential_map.contains_key(x),
        forall|x: usize| x < vertex_count ==> #[trigger] potential@[x as int] == potential_map[x],
        forall|i: int| 0 <= i < active@.len() ==> (#[trigger] active@[i]).0 < vertex_count && active@[i].1 < vertex_count,
    ensures
        row@ == gauge_row(active@, coefficient_table(*table), potential_map, modulus, active@.len() as int),
        wf_column(row@, modulus as nat),
        forall|t: int| 0 <= t < row@.len() ==> (#[trigger] row@[t]).0 < active@.len(),
{
    let ghost map = coefficient_table(*table);
    let wide = modulus as u64;
    let mut entries: Vec<(usize, u64)> = Vec::new();
    let mut index: usize = 0;
    while index < active.len()
        invariant
            modulus > 0,
            wide == modulus,
            map == coefficient_table(*table),
            table_below(map, modulus),
            potential@.len() == vertex_count,
            forall|x: int| 0 <= x < vertex_count ==> #[trigger] potential@[x] < modulus,
            forall|x: usize| x < vertex_count ==> #[trigger] potential_map.contains_key(x),
            forall|x: usize| x < vertex_count ==> #[trigger] potential@[x as int] == potential_map[x],
            forall|i: int| 0 <= i < active@.len() ==> (#[trigger] active@[i]).0 < vertex_count && active@[i].1 < vertex_count,
            index <= active@.len(),
            entries@ == gauge_row(active@, map, potential_map, modulus, index as int),
            wf_column(entries@, modulus as nat),
            forall|t: int| 0 <= t < entries@.len() ==> (#[trigger] entries@[t]).0 < index,
        decreases active@.len() - index,
    {
        let (u, v) = active[index];
        let original = table_coefficient(table, u, v);
        proof {
            assert(active@[index as int] == (u, v));
            if map.contains_key((u, v)) {
                assert(map[(u, v)] < modulus);
            }
        }
        let adjusted = (original + potential[u] + wide - potential[v]) % wide;
        proof {
            assert(gauge_value(active@, map, potential_map, modulus, index as int) == adjusted as nat);
        }
        if adjusted != 0 {
            let ghost before = entries@;
            entries.push((index, adjusted));
            proof {
                assert forall|i: int, j: int| 0 <= i < j < entries@.len() implies entries@[i].0 < entries@[j].0 by {
                    if j == entries@.len() - 1 {
                        assert(before[i].0 < index);
                    } else {
                        assert(sorted_keys(before));
                    }
                }
                assert(sorted_keys(entries@));
                assert forall|i: int| 0 <= i < entries@.len() implies 0 < #[trigger] entries@[i].1 < modulus as nat by {
                    if i < before.len() {
                        assert(entries@[i] == before[i]);
                    }
                }
            }
        }
        index += 1;
    }
    SparseColumn { entries }
}

/// The breadth-first gauge-fixed row of one cocycle.
fn cocycle_row(
    vertex_count: usize,
    active: &[(usize, usize)],
    adjacency: &Vec<Vec<usize>>,
    terms: &[CocycleTerm],
    modulus: u32,
) -> (row: SparseColumn)
    requires
        modulus > 0,
        forall|t: int| 0 <= t < terms@.len() ==> (#[trigger] terms@[t]).coefficient < modulus,
        strict_neighbor_lists(vertex_count, active@, adjacency@.map_values(|list: Vec<usize>| list@)),
        forall|i: int| 0 <= i < active@.len() ==> (#[trigger] active@[i]).0 < vertex_count && active@[i].1 < vertex_count,
    ensures
        row@ == fixed_row(
            vertex_count,
            active@,
            adjacency@.map_values(|list: Vec<usize>| list@),
            term_table(terms@),
            modulus,
        ),
        wf_column(row@, modulus as nat),
        forall|t: int| 0 <= t < row@.len() ==> (#[trigger] row@[t]).0 < active@.len(),
{
    let mut table = new_coefficient_table();
    let mut index: usize = 0;
    while index < terms.len()
        invariant
            index <= terms@.len(),
            coefficient_table(table) == term_table(terms@.take(index as int)),
        decreases terms@.len() - index,
    {
        let term = terms[index];
        coefficient_table_insert(&mut table, (term.u, term.v), term.coefficient as u64);
        proof {
            assert(terms@.take(index + 1).drop_last() =~= terms@.take(index as int));
            assert(terms@.take(index + 1).last() == term);
        }
        index += 1;
    }
    proof {
        assert(terms@.take(terms@.len() as int) =~= terms@);
        lemma_term_table_below(terms@, modulus);
        let adj = adjacency@.map_values(|list: Vec<usize>| list@);
        assert forall|x: int, k: int| 0 <= x < vertex_count && 0 <= k < adjacency@[x]@.len() implies #[trigger] adjacency@[x]@[k]
            < vertex_count by {
            assert(adj[x] == adjacency@[x]@);
            assert(adj[x].contains(adjacency@[x]@[k]));
            let y = adjacency@[x]@[k];
            assert(adjacent(active@, x as usize, y));
            let i = choose|i: int| 0 <= i < active@.len() && (#[trigger] active@[i] == (x as usize, y) || active@[i] == (y, x as usize));
        }
    }
    let potential = gauge_potential(vertex_count, adjacency, &table, modulus);
    let ghost potential_map = gauge(
        adjacency@.map_values(|list: Vec<usize>| list@),
        vertex_count as nat,
        vertex_count as nat,
        coefficient_table(table),
        modulus,
    ).0.1;
    adjusted_edge_row(vertex_count, active, &table, &potential, modulus, Ghost(potential_map))
}

/// Entry `key` of `sum_{i < n} weights[i] * rows[i]` over the field of `p`
/// elements.
pub open spec fn dense_combination(rows: Seq<Seq<(usize, u64)>>, weights: Seq<int>, n: nat, p: nat, key: usize) -> int
    decreases n,
{
    if n == 0 {
        0
    } else {
        (dense_combination(rows, weights, (n - 1) as nat, p, key) + weights[n - 1] * lookup(rows[n - 1], key)) % (p as int)
    }
}

/// `row` is a combination of `rows` over the field of `p` elements.
pub open spec fn in_row_span(row: Seq<(usize, u64)>, rows: Seq<Seq<(usize, u64)>>, p: nat) -> bool {
    exists|weights: Seq<int>|
        weights.len() == rows.len() && forall|key: usize| #[trigger] lookup(row, key) == dense_combination(rows, weights, rows.len(), p, key)
}

/// Combinations are linear in their weights.
proof fn lemma_dense_linear(
    rows: Seq<Seq<(usize, u64)>>,
    first: Seq<int>,
    second: Seq<int>,
    sum: Seq<int>,
    factor: int,
    n: nat,
    p: nat,
    key: usize,
)
    requires
        p > 0,
        n <= first.len(),
        n <= second.len(),
        n <= sum.len(),
        forall|i: int| 0 <= i < n ==> #[trigger] sum[i] == (first[i] + factor * second[i]) % (p as int),
    ensures
        dense_combination(rows, sum, n, p, key) == (dense_combination(rows, first, n, p, key) + factor
            * dense_combination(rows, second, n, p, key)) % (p as int),
    decreases n,
{
    if n == 0 {
        lemma_small_mod(0, p);
        assert(factor * 0 == 0);
    } else {
        let k = (n - 1) as nat;
        lemma_dense_linear(rows, first, second, sum, factor, k, p, key);
        assert(sum[k as int] == (first[k as int] + factor * second[k as int]) % (p as int));
        lemma_linear_step(
            dense_combination(rows, first, k, p, key),
            dense_combination(rows, second, k, p, key),
            first[k as int],
            second[k as int],
            factor,
            lookup(rows[k as int], key) as int,
            p as int,
        );
    }
}

/// The weight vector picking row `index` forms that row.
proof fn lemma_dense_unit(rows: Seq<Seq<(usize, u64)>>, index: int, n: nat, p: nat, key: usize)
    requires
        p > 0,
        0 <= index,
        n <= rows.len(),
        forall|i: int| 0 <= i < rows.len() ==> wf_column(#[trigger] rows[i], p),
    ensures
        dense_combination(rows, Seq::new(rows.len(), |i: int| if i == index { 1int } else { 0int }), n, p, key) == if index < n {
            lookup(rows[index], key) as int
        } else {
            0
        },
    decreases n,
{
    let unit = Seq::new(rows.len(), |i: int| if i == index { 1int } else { 0int });
    if n > 0 {
        let k = (n - 1) as nat;
        lemma_dense_unit(rows, index, k, p, key);
        lemma_lookup_below(rows[k as int], p, key);
        if k == index {
            lemma_small_mod(lookup(rows[k as int], key), p);
            assert(unit[k as int] == 1);
        } else {
            assert(unit[k as int] == 0);
            if index < k {
                lemma_lookup_below(rows[index], p, key);
                lemma_small_mod(lookup(rows[index], key), p);
            } else {
                lemma_small_mod(0, p);
            }
        }
    }
}

/// The coefficient of `key` in the row.
fn coefficient_at(row: &SparseColumn, key: usize) -> (value: u64)
    ensures
        value == lookup(row@, key),
{
    let mut index: usize = row.entries.len();
    proof {
        assert(row@.take(row@.len() as int) =~= row@);
    }
    while index > 0
        invariant
            index <= row@.len(),
            lookup(row@, key) == lookup(row@.take(index as int), key),
        decreases index,
    {
        let (at, value) = row.entries[index - 1];
        proof {
            assert(row@.take(index as int).drop_last() =~= row@.take(index - 1));
            assert(row@.take(index as int).last() == (at, value));
        }
        if at == key {
            return value;
        }
        index -= 1;
    }
    proof {
        assert(row@.take(0) =~= Seq::<(usize, u64)>::empty());
    }
    0
}

/// The zero weights form the zero row.
proof fn lemma_dense_zero(rows: Seq<Seq<(usize, u64)>>, weights: Seq<int>, n: nat, p: nat, key: usize)
    requires
        p > 0,
        n <= weights.len(),
        forall|i: int| 0 <= i < n ==> #[trigger] weights[i] == 0,
    ensures
        dense_combination(rows, weights, n, p, key) == 0,
    decreases n,
{
    if n > 0 {
        lemma_dense_zero(rows, weights, (n - 1) as nat, p, key);
        assert(weights[n - 1] == 0);
        assert(0 * lookup(rows[n - 1], key) == 0);
        lemma_small_mod(0, p);
    }
}

/// A row whose coefficients below `key` vanish and whose coefficient at
/// `key` is one starts with `(key, 1)`.
proof fn lemma_leading(s: Seq<(usize, u64)>, p: nat, key: usize)
    requires
        wf_column(s, p),
        lookup(s, key) == 1,
        forall|k: usize| k < key ==> #[trigger] lookup(s, k) == 0,
    ensures
        s.len() > 0,
        s[0] == (key, 1u64),
{
    if s.len() == 0 {
        assert(lookup(s, key) == 0);
    }
    if forall|t: int| 0 <= t < s.len() ==> #[trigger] s[t].0 != key {
        lemma_lookup_absent(s, key);
    }
    let t = choose|t: int| 0 <= t < s.len() && #[trigger] s[t].0 == key;
    lemma_lookup_at(s, 0);
    assert(s[0].1 > 0);
    if s[0].0 < key {
        assert(lookup(s, s[0].0) == 0);
    }
    if t > 0 {
        assert(s[0].0 < s[t].0);
    }
    lemma_lookup_at(s, t);
}

/// Coefficients below the first key of a row vanish.
proof fn lemma_below_first(s: Seq<(usize, u64)>, p: nat, key: usize)
    requires
        wf_column(s, p),
        s.len() > 0,
        key < s[0].0,
    ensures
        lookup(s, key) == 0,
{
    assert forall|t: int| 0 <= t < s.len() implies #[trigger] s[t].0 != key by {
        if t > 0 {
            assert(s[0].0 < s[t].0);
        }
    }
    lemma_lookup_absent(s, key);
}

/// Keys whose coefficient vanishes are not stored.
proof fn lemma_keys_below(s: Seq<(usize, u64)>, p: nat, bound: nat)
    requires
        wf_column(s, p),
        forall|k: usize| k >= bound ==> #[trigger] lookup(s, k) == 0,
    ensures
        forall|t: int| 0 <= t < s.len() ==> (#[trigger] s[t]).0 < bound,
{
    assert forall|t: int| 0 <= t < s.len() implies (#[trigger] s[t]).0 < bound by {
        lemma_lookup_at(s, t);
        if s[t].0 >= bound {
            assert(lookup(s, s[t].0) == 0);
        }
    }
}

/// Rows in reduced row echelon form: each starts with coefficient one at
/// its pivot, pivots strictly increase, and each row vanishes at the
/// others' pivots.
pub open spec fn reduced_echelon(rows: Seq<Seq<(usize, u64)>>, p: nat) -> bool {
    &&& forall|j: int| 0 <= j < rows.len() ==> wf_column(#[trigger] rows[j], p) && rows[j].len() > 0 && rows[j][0].1 == 1
    &&& forall|i: int, j: int| 0 <= i < j < rows.len() ==> rows[i][0].0 < rows[j][0].0
    &&& forall|i: int, j: int| 0 <= i < rows.len() && 0 <= j < rows.len() && i != j ==> lookup(rows[i], rows[j][0].0) == 0
}

/// Views of the rows of an elimination state.
pub open spec fn state_rows(rows: Seq<(usize, SparseColumn)>) -> Seq<Seq<(usize, u64)>> {
    rows.map_values(|row: (usize, SparseColumn)| row.1@)
}

/// The elimination state: rows in reduced echelon form keyed by their
/// pivots, each a combination of the given rows with weights `weights`,
/// with keys below `width`.
pub open spec fn elimination_state(
    rows: Seq<(usize, SparseColumn)>,
    weights: Seq<Seq<int>>,
    given: Seq<Seq<(usize, u64)>>,
    p: nat,
    width: nat,
) -> bool {
    let views = state_rows(rows);
    &&& reduced_echelon(views, p)
    &&& forall|j: int| 0 <= j < rows.len() ==> (#[trigger] rows[j]).0 == rows[j].1@[0].0
    &&& weights.len() == rows.len()
    &&& forall|j: int|
        0 <= j < rows.len() ==> (#[trigger] weights[j]).len() == given.len() && forall|key: usize|
            #[trigger] lookup(views[j], key) == dense_combination(given, weights[j], given.len(), p, key)
    &&& forall|j: int, t: int| 0 <= j < rows.len() && 0 <= t < views[j].len() ==> (#[trigger] views[j][t]).0 < width
}

/// Adds `factor` times `source` to the weights `target`, modulo `p`.
spec fn add_weights(target: Seq<int>, source: Seq<int>, factor: int, p: nat) -> Seq<int> {
    Seq::new(target.len(), |t: int| (target[t] + factor * source[t]) % (p as int))
}

/// No weight vector puts weight on a row from `bound` on.
spec fn weights_below(weights: Seq<Seq<int>>, bound: int, k: nat) -> bool {
    forall|a: int, t: int| 0 <= a < weights.len() && bound <= t < k ==> #[trigger] weights[a][t] == 0
}

/// The rows are linearly dependent over the field of `p` elements: a
/// combination with some weight that is nonzero modulo `p` vanishes at
/// every key.
pub open spec fn rows_dependent(rows: Seq<Seq<(usize, u64)>>, p: nat) -> bool {
    exists|weights: Seq<int>|
        #![trigger weights.len()]
        weights.len() == rows.len() && (exists|i: int| 0 <= i < rows.len() && #[trigger] weights[i] % (p as int) != 0)
            && forall|key: usize| #[trigger] dense_combination(rows, weights, rows.len(), p, key) == 0
}

/// Brings the given rows, one after another, into reduced row echelon form:
/// each row is reduced by the rows kept so far, refused when nothing is
/// left of it, scaled to a leading one, and cleared from the kept rows.
fn eliminate(given_rows: &Vec<SparseColumn>, modulus: u32, width: Ghost<nat>) -> (result: Result<
    (Vec<(usize, SparseColumn)>, Ghost<Seq<Seq<int>>>),
    Error,
>)
    requires
        spec_is_prime(modulus as nat),
        modulus <= u32::MAX,
        forall|i: int| 0 <= i < given_rows@.len() ==> wf_column(#[trigger] given_rows@[i]@, modulus as nat),
        forall|i: int, t: int| 0 <= i < given_rows@.len() && 0 <= t < given_rows@[i]@.len() ==> (
        #[trigger] given_rows@[i]@[t]).0 < width@,
    ensures
        result matches Ok((rows, weights)) ==> rows@.len() == given_rows@.len() && elimination_state(
            rows@,
            weights@,
            column_views(given_rows@),
            modulus as nat,
            width@,
        ),
        result matches Err(error) ==> error.spec_message() == "class-space basis contains a coboundary"@
            && rows_dependent(column_views(given_rows@), modulus as nat),
{
    let ghost given = column_views(given_rows@);
    let ghost k = given.len();
    let ghost p = modulus as nat;
    let wide = modulus as u64;
    let mut rows: Vec<(usize, SparseColumn)> = Vec::new();
    let ghost mut weights: Seq<Seq<int>> = Seq::empty();
    proof {
        assert(spec_is_prime(p) ==> p >= 2);
    }
    let mut index: usize = 0;
    while index < given_rows.len()
        invariant
            spec_is_prime(p),
            p >= 2,
            p == modulus,
            wide == modulus,
            given == column_views(given_rows@),
            k == given.len(),
            forall|i: int| 0 <= i < given.len() ==> wf_column(#[trigger] given[i], p),
            forall|i: int, t: int| 0 <= i < given.len() && 0 <= t < given[i].len() ==> (#[trigger] given[i][t]).0 < width@,
            index <= given_rows@.len(),
            rows@.len() == index,
            elimination_state(rows@, weights, given, p, width@),
            weights_below(weights, index as int, k),
        decreases given_rows@.len() - index,
    {
        let mut row = given_rows[index].duplicate();
        let ghost mut row_weights = Seq::new(k, |t: int| if t == index { 1int } else { 0int });
        proof {
            assert(given[index as int] == given_rows@[index as int]@);
            assert forall|key: usize| #[trigger] lookup(row@, key) == dense_combination(given, row_weights, k, p, key) by {
                lemma_dense_unit(given, index as int, k, p, key);
            }
        }
        let mut j: usize = 0;
        while j < rows.len()
            invariant
                spec_is_prime(p),
                p >= 2,
                p == modulus,
                wide == modulus,
                k == given.len(),
                forall|i: int| 0 <= i < given.len() ==> wf_column(#[trigger] given[i], p),
                elimination_state(rows@, weights, given, p, width@),
                wf_column(row@, p),
                row_weights.len() == k,
                forall|key: usize| #[trigger] lookup(row@, key) == dense_combination(given, row_weights, k, p, key),
                forall|t: int| 0 <= t < row@.len() ==> (#[trigger] row@[t]).0 < width@,
                j <= rows@.len(),
                forall|t: int| 0 <= t < j ==> lookup(row@, #[trigger] rows@[t].0) == 0,
                index < k,
                weights_below(weights, index as int, k),
                row_weights[index as int] == 1,
                forall|t: int| index < t < k ==> #[trigger] row_weights[t] == 0,
            decreases rows@.len() - j,
        {
            let pivot = rows[j].0;
            let c = coefficient_at(&row, pivot);
            let ghost views = state_rows(rows@);
            proof {
                assert(views[j as int] == rows@[j as int].1@);
                lemma_lookup_below(row@, p, pivot);
            }
            if c != 0 {
                let ghost before = row@;
                let ghost source = weights[j as int];
                row.add_scaled(&rows[j].1, wide - c, wide);
                proof {
                    let next = add_weights(row_weights, source, (p - c) as int, p);
                    assert forall|key: usize| #[trigger] lookup(row@, key) == dense_combination(given, next, k, p, key) by {
                        lemma_dense_linear(given, row_weights, source, next, (p - c) as int, k, p, key);
                        assert(lookup(views[j as int], key) == dense_combination(given, source, k, p, key));
                    }
                    assert(source[index as int] == 0);
                    assert((p - c) * 0 == 0);
                    lemma_small_mod(1, p);
                    lemma_small_mod(0, p);
                    assert forall|t: int| index < t < k implies #[trigger] next[t] == 0 by {
                        assert(source[t] == 0);
                    }
                    row_weights = next;
                    assert(rows@[j as int].1@[0].0 == pivot);
                    assert(lookup(views[j as int], pivot) == 1) by {
                        lemma_lookup_at(views[j as int], 0);
                    }
                    assert((c + (p - c) * 1) % (p as int) == 0) by {
                        vstd::arithmetic::div_mod::lemma_mod_self_0(p as int);
                    }
                    assert forall|t: int| 0 <= t < j + 1 implies lookup(row@, #[trigger] rows@[t].0) == 0 by {
                        if t < j {
                            assert(rows@[t].0 == views[t][0].0);
                            assert(lookup(views[j as int], views[t][0].0) == 0);
                            lemma_small_mod(0, p);
                            assert((p - c) * 0 == 0);
                        }
                    }
                    assert forall|kk: usize| kk >= width@ implies #[trigger] lookup(row@, kk) == 0 by {
                        assert forall|t: int| 0 <= t < before.len() implies #[trigger] before[t].0 != kk by {}
                        lemma_lookup_absent(before, kk);
                        assert forall|t: int| 0 <= t < views[j as int].len() implies #[trigger] views[j as int][t].0 != kk by {
                            assert(views[j as int][t].0 < width@);
                        }
                        lemma_lookup_absent(views[j as int], kk);
                        assert((p - c) * 0 == 0);
                        lemma_small_mod(0, p);
                    }
                    lemma_keys_below(row@, p, width@);
                }
            }
            j += 1;
        }
        if row.entries.len() == 0 {
            proof {
                assert forall|key: usize| #[trigger] dense_combination(given, row_weights, given.len(), p, key) == 0 by {
                    assert(lookup(row@, key) == 0);
                }
                lemma_small_mod(1, p);
                assert(row_weights[index as int] % (p as int) != 0);
            }
            return Err(Error::InvalidInput(literal("class-space basis contains a coboundary")));
        }
        let (pivot, coefficient) = row.entries[0];
        proof {
            assert(row@[0] == (pivot, coefficient));
            assert(0 < coefficient < p);
        }
        let inverse = inverse_mod(coefficient, wide);
        let mut scaled = SparseColumn::new();
        scaled.add_scaled(&row, inverse, wide);
        let ghost scaled_weights = add_weights(Seq::new(k, |t: int| 0int), row_weights, inverse as int, p);
        proof {
            assert forall|key: usize| #[trigger] lookup(scaled@, key) == dense_combination(given, scaled_weights, k, p, key) by {
                lemma_dense_linear(given, Seq::new(k, |t: int| 0int), row_weights, scaled_weights, inverse as int, k, p, key);
                lemma_dense_zero(given, Seq::new(k, |t: int| 0int), k, p, key);
                lemma_small_mod(lookup(row@, key), p);
                lemma_lookup_below(row@, p, key);
            }
            lemma_inverse_mod_is_inverse(coefficient as nat, p);
            lemma_lookup_at(row@, 0);
            assert(lookup(scaled@, pivot) == 1) by {
                assert(coefficient * inverse == inverse * coefficient) by (nonlinear_arith);
            }
            assert forall|kk: usize| kk < pivot implies #[trigger] lookup(scaled@, kk) == 0 by {
                lemma_below_first(row@, p, kk);
                assert(inverse * 0 == 0);
                lemma_small_mod(0, p);
            }
            lemma_leading(scaled@, p, pivot);
            assert forall|kk: usize| kk >= width@ implies #[trigger] lookup(scaled@, kk) == 0 by {
                assert forall|t: int| 0 <= t < row@.len() implies #[trigger] row@[t].0 != kk by {}
                lemma_lookup_absent(row@, kk);
                assert(inverse * 0 == 0);
                lemma_small_mod(0, p);
            }
            lemma_keys_below(scaled@, p, width@);
            assert forall|t: int| 0 <= t < rows@.len() implies lookup(scaled@, #[trigger] rows@[t].0) == 0 by {
                assert(lookup(row@, rows@[t].0) == 0);
                assert(inverse * 0 == 0);
                lemma_small_mod(0, p);
            }
            assert forall|t: int| index < t < k implies #[trigger] scaled_weights[t] == 0 by {
                assert(row_weights[t] == 0);
                assert(inverse * 0 == 0);
                lemma_small_mod(0, p);
            }
        }
        let mut j: usize = 0;
        while j < rows.len()
            invariant
                spec_is_prime(p),
                p >= 2,
                p == modulus,
                wide == modulus,
                k == given.len(),
                weights.len() == rows@.len(),
                rows@.len() == index,
                wf_column(scaled@, p),
                scaled@.len() > 0,
                scaled@[0] == (pivot, 1u64),
                lookup(scaled@, pivot) == 1,
                forall|kk: usize| kk < pivot ==> #[trigger] lookup(scaled@, kk) == 0,
                forall|t: int| 0 <= t < scaled@.len() ==> (#[trigger] scaled@[t]).0 < width@,
                forall|t: int| 0 <= t < rows@.len() ==> lookup(scaled@, #[trigger] rows@[t].0) == 0,
                scaled_weights.len() == k,
                forall|key: usize| #[trigger] lookup(scaled@, key) == dense_combination(given, scaled_weights, k, p, key),
                elimination_state(rows@, weights, given, p, width@),
                j <= rows@.len(),
                forall|t: int| 0 <= t < j ==> lookup(#[trigger] state_rows(rows@)[t], pivot) == 0,
                weights_below(weights, index + 1, k),
                forall|t: int| index < t < k ==> #[trigger] scaled_weights[t] == 0,
            decreases rows@.len() - j,
        {
            let ghost views = state_rows(rows@);
            let factor = coefficient_at(&rows[j].1, pivot);
            proof {
                assert(views[j as int] == rows@[j as int].1@);
                lemma_lookup_below(views[j as int], p, pivot);
            }
            if factor != 0 {
                let pivot_j = rows[j].0;
                let mut updated = rows[j].1.duplicate();
                updated.add_scaled(&scaled, wide - factor, wide);
                let ghost old_row = views[j as int];
                let ghost next_weights = add_weights(weights[j as int], scaled_weights, (p - factor) as int, p);
                proof {
                    assert forall|key: usize| #[trigger] lookup(updated@, key) == dense_combination(given, next_weights, k, p, key) by {
                        lemma_dense_linear(given, weights[j as int], scaled_weights, next_weights, (p - factor) as int, k, p, key);
                    }
                    assert(pivot_j == old_row[0].0);
                    assert(pivot_j != pivot) by {
                        assert(lookup(scaled@, rows@[j as int].0) == 0);
                    }
                    if pivot < pivot_j {
                        lemma_below_first(old_row, p, pivot);
                    }
                    assert(pivot_j < pivot);
                    assert forall|kk: usize| kk < pivot_j implies #[trigger] lookup(updated@, kk) == 0 by {
                        lemma_below_first(old_row, p, kk);
                        assert((p - factor) * 0 == 0);
                        lemma_small_mod(0, p);
                    }
                    assert(lookup(updated@, pivot_j) == 1) by {
                        lemma_lookup_at(old_row, 0);
                        assert(lookup(scaled@, pivot_j) == 0);
                        assert((p - factor) * 0 == 0);
                        lemma_small_mod(1, p);
                    }
                    lemma_leading(updated@, p, pivot_j);
                    assert((factor + (p - factor) * 1) % (p as int) == 0) by {
                        vstd::arithmetic::div_mod::lemma_mod_self_0(p as int);
                    }
                    assert forall|kk: usize| kk >= width@ implies #[trigger] lookup(updated@, kk) == 0 by {
                        assert forall|t: int| 0 <= t < old_row.len() implies #[trigger] old_row[t].0 != kk by {
                            assert(old_row[t].0 < width@);
                        }
                        lemma_lookup_absent(old_row, kk);
                        assert forall|t: int| 0 <= t < scaled@.len() implies #[trigger] scaled@[t].0 != kk by {}
                        lemma_lookup_absent(scaled@, kk);
                        assert((p - factor) * 0 == 0);
                        lemma_small_mod(0, p);
                    }
                    lemma_keys_below(updated@, p, width@);
                }
                let ghost before_rows = rows@;
                rows.set(j, (pivot_j, updated));
                proof {
                    assert forall|t: int| index < t < k implies #[trigger] next_weights[t] == 0 by {
                        assert(weights[j as int][t] == 0);
                        assert(scaled_weights[t] == 0);
                        assert((p - factor) * 0 == 0);
                        lemma_small_mod(0, p);
                    }
                    weights = weights.update(j as int, next_weights);
                    let after = state_rows(rows@);
                    assert forall|t: int| 0 <= t < after.len() && t != j implies #[trigger] after[t] == views[t] by {}
                    assert(after[j as int] == updated@);
                    assert forall|a: int, b: int| 0 <= a < after.len() && 0 <= b < after.len() && a != b implies lookup(
                        after[a],
                        after[b][0].0,
                    ) == 0 by {
                        assert(after[b][0].0 == views[b][0].0);
                        if a == j {
                            assert(lookup(views[j as int], views[b][0].0) == 0);
                            assert(lookup(scaled@, rows@[b].0) == 0);
                            assert(rows@[b].0 == views[b][0].0);
                            assert((p - factor) * 0 == 0);
                            lemma_small_mod(0, p);
                        }
                    }
                    assert forall|t: int| 0 <= t < j + 1 implies lookup(#[trigger] state_rows(rows@)[t], pivot) == 0 by {
                        if t < j {
                            assert(after[t] == views[t]);
                        }
                    }
                    assert forall|t: int| 0 <= t < rows@.len() implies lookup(scaled@, #[trigger] rows@[t].0) == 0 by {
                        assert(rows@[t].0 == before_rows[t].0);
                    }
                    assert(elimination_state(rows@, weights, given, p, width@));
                }
            }
            j += 1;
        }
        let mut position: usize = 0;
        while position < rows.len() && rows[position].0 < pivot
            invariant
                position <= rows@.len(),
                forall|t: int| 0 <= t < position ==> #[trigger] rows@[t].0 < pivot,
            decreases rows@.len() - position,
        {
            position += 1;
        }
        let ghost before_rows = rows@;
        let ghost before_weights = weights;
        rows.insert(position, (pivot, scaled));
        proof {
            weights = weights.insert(position as int, scaled_weights);
            assert forall|a: int, t: int| 0 <= a < weights.len() && index + 1 <= t < k implies #[trigger] weights[a][t] == 0 by {
                if a < position {
                    assert(weights[a] == before_weights[a]);
                } else if a > position {
                    assert(weights[a] == before_weights[a - 1]);
                }
            }
            let old_views = state_rows(before_rows);
            let views = state_rows(rows@);
            assert forall|t: int| 0 <= t < views.len() implies #[trigger] views[t] == if t < position {
                old_views[t]
            } else if t == position {
                scaled@
            } else {
                old_views[t - 1]
            } by {}
            if position < before_rows.len() {
                assert(before_rows[position as int].0 != pivot) by {
                    assert(lookup(scaled@, before_rows[position as int].0) == 0);
                }
            }
            assert forall|t: int| 0 <= t < before_rows.len() implies #[trigger] old_views[t][0].0 == before_rows[t].0 by {}
            assert forall|j: int| 0 <= j < views.len() implies wf_column(#[trigger] views[j], p) && views[j].len() > 0
                && views[j][0].1 == 1 by {
                if j < position {
                    assert(views[j] == old_views[j]);
                } else if j > position {
                    assert(views[j] == old_views[j - 1]);
                }
            }
            assert forall|a: int, b: int| 0 <= a < b < views.len() implies views[a][0].0 < views[b][0].0 by {
                if b < position {
                    assert(views[a] == old_views[a] && views[b] == old_views[b]);
                } else if b == position {
                    assert(views[a] == old_views[a]);
                    assert(before_rows[a].0 < pivot);
                } else if a < position {
                    assert(views[a] == old_views[a] && views[b] == old_views[b - 1]);
                    if b - 1 > position {
                        assert(old_views[position as int][0].0 < old_views[b - 1][0].0);
                    }
                    assert(before_rows[a].0 < pivot);
                } else if a == position {
                    assert(views[b] == old_views[b - 1]);
                    if b - 1 > position {
                        assert(old_views[position as int][0].0 < old_views[b - 1][0].0);
                    }
                } else {
                    assert(views[a] == old_views[a - 1] && views[b] == old_views[b - 1]);
                }
            }
            assert forall|a: int, b: int| 0 <= a < views.len() && 0 <= b < views.len() && a != b implies lookup(
                views[a],
                views[b][0].0,
            ) == 0 by {
                let a0 = if a < position { a } else { a - 1 };
                let b0 = if b < position { b } else { b - 1 };
                if a == position {
                    assert(views[b] == old_views[b0]);
                    assert(lookup(scaled@, before_rows[b0].0) == 0);
                } else if b == position {
                    assert(views[a] == old_views[a0]);
                    assert(lookup(state_rows(before_rows)[a0], pivot) == 0);
                } else {
                    assert(views[a] == old_views[a0] && views[b] == old_views[b0]);
                }
            }
            assert forall|j: int| 0 <= j < rows@.len() implies (#[trigger] rows@[j]).0 == rows@[j].1@[0].0 by {
                if j < position {
                    assert(rows@[j] == before_rows[j]);
                } else if j > position {
                    assert(rows@[j] == before_rows[j - 1]);
                }
            }
            assert forall|j: int| 0 <= j < rows@.len() implies (#[trigger] weights[j]).len() == given.len() && forall|key: usize|
                #[trigger] lookup(views[j], key) == dense_combination(given, weights[j], given.len(), p, key) by {
                if j < position {
                    assert(views[j] == old_views[j] && weights[j] == before_weights[j]);
                } else if j > position {
                    assert(views[j] == old_views[j - 1] && weights[j] == before_weights[j - 1]);
                }
            }
            assert forall|j: int, t: int| 0 <= j < rows@.len() && 0 <= t < views[j].len() implies (#[trigger] views[j][t]).0
                < width@ by {
                if j < position {
                    assert(views[j] == old_views[j]);
                } else if j > position {
                    assert(views[j] == old_views[j - 1]);
                }
            }
            assert(elimination_state(rows@, weights, given, p, width@));
        }
        index += 1;
    }
    Ok((rows, Ghost(weights)))
}

/// Every cocycle lies in the field of `modulus` at the first one's scale.
pub open spec fn shared_field_and_scale(cocycles: Seq<Cocycle>, modulus: u32) -> bool {
    forall|i: int| 0 <= i < cocycles.len() ==> (#[trigger] cocycles[i]).modulus == modulus && cocycles[i].scale
        == cocycles[0].scale
}

/// The gauge-fixed rows of the cocycles over the active edges.
pub open spec fn gauge_rows(
    vertex_count: usize,
    active: Seq<(usize, usize)>,
    adjacency: Seq<Seq<usize>>,
    cocycles: Seq<Cocycle>,
    modulus: u32,
) -> Seq<Seq<(usize, u64)>> {
    Seq::new(
        cocycles.len(),
        |i: int| fixed_row(vertex_count, active, adjacency, term_table(cocycles[i].terms@), modulus),
    )
}

/// The rows of the basis cocycles, each term at the position of its edge
/// among the active edges.
pub open spec fn basis_rows(basis: Seq<Cocycle>, active: Seq<(usize, usize)>) -> Seq<Seq<(usize, u64)>> {
    Seq::new(
        basis.len(),
        |j: int|
            Seq::new(
                basis[j].terms@.len(),
                |t: int| (position_map(active)[(basis[j].terms@[t].u, basis[j].terms@[t].v)], basis[j].terms@[t].coefficient as u64),
            ),
    )
}

/// `basis` is a canonical basis of the rows `given` over the active edges:
/// as many rows as given, in reduced row echelon form, each a combination
/// of the given rows, on active edges only, in the field and at the scale.
pub open spec fn canonical_basis_of(
    basis: Seq<Cocycle>,
    given: Seq<Seq<(usize, u64)>>,
    active: Seq<(usize, usize)>,
    modulus: u32,
    scale: u64,
) -> bool {
    let rows = basis_rows(basis, active);
    &&& basis.len() == given.len()
    &&& reduced_echelon(rows, modulus as nat)
    &&& forall|j: int| 0 <= j < basis.len() ==> in_row_span(#[trigger] rows[j], given, modulus as nat)
    &&& forall|j: int|
        0 <= j < basis.len() ==> (#[trigger] basis[j]).modulus == modulus && basis[j].scale == scale && forall|t: int|
            0 <= t < basis[j].terms@.len() ==> active.contains((basis[j].terms@[t].u, basis[j].terms@[t].v))
}

/// The cocycle whose terms are the row's entries on the active edges.
fn row_cocycle(row: &SparseColumn, active: &Vec<(usize, usize)>, modulus: u32, scale: u64) -> (cocycle: Cocycle)
    requires
        wf_column(row@, modulus as nat),
        forall|t: int| 0 <= t < row@.len() ==> (#[trigger] row@[t]).0 < active@.len(),
    ensures
        cocycle.modulus == modulus,
        cocycle.scale == scale,
        cocycle.terms@.len() == row@.len(),
        forall|t: int|
            0 <= t < row@.len() ==> (#[trigger] cocycle.terms@[t]).u == active@[row@[t].0 as int].0
                && cocycle.terms@[t].v == active@[row@[t].0 as int].1 && cocycle.terms@[t].coefficient as u64 == row@[t].1,
{
    let mut terms: Vec<CocycleTerm> = Vec::new();
    let mut t: usize = 0;
    while t < row.entries.len()
        invariant
            wf_column(row@, modulus as nat),
            forall|s: int| 0 <= s < row@.len() ==> (#[trigger] row@[s]).0 < active@.len(),
            t <= row@.len(),
            terms@.len() == t,
            forall|s: int|
                0 <= s < t ==> (#[trigger] terms@[s]).u == active@[row@[s].0 as int].0 && terms@[s].v
                    == active@[row@[s].0 as int].1 && terms@[s].coefficient as u64 == row@[s].1,
        decreases row@.len() - t,
    {
        let (index, coefficient) = row.entries[t];
        proof {
            assert(row@[t as int] == (index, coefficient));
            assert(coefficient < modulus);
        }
        let (u, v) = active[index];
        terms.push(CocycleTerm { u, v, coefficient: coefficient as u32 });
        t += 1;
    }
    Cocycle { modulus, scale, terms }
}

/// The canonical basis of one class space: every cocycle is fixed to the
/// gauge that vanishes on the breadth-first spanning forest of the graph's
/// edges at the shared scale, and the fixed rows are brought to reduced
/// row echelon form over the field.
pub fn canonical_space_basis(
    vertex_count: usize,
    edges: &[WeightedEdge],
    modulus: u32,
    cocycles: &[Cocycle],
) -> (result: Result<Vec<Cocycle>, Error>)
    requires
        simple_graph(vertex_count, edges@),
        spec_is_prime(modulus as nat),
        forall|i: int, t: int|
            0 <= i < cocycles@.len() && 0 <= t < cocycles@[i].terms@.len() ==> (#[trigger] cocycles@[i].terms@[t]).coefficient
                < cocycles@[i].modulus,
    ensures
        cocycles@.len() == 0 ==> (result matches Ok(basis) && basis@.len() == 0),
        result matches Ok(basis) ==> basis@.len() == cocycles@.len(),
        cocycles@.len() > 0 && !shared_field_and_scale(cocycles@, modulus) ==> fails_with(
            result,
            "class-space cocycles do not share a field and scale"@,
        ),
        cocycles@.len() > 0 && shared_field_and_scale(cocycles@, modulus) ==> {
            let active = endpoints(active_at(edges@, cocycles@[0].scale));
            &&& result is Err ==> fails_with(result, "class-space basis contains a coboundary"@)
            &&& result is Err ==> forall|adjacency: Seq<Seq<usize>>|
                #[trigger] strict_neighbor_lists(vertex_count, active, adjacency) ==> rows_dependent(
                    gauge_rows(vertex_count, active, adjacency, cocycles@, modulus),
                    modulus as nat,
                )
            &&& result matches Ok(basis) ==> forall|adjacency: Seq<Seq<usize>>|
                #[trigger] strict_neighbor_lists(vertex_count, active, adjacency) ==> canonical_basis_of(
                    basis@,
                    gauge_rows(vertex_count, active, adjacency, cocycles@, modulus),
                    active,
                    modulus,
                    cocycles@[0].scale,
                )
        },
{
    if cocycles.len() == 0 {
        return Ok(Vec::new());
    }
    let scale = cocycles[0].scale;
    let mut index: usize = 0;
    while index < cocycles.len()
        invariant
            index <= cocycles@.len(),
            scale == cocycles@[0].scale,
            forall|i: int| 0 <= i < index ==> (#[trigger] cocycles@[i]).modulus == modulus && cocycles@[i].scale == scale,
        decreases cocycles@.len() - index,
    {
        if cocycles[index].modulus != modulus || cocycles[index].scale != scale {
            return Err(Error::InvalidInput(literal("class-space cocycles do not share a field and scale")));
        }
        index += 1;
    }
    proof {
        assert forall|i: int, t: int| 0 <= i < cocycles@.len() && 0 <= t < cocycles@[i].terms@.len() implies (
        #[trigger] cocycles@[i].terms@[t]).coefficient < modulus by {
            assert(cocycles@[i].modulus == modulus);
        }
    }
    let active = active_edges(edges, scale);
    proof {
        lemma_active_simple(vertex_count, edges@, scale);
        assert forall|i: int| 0 <= i < active@.len() implies (#[trigger] active@[i]).0 < vertex_count && active@[i].1
            < vertex_count by {
            assert(active@[i] == (active_at(edges@, scale)[i].0, active_at(edges@, scale)[i].1));
        }
        assert(edges_within(vertex_count, active@));
    }
    let adjacency = strict_adjacency(vertex_count, active.as_slice());
    let ghost adj = adjacency@.map_values(|list: Vec<usize>| list@);
    let mut rows: Vec<SparseColumn> = Vec::new();
    let mut index: usize = 0;
    while index < cocycles.len()
        invariant
            spec_is_prime(modulus as nat),
            forall|i: int, t: int|
                0 <= i < cocycles@.len() && 0 <= t < cocycles@[i].terms@.len() ==> (#[trigger] cocycles@[i].terms@[t]).coefficient
                    < modulus,
            strict_neighbor_lists(vertex_count, active@, adj),
            adj == adjacency@.map_values(|list: Vec<usize>| list@),
            forall|i: int| 0 <= i < active@.len() ==> (#[trigger] active@[i]).0 < vertex_count && active@[i].1 < vertex_count,
            index <= cocycles@.len(),
            rows@.len() == index,
            forall|i: int| 0 <= i < index ==> #[trigger] rows@[i]@ == fixed_row(vertex_count, active@, adj, term_table(cocycles@[i].terms@), modulus),
            forall|i: int| 0 <= i < index ==> wf_column(#[trigger] rows@[i]@, modulus as nat),
            forall|i: int, t: int| 0 <= i < index && 0 <= t < rows@[i]@.len() ==> (#[trigger] rows@[i]@[t]).0 < active@.len(),
        decreases cocycles@.len() - index,
    {
        proof {
            assert(spec_is_prime(modulus as nat) ==> modulus >= 2);
            assert forall|t: int| 0 <= t < cocycles@[index as int].terms@.len() implies (#[trigger] cocycles@[index as int].terms@[t]).coefficient
                < modulus by {}
        }
        let row = cocycle_row(vertex_count, active.as_slice(), &adjacency, cocycles[index].terms.as_slice(), modulus);
        rows.push(row);
        index += 1;
    }
    let ghost given = column_views(rows@);
    proof {
        assert(given =~= gauge_rows(vertex_count, active@, adj, cocycles@, modulus));
    }
    let (reduced, weights) = match eliminate(&rows, modulus, Ghost(active@.len() as nat)) {
        Ok(pair) => pair,
        Err(error) => {
            proof {
                assert forall|other: Seq<Seq<usize>>| #[trigger] strict_neighbor_lists(vertex_count, active@, other) implies rows_dependent(
                    gauge_rows(vertex_count, active@, other, cocycles@, modulus),
                    modulus as nat,
                ) by {
                    assert forall|x: int| 0 <= x < vertex_count implies #[trigger] other[x] == adj[x] by {
                        lemma_strict_unique(other[x], adj[x]);
                    }
                    assert(other =~= adj);
                }
            }
            return Err(error);
        },
    };
    let mut basis: Vec<Cocycle> = Vec::new();
    let mut j: usize = 0;
    while j < reduced.len()
        invariant
            elimination_state(reduced@, weights@, given, modulus as nat, active@.len() as nat),
            j <= reduced@.len(),
            basis@.len() == j,
            forall|b: int|
                0 <= b < j ==> (#[trigger] basis@[b]).modulus == modulus && basis@[b].scale == scale
                    && basis@[b].terms@.len() == state_rows(reduced@)[b].len() && forall|t: int|
                    0 <= t < state_rows(reduced@)[b].len() ==> basis@[b].terms@[t].u == active@[state_rows(reduced@)[b][t].0 as int].0
                        && basis@[b].terms@[t].v == active@[state_rows(reduced@)[b][t].0 as int].1
                        && basis@[b].terms@[t].coefficient as u64 == state_rows(reduced@)[b][t].1,
        decreases reduced@.len() - j,
    {
        proof {
            assert(state_rows(reduced@)[j as int] == reduced@[j as int].1@);
        }
        let cocycle = row_cocycle(&reduced[j].1, &active, modulus, scale);
        basis.push(cocycle);
        j += 1;
    }
    proof {
        let views = state_rows(reduced@);
        let active_seq = active@;
        assert(distinct_simplices(active_seq)) by {
            assert forall|a: int, b: int| 0 <= a < b < active_seq.len() implies active_seq[a] != active_seq[b] by {
                let listed = active_at(edges@, scale);
                assert(active_seq[a] == (listed[a].0, listed[a].1));
                assert(active_seq[b] == (listed[b].0, listed[b].1));
            }
        }
        let rows_of_basis = basis_rows(basis@, active_seq);
        assert forall|b: int| 0 <= b < basis@.len() implies #[trigger] rows_of_basis[b] == views[b] by {
            assert forall|t: int| 0 <= t < views[b].len() implies rows_of_basis[b][t] == views[b][t] by {
                let index = views[b][t].0;
                assert(index < active_seq.len());
                assert(active_seq.len() == active.len());
                lemma_position_map(active_seq, index as int);
            }
            assert(rows_of_basis[b] =~= views[b]);
        }
        assert(rows_of_basis =~= views);
        assert forall|other: Seq<Seq<usize>>| #[trigger] strict_neighbor_lists(vertex_count, active_seq, other) implies canonical_basis_of(
            basis@,
            gauge_rows(vertex_count, active_seq, other, cocycles@, modulus),
            active_seq,
            modulus,
            scale,
        ) by {
            assert forall|x: int| 0 <= x < vertex_count implies #[trigger] other[x] == adj[x] by {
                lemma_strict_unique(other[x], adj[x]);
            }
            assert(other =~= adj);
            assert forall|b: int| 0 <= b < basis@.len() implies in_row_span(#[trigger] rows_of_basis[b], given, modulus as nat) by {
                assert(weights@[b].len() == given.len());
                assert forall|key: usize| #[trigger] lookup(rows_of_basis[b], key) == dense_combination(given, weights@[b], given.len(), modulus as nat, key) by {
                    assert(lookup(views[b], key) == dense_combination(given, weights@[b], given.len(), modulus as nat, key));
                }
            }
            assert forall|b: int| 0 <= b < basis@.len() implies (#[trigger] basis@[b]).modulus == modulus && basis@[b].scale == scale
                && forall|t: int| 0 <= t < basis@[b].terms@.len() ==> active_seq.contains((basis@[b].terms@[t].u, basis@[b].terms@[t].v)) by {
                assert forall|t: int| 0 <= t < basis@[b].terms@.len() implies active_seq.contains((basis@[b].terms@[t].u, basis@[b].terms@[t].v)) by {
                    let index = views[b][t].0 as int;
                    assert(active_seq[index] == (basis@[b].terms@[t].u, basis@[b].terms@[t].v));
                }
            }
        }
    }
    Ok(basis)
}

} // verus!
