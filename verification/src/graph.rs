//! Undirected graphs given by a vertex count and an edge list, and their
//! sorted neighbor lists.

use vstd::prelude::*;

verus! {

/// Every edge joins two of the first `vertex_count` vertices.
pub open spec fn edges_within(vertex_count: usize, edges: Seq<(usize, usize)>) -> bool {
    forall|i: int| 0 <= i < edges.len() ==> (#[trigger] edges[i]).0 < vertex_count && edges[i].1 < vertex_count
}

/// Values in non-decreasing order.
pub open spec fn ascending(values: Seq<usize>) -> bool {
    forall|i: int, j: int| 0 <= i <= j < values.len() ==> values[i] <= values[j]
}

/// Calls `slice::sort_unstable` on the vector: the same values, as a
/// multiset, in non-decreasing order.
#[verifier::external_body]
pub(crate) fn sort_values(values: &mut Vec<usize>)
    ensures
        final(values)@.to_multiset() == old(values)@.to_multiset(),
        ascending(final(values)@),
{
    values.sort_unstable();
}

/// The number of leading values at most `bound` in an ascending list.
pub fn first_above(values: &[usize], bound: usize) -> (position: usize)
    requires
        ascending(values@),
    ensures
        position <= values@.len(),
        forall|i: int| 0 <= i < position ==> values@[i] <= bound,
        forall|i: int| position <= i < values@.len() ==> values@[i] > bound,
{
    let mut low: usize = 0;
    let mut high: usize = values.len();
    while low < high
        invariant
            ascending(values@),
            low <= high <= values@.len(),
            forall|i: int| 0 <= i < low ==> values@[i] <= bound,
            forall|i: int| high <= i < values@.len() ==> values@[i] > bound,
        decreases high - low,
    {
        let middle = low + (high - low) / 2;
        if values[middle] <= bound {
            low = middle + 1;
        } else {
            high = middle;
        }
    }
    low
}

/// Whether an ascending list holds `value`, by binary search.
pub fn contains_sorted(values: &[usize], value: usize) -> (found: bool)
    requires
        ascending(values@),
    ensures
        found == values@.contains(value),
{
    let mut low: usize = 0;
    let mut high: usize = values.len();
    while low < high
        invariant
            ascending(values@),
            low <= high <= values@.len(),
            forall|i: int| 0 <= i < low ==> values@[i] < value,
            forall|i: int| high <= i < values@.len() ==> values@[i] > value,
        decreases high - low,
    {
        let middle = low + (high - low) / 2;
        if values[middle] == value {
            return true;
        }
        if values[middle] < value {
            low = middle + 1;
        } else {
            high = middle;
        }
    }
    proof {
        if values@.contains(value) {
            let i = choose|i: int| 0 <= i < values@.len() && values@[i] == value;
        }
    }
    false
}

proof fn lemma_push_contains(values: Seq<usize>, last: usize, y: usize)
    ensures
        values.push(last).contains(y) <==> (values.contains(y) || y == last),
{
    let pushed = values.push(last);
    if values.contains(y) {
        let k = choose|k: int| 0 <= k < values.len() && values[k] == y;
        assert(pushed[k] == y);
    }
    if y == last {
        assert(pushed[values.len() as int] == y);
    }
    if pushed.contains(y) {
        let k = choose|k: int| 0 <= k < pushed.len() && pushed[k] == y;
        if k < values.len() {
            assert(values[k] == y);
        }
    }
}

proof fn lemma_adjacent_push(edges: Seq<(usize, usize)>, edge: (usize, usize), a: usize, b: usize)
    ensures
        adjacent(edges.push(edge), a, b) <==> (adjacent(edges, a, b) || edge == (a, b) || edge == (b, a)),
{
    let pushed = edges.push(edge);
    if adjacent(edges, a, b) {
        let i = choose|i: int| 0 <= i < edges.len() && (#[trigger] edges[i] == (a, b) || edges[i] == (b, a));
        assert(pushed[i] == edges[i]);
    }
    if edge == (a, b) || edge == (b, a) {
        assert(pushed[edges.len() as int] == edge);
    }
    if adjacent(pushed, a, b) {
        let i = choose|i: int| 0 <= i < pushed.len() && (#[trigger] pushed[i] == (a, b) || pushed[i] == (b, a));
        if i < edges.len() {
            assert(edges[i] == pushed[i]);
        }
    }
}

/// `a` and `b` are joined by an edge, in either orientation.
pub open spec fn adjacent(edges: Seq<(usize, usize)>, a: usize, b: usize) -> bool {
    exists|i: int| 0 <= i < edges.len() && (#[trigger] edges[i] == (a, b) || edges[i] == (b, a))
}

/// Ascending neighbor lists of the undirected graph on `vertex_count`
/// vertices with the given edges.
pub fn active_adjacency(vertex_count: usize, edges: &[(usize, usize)]) -> (adjacency: Vec<Vec<usize>>)
    requires
        edges_within(vertex_count, edges@),
    ensures
        neighbor_lists(vertex_count, edges@, adjacency@),
{
    let mut adjacency: Vec<Vec<usize>> = Vec::new();
    while adjacency.len() < vertex_count
        invariant
            adjacency.len() <= vertex_count,
            forall|x: int| 0 <= x < adjacency.len() ==> (#[trigger] adjacency@[x])@.len() == 0,
        decreases vertex_count - adjacency.len(),
    {
        adjacency.push(Vec::new());
    }
    let mut index: usize = 0;
    while index < edges.len()
        invariant
            adjacency.len() == vertex_count,
            index <= edges.len(),
            forall|i: int| 0 <= i < edges.len() ==> (#[trigger] edges@[i]).0 < vertex_count && edges@[i].1 < vertex_count,
            forall|x: usize, y: usize|
                x < vertex_count ==> (#[trigger] adjacency@[x as int]@.contains(y) <==> adjacent(edges@.take(index as int), x, y)),
        decreases edges.len() - index,
    {
        let (u, v) = edges[index];
        let ghost before = adjacency@;
        adjacency[u].push(v);
        adjacency[v].push(u);
        proof {
            let prefix = edges@.take(index as int);
            let next = edges@.take(index + 1);
            assert(next =~= prefix.push((u, v)));
            assert forall|x: usize, y: usize| x < vertex_count implies (#[trigger] adjacency@[x as int]@.contains(y)
                <==> adjacent(next, x, y)) by {
                lemma_adjacent_push(prefix, (u, v), x, y);
                let list = adjacency@[x as int]@;
                let old_list = before[x as int]@;
                assert(old_list.contains(y) <==> adjacent(prefix, x, y));
                if x == u && x == v {
                    assert(list =~= old_list.push(v).push(u));
                    lemma_push_contains(old_list, v, y);
                    lemma_push_contains(old_list.push(v), u, y);
                } else if x == u {
                    assert(list =~= old_list.push(v));
                    lemma_push_contains(old_list, v, y);
                } else if x == v {
                    assert(list =~= old_list.push(u));
                    lemma_push_contains(old_list, u, y);
                } else {
                    assert(list =~= old_list);
                }
            }
        }
        index += 1;
    }
    proof {
        assert(edges@.take(edges.len() as int) =~= edges@);
    }
    let mut vertex: usize = 0;
    while vertex < vertex_count
        invariant
            adjacency.len() == vertex_count,
            vertex <= vertex_count,
            forall|x: int| 0 <= x < vertex ==> ascending(#[trigger] adjacency@[x]@),
            forall|x: usize, y: usize|
                x < vertex_count ==> (#[trigger] adjacency@[x as int]@.contains(y) <==> adjacent(edges@, x, y)),
        decreases vertex_count - vertex,
    {
        let ghost before = adjacency@;
        sort_values(&mut adjacency[vertex]);
        proof {
            broadcast use vstd::seq_lib::to_multiset_contains;
            assert forall|y: usize| #[trigger] adjacency@[vertex as int]@.contains(y) == before[vertex as int]@.contains(y) by {
                assert(adjacency@[vertex as int]@.to_multiset().count(y) == before[vertex as int]@.to_multiset().count(y));
            }
        }
        vertex += 1;
    }
    adjacency
}

/// `adjacency` holds, for each of the `vertex_count` vertices, its
/// neighbors in ascending order.
pub open spec fn neighbor_lists(
    vertex_count: usize,
    edges: Seq<(usize, usize)>,
    adjacency: Seq<Vec<usize>>,
) -> bool {
    &&& adjacency.len() == vertex_count
    &&& forall|x: int| 0 <= x < vertex_count ==> ascending(#[trigger] adjacency[x]@)
    &&& forall|x: usize, y: usize|
        x < vertex_count ==> (#[trigger] adjacency[x as int]@.contains(y) <==> adjacent(edges, x, y))
}

/// `u < v < w` span a triangle of the graph.
pub open spec fn is_triangle(edges: Seq<(usize, usize)>, u: usize, v: usize, w: usize) -> bool {
    &&& u < v < w
    &&& adjacent(edges, u, v)
    &&& adjacent(edges, v, w)
    &&& adjacent(edges, u, w)
}

/// Sign bit of an IEEE-754 double.
pub const SIGN_MASK: u64 = 0x8000_0000_0000_0000;

/// Largest magnitude pattern that is not NaN: positive infinity.
pub const INFINITE_MAGNITUDE: u64 = 0x7ff0_0000_0000_0000;

/// The bit pattern is a NaN.
pub open spec fn nan_bits(bits: u64) -> bool {
    bits % SIGN_MASK > INFINITE_MAGNITUDE
}

/// A number that orders doubles that are not NaN as their values do: the
/// magnitude pattern, negated below zero, so that both zeros meet at 0.
pub open spec fn value_key(bits: u64) -> int {
    if bits >= SIGN_MASK {
        -((bits % SIGN_MASK) as int)
    } else {
        bits as int
    }
}

/// The double with pattern `left` is at most the one with pattern
/// `right`; false when either is NaN.
pub open spec fn value_at_most(left: u64, right: u64) -> bool {
    !nan_bits(left) && !nan_bits(right) && value_key(left) <= value_key(right)
}

/// Whether the double with pattern `left` is at most the one with pattern
/// `right`, compared as IEEE-754 values.
pub fn at_most(left: u64, right: u64) -> (result: bool)
    ensures
        result == value_at_most(left, right),
{
    let left_magnitude = left % SIGN_MASK;
    let right_magnitude = right % SIGN_MASK;
    if left_magnitude > INFINITE_MAGNITUDE || right_magnitude > INFINITE_MAGNITUDE {
        return false;
    }
    let left_negative = left >= SIGN_MASK;
    let right_negative = right >= SIGN_MASK;
    if left_negative && right_negative {
        right_magnitude <= left_magnitude
    } else if left_negative {
        true
    } else if right_negative {
        left_magnitude == 0 && right_magnitude == 0
    } else {
        left <= right
    }
}

/// A listed edge `(u, v, length)`, with the length's bit pattern.
pub type WeightedEdge = (usize, usize, u64);

/// The listed edges whose length is at most `scale`, in listed order.
pub open spec fn active_at(edges: Seq<WeightedEdge>, scale: u64) -> Seq<WeightedEdge>
    decreases edges.len(),
{
    if edges.len() == 0 {
        Seq::empty()
    } else {
        let rest = active_at(edges.drop_last(), scale);
        if value_at_most(edges.last().2, scale) {
            rest.push(edges.last())
        } else {
            rest
        }
    }
}

/// The endpoints of each edge.
pub open spec fn endpoints(edges: Seq<WeightedEdge>) -> Seq<(usize, usize)> {
    Seq::new(edges.len(), |i: int| (edges[i].0, edges[i].1))
}

/// The endpoints of the listed edges whose length is at most `scale`.
pub fn active_edges(edges: &[WeightedEdge], scale: u64) -> (active: Vec<(usize, usize)>)
    ensures
        active@ == endpoints(active_at(edges@, scale)),
{
    let mut active: Vec<(usize, usize)> = Vec::new();
    let mut index: usize = 0;
    while index < edges.len()
        invariant
            index <= edges@.len(),
            active@ == endpoints(active_at(edges@.take(index as int), scale)),
        decreases edges@.len() - index,
    {
        let (u, v, value) = edges[index];
        proof {
            assert(edges@.take(index + 1).drop_last() =~= edges@.take(index as int));
            assert(edges@.take(index + 1).last() == edges@[index as int]);
        }
        if at_most(value, scale) {
            active.push((u, v));
            proof {
                assert(active@ =~= endpoints(active_at(edges@.take(index + 1), scale)));
            }
        }
        index += 1;
    }
    proof {
        assert(edges@.take(edges@.len() as int) =~= edges@);
    }
    active
}

/// The listed edges whose length is at most `scale`, with their lengths.
pub fn active_weighted_edges(edges: &[WeightedEdge], scale: u64) -> (active: Vec<WeightedEdge>)
    ensures
        active@ == active_at(edges@, scale),
{
    let mut active: Vec<WeightedEdge> = Vec::new();
    let mut index: usize = 0;
    while index < edges.len()
        invariant
            index <= edges@.len(),
            active@ == active_at(edges@.take(index as int), scale),
        decreases edges@.len() - index,
    {
        let edge = edges[index];
        proof {
            assert(edges@.take(index + 1).drop_last() =~= edges@.take(index as int));
            assert(edges@.take(index + 1).last() == edges@[index as int]);
        }
        if at_most(edge.2, scale) {
            active.push(edge);
        }
        index += 1;
    }
    proof {
        assert(edges@.take(edges@.len() as int) =~= edges@);
    }
    active
}

} // verus!
