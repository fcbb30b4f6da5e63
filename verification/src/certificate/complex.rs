//! The filtered edge and triangle complex of a weighted graph below a
//! threshold, and its boundary matrices.
//!
//! A graph is given by its vertex count and its listed edges
//! `(u, v, length)`, with each length held by its IEEE-754 bit pattern.
//! Simplices are ordered by value with `f64::total_cmp`, then by
//! decreasing colexicographic rank, then by listed position.

use rustc_hash::FxHashMap;
use vstd::prelude::*;

use crate::diagram::INFINITY_BITS;
use crate::graph::{
    value_at_most, active_at, active_weighted_edges, ascending, first_above, sort_values, WeightedEdge, SIGN_MASK,
};
use crate::text::{with_number, with_numbers};

use super::algebra::column_views;
use super::matrix::wf_columns;
use super::model::{CertificateError, CertificateLimits};
use super::sparse::{wf_column, SparseColumn};
use super::order::{is_permutation, key_lt, key_positions, lemma_sorted_keys, positioned, sort_keys, SimplexKey};
use super::verify::{edge_rank, triangle_rank};

verus! {

/// An edge `u < v` of the filtered complex with the pattern of its length.
#[derive(Debug, Clone, Copy, PartialEq, Eq)]
pub struct FilteredEdge {
    /// Endpoints `(u, v)`.
    pub vertices: (usize, usize),
    /// Bit pattern of the edge length.
    pub value: u64,
}

/// The order key of a double under `f64::total_cmp`, as an unsigned
/// number: patterns with the sign bit are reversed below the others.
pub open spec fn total_key(bits: u64) -> u64 {
    if bits >= SIGN_MASK {
        (u64::MAX - bits) as u64
    } else {
        (bits + SIGN_MASK) as u64
    }
}

/// The order key of a double under `f64::total_cmp`.
pub fn total_order_key(bits: u64) -> (key: u64)
    ensures
        key == total_key(bits),
{
    if bits >= SIGN_MASK {
        u64::MAX - bits
    } else {
        bits + SIGN_MASK
    }
}

/// Colexicographic rank of the edge `u < v`.
pub open spec fn spec_edge_rank(u: usize, v: usize) -> int {
    if v >= 1 {
        v * (v - 1) / 2 + u
    } else {
        u as int
    }
}

/// A listed edge as an edge of the complex.
pub open spec fn filtered_edge(edge: WeightedEdge) -> FilteredEdge {
    FilteredEdge { vertices: (edge.0, edge.1), value: edge.2 }
}

/// The sort key of the edge at `position`.
pub open spec fn edge_key(edge: WeightedEdge, position: int) -> SimplexKey {
    (total_key(edge.2), (u128::MAX - spec_edge_rank(edge.0, edge.1)) as u128, position as usize)
}

/// `edges` lists the complex's edges: every active edge exactly once, in
/// the order of their keys.
pub open spec fn orders_edges(edges: Seq<FilteredEdge>, active: Seq<WeightedEdge>) -> bool {
    exists|order: Seq<int>|
        #[trigger] is_permutation(order, active.len()) && edges.len() == active.len() && (forall|j: int|
            0 <= j < edges.len() ==> #[trigger] edges[j] == filtered_edge(active[order[j]])) && (forall|
            i: int,
            j: int,
        |
            0 <= i < j < edges.len() ==> key_lt(
                edge_key(active[order[i]], order[i]),
                edge_key(active[order[j]], order[j]),
            ))
}

/// The edges of length at most `threshold`, in filtration order, when
/// there are at most `maximum` of them.
pub fn filtered_edges(edges: &[WeightedEdge], threshold: u64, maximum: usize) -> (result: Result<
    Vec<FilteredEdge>,
    CertificateError,
>)
    ensures
        result is Ok <==> active_at(edges@, threshold).len() <= maximum,
        result matches Ok(listed) ==> orders_edges(listed@, active_at(edges@, threshold)),
{
    let active = active_weighted_edges(edges, threshold);
    if active.len() > maximum {
        return Err(
            CertificateError::new(
                with_numbers("", active.len(), " filtered edges exceed the limit ", maximum, ""),
            ),
        );
    }
    let mut keys: Vec<SimplexKey> = Vec::new();
    let mut index: usize = 0;
    while index < active.len()
        invariant
            index <= active@.len(),
            keys@.len() == index,
            forall|i: int| 0 <= i < index ==> #[trigger] keys@[i] == edge_key(active@[i], i),
        decreases active@.len() - index,
    {
        let (u, v, value) = active[index];
        let rank = edge_rank([u, v]);
        keys.push((total_order_key(value), u128::MAX - rank, index));
        index += 1;
    }
    let ghost unsorted = keys@;
    sort_keys(&mut keys);
    proof {
        lemma_sorted_keys(unsorted, keys@);
    }
    let mut listed: Vec<FilteredEdge> = Vec::new();
    let mut j: usize = 0;
    while j < keys.len()
        invariant
            keys@.len() == active@.len(),
            j <= keys@.len(),
            listed@.len() == j,
            forall|k: int| 0 <= k < keys@.len() ==> #[trigger] keys@[k] == unsorted[keys@[k].2 as int],
            is_permutation(key_positions(keys@), active@.len() as nat),
            forall|i: int| 0 <= i < unsorted.len() ==> #[trigger] unsorted[i] == edge_key(active@[i], i),
            forall|k: int| 0 <= k < j ==> #[trigger] listed@[k] == filtered_edge(active@[keys@[k].2 as int]),
        decreases keys@.len() - j,
    {
        let position = keys[j].2;
        proof {
            assert(key_positions(keys@)[j as int] == position);
        }
        let (u, v, value) = active[position];
        listed.push(FilteredEdge { vertices: (u, v), value });
        j += 1;
    }
    proof {
        let order = key_positions(keys@);
        assert forall|a: int, b: int| 0 <= a < b < listed@.len() implies key_lt(
            edge_key(active@[order[a]], order[a]),
            edge_key(active@[order[b]], order[b]),
        ) by {
            assert(keys@[a] == unsorted[order[a]]);
            assert(keys@[b] == unsorted[order[b]]);
        }
        assert(forall|k: int| 0 <= k < listed@.len() ==> #[trigger] listed@[k] == filtered_edge(active@[order[k]]));
        assert(is_permutation(order, active@.len() as nat));
    }
    Ok(listed)
}

/// No two filtered edges join the same endpoints.
pub open spec fn distinct_edges(edges: Seq<FilteredEdge>) -> bool {
    forall|i: int, j: int| 0 <= i < j < edges.len() ==> edges[i].vertices != edges[j].vertices
}

/// `(u, v)` is one of the filtered edges.
pub open spec fn has_filtered_edge(edges: Seq<FilteredEdge>, u: usize, v: usize) -> bool {
    exists|i: int| 0 <= i < edges.len() && (#[trigger] edges[i]).vertices == (u, v)
}

/// For each vertex, its ascending list of upper neighbors: `v` is listed
/// under `u` when `(u, v)` is a filtered edge.
pub open spec fn upper_lists(vertex_count: usize, edges: Seq<FilteredEdge>, upper: Seq<Vec<usize>>) -> bool {
    &&& upper.len() == vertex_count
    &&& forall|x: int| 0 <= x < vertex_count ==> ascending(#[trigger] upper[x]@)
    &&& forall|x: usize, y: usize|
        x < vertex_count ==> (#[trigger] upper[x as int]@.contains(y) <==> has_filtered_edge(edges, x, y))
}

/// The ascending upper neighbor lists of the filtered edges.
pub fn upper_adjacency(vertex_count: usize, edges: &[FilteredEdge]) -> (upper: Vec<Vec<usize>>)
    requires
        forall|i: int| 0 <= i < edges@.len() ==> (#[trigger] edges@[i]).vertices.0 < vertex_count,
    ensures
        upper_lists(vertex_count, edges@, upper@),
        distinct_edges(edges@) ==> forall|x: int| 0 <= x < vertex_count ==> (#[trigger] upper@[x])@.no_duplicates(),
{
    let mut upper: Vec<Vec<usize>> = Vec::new();
    while upper.len() < vertex_count
        invariant
            upper.len() <= vertex_count,
            forall|x: int| 0 <= x < upper.len() ==> (#[trigger] upper@[x])@.len() == 0,
        decreases vertex_count - upper.len(),
    {
        upper.push(Vec::new());
    }
    let mut index: usize = 0;
    while index < edges.len()
        invariant
            upper.len() == vertex_count,
            index <= edges@.len(),
            forall|i: int| 0 <= i < edges@.len() ==> (#[trigger] edges@[i]).vertices.0 < vertex_count,
            forall|x: usize, y: usize|
                x < vertex_count ==> (#[trigger] upper@[x as int]@.contains(y) <==> has_filtered_edge(
                    edges@.take(index as int),
                    x,
                    y,
                )),
            distinct_edges(edges@) ==> forall|x: int| 0 <= x < vertex_count ==> (#[trigger] upper@[x])@.no_duplicates(),
        decreases edges@.len() - index,
    {
        let (u, v) = edges[index].vertices;
        let ghost before = upper@;
        upper[u].push(v);
        proof {
            let prefix = edges@.take(index as int);
            let next = edges@.take(index + 1);
            assert(next =~= prefix.push(edges@[index as int]));
            assert forall|x: usize, y: usize| x < vertex_count implies (#[trigger] upper@[x as int]@.contains(y)
                <==> has_filtered_edge(next, x, y)) by {
                let list = upper@[x as int]@;
                let old_list = before[x as int]@;
                if has_filtered_edge(prefix, x, y) {
                    let i = choose|i: int| 0 <= i < prefix.len() && (#[trigger] prefix[i]).vertices == (x, y);
                    assert(next[i] == prefix[i]);
                }
                if has_filtered_edge(next, x, y) {
                    let i = choose|i: int| 0 <= i < next.len() && (#[trigger] next[i]).vertices == (x, y);
                    if i < index {
                        assert(prefix[i] == next[i]);
                    }
                }
                if x == u {
                    assert(list =~= old_list.push(v));
                    assert(next[index as int].vertices == (u, v));
                    if old_list.contains(y) {
                        let k = choose|k: int| 0 <= k < old_list.len() && old_list[k] == y;
                        assert(list[k] == y);
                    }
                    if y == v {
                        assert(list[old_list.len() as int] == y);
                    }
                    if list.contains(y) {
                        let k = choose|k: int| 0 <= k < list.len() && list[k] == y;
                        if k < old_list.len() {
                            assert(old_list[k] == y);
                        }
                    }
                } else {
                    assert(list =~= old_list);
                }
            }
            if distinct_edges(edges@) {
                assert forall|x: int| 0 <= x < vertex_count implies (#[trigger] upper@[x])@.no_duplicates() by {
                    if x == u {
                        let old_list = before[x]@;
                        if old_list.contains(v) {
                            assert(before[u as int]@.contains(v));
                            let i = choose|i: int| 0 <= i < prefix.len() && (#[trigger] prefix[i]).vertices == (u, v);
                            assert(edges@[i] == prefix[i]);
                            assert(edges@[index as int].vertices == (u, v));
                        }
                        assert(upper@[x]@ =~= old_list.push(v));
                        assert forall|a: int, b: int| 0 <= a < upper@[x]@.len() && 0 <= b < upper@[x]@.len() && a != b
                            implies upper@[x]@[a] != upper@[x]@[b] by {
                            if a < old_list.len() && b < old_list.len() {
                            } else if a < old_list.len() {
                                assert(old_list.contains(old_list[a]));
                            } else {
                                assert(old_list.contains(old_list[b]));
                            }
                        }
                    } else {
                        assert(upper@[x] == before[x]);
                    }
                }
            }
        }
        index += 1;
    }
    proof {
        assert(edges@.take(edges@.len() as int) =~= edges@);
    }
    let mut vertex: usize = 0;
    while vertex < vertex_count
        invariant
            upper.len() == vertex_count,
            vertex <= vertex_count,
            forall|x: int| 0 <= x < vertex ==> ascending(#[trigger] upper@[x]@),
            forall|x: usize, y: usize|
                x < vertex_count ==> (#[trigger] upper@[x as int]@.contains(y) <==> has_filtered_edge(edges@, x, y)),
            distinct_edges(edges@) ==> forall|x: int| 0 <= x < vertex_count ==> (#[trigger] upper@[x])@.no_duplicates(),
        decreases vertex_count - vertex,
    {
        let ghost before = upper@;
        sort_values(&mut upper[vertex]);
        proof {
            broadcast use vstd::seq_lib::to_multiset_contains;
            if distinct_edges(edges@) {
                before[vertex as int]@.lemma_multiset_has_no_duplicates();
                upper@[vertex as int]@.lemma_multiset_has_no_duplicates_conv();
            }
            assert forall|y: usize| #[trigger] upper@[vertex as int]@.contains(y) == before[vertex as int]@.contains(y) by {
                assert(upper@[vertex as int]@.to_multiset().count(y) == before[vertex as int]@.to_multiset().count(y));
            }
        }
        vertex += 1;
    }
    upper
}

/// A table from edges `(u, v)` to their rows in the edge boundary matrix.
pub type EdgeRows = FxHashMap<(usize, usize), usize>;

/// The `edge -> row` entries an edge row table holds.
pub uninterp spec fn edge_row_table(rows: EdgeRows) -> Map<(usize, usize), usize>;

/// Calls `FxHashMap::default`: the new table holds no entry.
#[verifier::external_body]
fn new_edge_rows() -> (created: EdgeRows)
    ensures
        edge_row_table(created) =~= Map::empty(),
{
    FxHashMap::default()
}

/// Calls `HashMap::insert` on the table: `edge` now maps to `row`.
#[verifier::external_body]
fn edge_rows_insert(rows: &mut EdgeRows, edge: (usize, usize), row: usize)
    ensures
        edge_row_table(*final(rows)) == edge_row_table(*old(rows)).insert(edge, row),
{
    rows.insert(edge, row);
}

/// Calls `HashMap::get` on the table: the row of `edge`, if any.
#[verifier::external_body]
fn edge_rows_get(rows: &EdgeRows, edge: (usize, usize)) -> (row: Option<usize>)
    ensures
        row == if edge_row_table(*rows).contains_key(edge) {
            Some(edge_row_table(*rows)[edge])
        } else {
            None::<usize>
        },
{
    rows.get(&edge).copied()
}

/// `rows` maps each filtered edge to its position, and nothing else.
pub open spec fn rows_of(edges: Seq<FilteredEdge>, rows: Map<(usize, usize), usize>) -> bool {
    &&& forall|i: int|
        0 <= i < edges.len() ==> rows.contains_key((#[trigger] edges[i]).vertices) && rows[edges[i].vertices] == i
    &&& forall|edge: (usize, usize)| #[trigger] rows.contains_key(edge) ==> has_filtered_edge(edges, edge.0, edge.1)
}

/// The row table of the filtered edges.
pub fn edge_rows(edges: &[FilteredEdge]) -> (rows: EdgeRows)
    requires
        distinct_edges(edges@),
    ensures
        rows_of(edges@, edge_row_table(rows)),
{
    let mut rows = new_edge_rows();
    let mut index: usize = 0;
    while index < edges.len()
        invariant
            index <= edges@.len(),
            distinct_edges(edges@),
            forall|i: int|
                0 <= i < index ==> edge_row_table(rows).contains_key((#[trigger] edges@[i]).vertices)
                    && edge_row_table(rows)[edges@[i].vertices] == i,
            forall|edge: (usize, usize)|
                #[trigger] edge_row_table(rows).contains_key(edge) ==> exists|i: int|
                    0 <= i < index && (#[trigger] edges@[i]).vertices == edge,
        decreases edges@.len() - index,
    {
        let vertices = edges[index].vertices;
        edge_rows_insert(&mut rows, vertices, index);
        proof {
            assert forall|i: int| 0 <= i < index + 1 implies edge_row_table(rows).contains_key(
                (#[trigger] edges@[i]).vertices,
            ) && edge_row_table(rows)[edges@[i].vertices] == i by {
                if i < index {
                    assert(edges@[i].vertices != edges@[index as int].vertices);
                }
            }
            assert forall|edge: (usize, usize)| #[trigger] edge_row_table(rows).contains_key(edge) implies exists|i: int|
                0 <= i < index + 1 && (#[trigger] edges@[i]).vertices == edge by {
                if edge == vertices {
                    assert(edges@[index as int].vertices == edge);
                }
            }
        }
        index += 1;
    }
    rows
}

/// A triangle `u < v < w` of the filtered complex with the pattern of its
/// value, the largest of its edge lengths.
#[derive(Debug, Clone, Copy, PartialEq, Eq)]
pub struct FilteredTriangle {
    /// Vertices `(u, v, w)`.
    pub vertices: (usize, usize, usize),
    /// Bit pattern of the triangle value.
    pub value: u64,
}

/// `u < v < w` and all three edges are filtered edges.
pub open spec fn is_filtered_triangle(edges: Seq<FilteredEdge>, t: (usize, usize, usize)) -> bool {
    &&& t.0 < t.1 < t.2
    &&& has_filtered_edge(edges, t.0, t.1)
    &&& has_filtered_edge(edges, t.0, t.2)
    &&& has_filtered_edge(edges, t.1, t.2)
}

/// The length of the filtered edge `(u, v)`.
pub open spec fn edge_length(edges: Seq<FilteredEdge>, u: usize, v: usize) -> u64 {
    edges[choose|i: int| 0 <= i < edges.len() && (#[trigger] edges[i]).vertices == (u, v)].value
}

/// The larger of two patterns; on non-negative values that are not NaN,
/// the larger value.
pub open spec fn max_bits(first: u64, second: u64) -> u64 {
    if first >= second {
        first
    } else {
        second
    }
}

/// The value of a triangle: the largest of its three edge lengths.
pub open spec fn triangle_length(edges: Seq<FilteredEdge>, t: (usize, usize, usize)) -> u64 {
    max_bits(max_bits(edge_length(edges, t.0, t.1), edge_length(edges, t.0, t.2)), edge_length(edges, t.1, t.2))
}

/// Lexicographic order of vertex triples.
pub open spec fn triple_lt(first: (usize, usize, usize), second: (usize, usize, usize)) -> bool {
    first.0 < second.0 || (first.0 == second.0 && (first.1 < second.1 || (first.1 == second.1 && first.2
        < second.2)))
}

/// `found` lists triangle `t`.
pub open spec fn lists_triangle(found: Seq<FilteredTriangle>, t: (usize, usize, usize)) -> bool {
    exists|k: int| 0 <= k < found.len() && (#[trigger] found[k]).vertices == t
}

/// Every entry is a filtered triangle with its value.
pub open spec fn true_triangles(edges: Seq<FilteredEdge>, found: Seq<FilteredTriangle>) -> bool {
    forall|k: int|
        0 <= k < found.len() ==> is_filtered_triangle(edges, (#[trigger] found[k]).vertices) && found[k].value
            == triangle_length(edges, found[k].vertices)
}

/// Entries in strictly increasing vertex order.
pub open spec fn rising_triangles(found: Seq<FilteredTriangle>) -> bool {
    forall|a: int, b: int| 0 <= a < b < found.len() ==> triple_lt(found[a].vertices, found[b].vertices)
}

/// The filtered edges are a graph `u < v < vertex_count` with distinct
/// edges and lengths that are non-negative and not NaN.
pub open spec fn plain_edges(vertex_count: usize, edges: Seq<FilteredEdge>) -> bool {
    &&& distinct_edges(edges)
    &&& forall|i: int|
        0 <= i < edges.len() ==> (#[trigger] edges[i]).vertices.0 < edges[i].vertices.1 < vertex_count
            && edges[i].value <= INFINITY_BITS
}

/// The length of the filtered edge `(u, v)`, read through its row.
fn length_of(edges: &[FilteredEdge], rows: &EdgeRows, u: usize, v: usize) -> (length: u64)
    requires
        distinct_edges(edges@),
        rows_of(edges@, edge_row_table(*rows)),
        has_filtered_edge(edges@, u, v),
    ensures
        length == edge_length(edges@, u, v),
{
    let row = match edge_rows_get(rows, (u, v)) {
        Some(row) => row,
        None => 0,
    };
    proof {
        let k = choose|k: int| 0 <= k < edges@.len() && (#[trigger] edges@[k]).vertices == (u, v);
        assert(edge_row_table(*rows)[edges@[k].vertices] == k);
    }
    edges[row].value
}

proof fn lemma_lists_grow(found: Seq<FilteredTriangle>, grown: Seq<FilteredTriangle>, t: (usize, usize, usize))
    requires
        found.len() <= grown.len(),
        forall|k: int| 0 <= k < found.len() ==> grown[k] == found[k],
        lists_triangle(found, t),
    ensures
        lists_triangle(grown, t),
{
    let k = choose|k: int| 0 <= k < found.len() && (#[trigger] found[k]).vertices == t;
    assert(grown[k].vertices == t);
}

/// Appends the triangles on the edge `u < v`: one for each common upper
/// neighbor `w` of `u` and `v`, in increasing `w`, with value the largest
/// of the three edge lengths. Fails once more than `maximum` triangles are
/// found.
fn append_edge_triangles(
    vertex_count: usize,
    edges: &[FilteredEdge],
    rows: &EdgeRows,
    upper: &Vec<Vec<usize>>,
    u: usize,
    v: usize,
    maximum: usize,
    found: &mut Vec<FilteredTriangle>,
) -> (result: Result<(), CertificateError>)
    requires
        plain_edges(vertex_count, edges@),
        rows_of(edges@, edge_row_table(*rows)),
        upper_lists(vertex_count, edges@, upper@),
        forall|x: int| 0 <= x < vertex_count ==> (#[trigger] upper@[x])@.no_duplicates(),
        u < vertex_count,
        has_filtered_edge(edges@, u, v),
        true_triangles(edges@, old(found)@),
        rising_triangles(old(found)@),
        old(found)@.len() <= maximum,
        forall|k: int|
            0 <= k < old(found)@.len() ==> (#[trigger] old(found)@[k]).vertices.0 < u || (
            old(found)@[k].vertices.0 == u && old(found)@[k].vertices.1 < v),
    ensures
        true_triangles(edges@, final(found)@),
        rising_triangles(final(found)@),
        old(found)@.len() <= final(found)@.len(),
        forall|k: int| 0 <= k < old(found)@.len() ==> #[trigger] final(found)@[k] == old(found)@[k],
        forall|k: int|
            0 <= k < final(found)@.len() ==> (#[trigger] final(found)@[k]).vertices.0 < u || (
            final(found)@[k].vertices.0 == u && final(found)@[k].vertices.1 <= v),
        result is Ok ==> final(found)@.len() <= maximum && forall|w: usize|
            is_filtered_triangle(edges@, (u, v, w)) ==> #[trigger] lists_triangle(final(found)@, (u, v, w)),
        result is Err ==> final(found)@.len() > maximum,
{
    let ghost start = found@;
    let ghost plain = edges@;
    proof {
        let i = choose|i: int| 0 <= i < edges@.len() && (#[trigger] edges@[i]).vertices == (u, v);
        assert(plain_edges(vertex_count, edges@));
    }
    let first = &upper[u];
    let second = &upper[v];
    let mut a = first_above(first.as_slice(), v);
    let mut b = first_above(second.as_slice(), v);
    let ghost a0 = a;
    let ghost b0 = b;
    while a < first.len() && b < second.len()
        invariant
            plain_edges(vertex_count, edges@),
            rows_of(edges@, edge_row_table(*rows)),
            upper_lists(vertex_count, edges@, upper@),
            forall|x: int| 0 <= x < vertex_count ==> (#[trigger] upper@[x])@.no_duplicates(),
            u < v < vertex_count,
            has_filtered_edge(edges@, u, v),
            first@ == upper@[u as int]@,
            second@ == upper@[v as int]@,
            a0 <= a <= first@.len(),
            b0 <= b <= second@.len(),
            forall|i: int| 0 <= i < a0 ==> first@[i] <= v,
            forall|i: int| a0 <= i < first@.len() ==> first@[i] > v,
            forall|j: int| 0 <= j < b0 ==> second@[j] <= v,
            forall|j: int| b0 <= j < second@.len() ==> second@[j] > v,
            true_triangles(edges@, found@),
            rising_triangles(found@),
            found@.len() <= maximum,
            start == old(found)@,
            start.len() <= found@.len(),
            forall|k: int| 0 <= k < start.len() ==> #[trigger] found@[k] == start[k],
            forall|k: int|
                0 <= k < found@.len() ==> (#[trigger] found@[k]).vertices.0 < u || (found@[k].vertices.0 == u
                    && found@[k].vertices.1 <= v),
            a < first@.len() ==> forall|k: int|
                0 <= k < found@.len() ==> triple_lt((#[trigger] found@[k]).vertices, (u, v, first@[a as int])),
            forall|i: int, j: int|
                #![trigger first@[i], second@[j]]
                a0 <= i < a && b0 <= j < second@.len() && first@[i] == second@[j] ==> lists_triangle(
                    found@,
                    (u, v, first@[i]),
                ),
            forall|i: int, j: int|
                #![trigger first@[i], second@[j]]
                a0 <= i < first@.len() && b0 <= j < b && first@[i] == second@[j] ==> lists_triangle(
                    found@,
                    (u, v, second@[j]),
                ),
        decreases first@.len() - a + second@.len() - b,
    {
        let left = first[a];
        let right = second[b];
        proof {
            assert(ascending(first@));
            assert(first@.no_duplicates());
        }
        if left < right {
            proof {
                if a + 1 < first@.len() {
                    assert(first@[a as int] != first@[a + 1]);
                }
            }
            a += 1;
        } else if left > right {
            b += 1;
        } else {
            let w = left;
            proof {
                assert(upper@[u as int]@.contains(w));
                assert(upper@[v as int]@.contains(w));
                let i = choose|i: int| 0 <= i < edges@.len() && (#[trigger] edges@[i]).vertices == (u, w);
                assert(plain_edges(vertex_count, edges@));
            }
            let uv = length_of(edges, rows, u, v);
            let uw = length_of(edges, rows, u, w);
            let vw = length_of(edges, rows, v, w);
            let low = if uv >= uw { uv } else { uw };
            let value = if low >= vw { low } else { vw };
            let ghost before = found@;
            found.push(FilteredTriangle { vertices: (u, v, w), value });
            proof {
                assert(found@[before.len() as int].vertices == (u, v, w));
                assert forall|i: int, j: int|
                    #![trigger first@[i], second@[j]]
                    a0 <= i < a + 1 && b0 <= j < second@.len() && first@[i] == second@[j] implies lists_triangle(
                        found@,
                        (u, v, first@[i]),
                    ) by {
                    if i < a {
                        lemma_lists_grow(before, found@, (u, v, first@[i]));
                    }
                }
                assert forall|i: int, j: int|
                    #![trigger first@[i], second@[j]]
                    a0 <= i < first@.len() && b0 <= j < b + 1 && first@[i] == second@[j] implies lists_triangle(
                        found@,
                        (u, v, second@[j]),
                    ) by {
                    if j < b {
                        lemma_lists_grow(before, found@, (u, v, second@[j]));
                    }
                }
                if a + 1 < first@.len() {
                    assert(first@[a as int] != first@[a + 1]);
                }
                assert forall|k: int| 0 <= k < start.len() implies #[trigger] found@[k] == start[k] by {
                    assert(before[k] == start[k]);
                }
            }
            if found.len() > maximum {
                return Err(CertificateError::new(with_number("triangle count exceeds the limit ", maximum, "")));
            }
            a += 1;
            b += 1;
        }
    }
    proof {
        assert forall|w: usize| is_filtered_triangle(edges@, (u, v, w)) implies #[trigger] lists_triangle(
            found@,
            (u, v, w),
        ) by {
            assert(upper@[u as int]@.contains(w));
            assert(upper@[v as int]@.contains(w));
            let i = choose|i: int| 0 <= i < first@.len() && first@[i] == w;
            let j = choose|j: int| 0 <= j < second@.len() && second@[j] == w;
            assert(first@[i] == second@[j]);
        }
    }
    Ok(())
}

/// Colexicographic rank of the triangle `u < v < w`.
pub open spec fn spec_triangle_rank(t: (usize, usize, usize)) -> int {
    t.0 + (if t.1 >= 1 {
        t.1 * (t.1 - 1) / 2
    } else {
        0
    }) + (if t.2 >= 2 {
        t.2 * (t.2 - 1) * (t.2 - 2) / 6
    } else {
        0
    })
}

/// The value key and reversed rank of a triangle, as sorted.
pub open spec fn triangle_order_le(first: FilteredTriangle, second: FilteredTriangle) -> bool {
    let a = (total_key(first.value), (u128::MAX - spec_triangle_rank(first.vertices)) as u128);
    let b = (total_key(second.value), (u128::MAX - spec_triangle_rank(second.vertices)) as u128);
    a.0 < b.0 || (a.0 == b.0 && a.1 <= b.1)
}

/// `listed` holds every filtered triangle exactly once, with its value.
pub open spec fn lists_all_triangles(edges: Seq<FilteredEdge>, listed: Seq<FilteredTriangle>) -> bool {
    &&& true_triangles(edges, listed)
    &&& forall|a: int, b: int| 0 <= a < b < listed.len() ==> listed[a].vertices != listed[b].vertices
    &&& forall|t: (usize, usize, usize)| is_filtered_triangle(edges, t) ==> #[trigger] lists_triangle(listed, t)
}

/// The triangles of the filtered edges in filtration order, when there
/// are at most `maximum` of them.
pub fn filtered_triangles(
    vertex_count: usize,
    edges: &[FilteredEdge],
    rows: &EdgeRows,
    maximum: usize,
) -> (result: Result<Vec<FilteredTriangle>, CertificateError>)
    requires
        plain_edges(vertex_count, edges@),
        rows_of(edges@, edge_row_table(*rows)),
        vertex_count <= 0x400_0000_0000,
    ensures
        result matches Ok(listed) ==> {
            &&& listed@.len() <= maximum
            &&& lists_all_triangles(edges@, listed@)
            &&& forall|a: int, b: int| 0 <= a < b < listed@.len() ==> triangle_order_le(listed@[a], listed@[b])
        },
        result is Err ==> exists|found: Seq<FilteredTriangle>|
            found.len() > maximum && true_triangles(edges@, found) && #[trigger] rising_triangles(found),
{
    let upper = upper_adjacency(vertex_count, edges);
    let mut found: Vec<FilteredTriangle> = Vec::new();
    let mut u: usize = 0;
    while u < vertex_count
        invariant
            plain_edges(vertex_count, edges@),
            rows_of(edges@, edge_row_table(*rows)),
            upper_lists(vertex_count, edges@, upper@),
            forall|x: int| 0 <= x < vertex_count ==> (#[trigger] upper@[x])@.no_duplicates(),
            u <= vertex_count,
            true_triangles(edges@, found@),
            rising_triangles(found@),
            found@.len() <= maximum,
            forall|k: int| 0 <= k < found@.len() ==> (#[trigger] found@[k]).vertices.0 < u,
            forall|t: (usize, usize, usize)|
                is_filtered_triangle(edges@, t) && t.0 < u ==> #[trigger] lists_triangle(found@, t),
        decreases vertex_count - u,
    {
        let neighbors = &upper[u];
        let mut j: usize = 0;
        while j < neighbors.len()
            invariant
                plain_edges(vertex_count, edges@),
                rows_of(edges@, edge_row_table(*rows)),
                upper_lists(vertex_count, edges@, upper@),
                forall|x: int| 0 <= x < vertex_count ==> (#[trigger] upper@[x])@.no_duplicates(),
                u < vertex_count,
                neighbors@ == upper@[u as int]@,
                j <= neighbors@.len(),
                true_triangles(edges@, found@),
                rising_triangles(found@),
                found@.len() <= maximum,
                forall|k: int|
                    0 <= k < found@.len() ==> (#[trigger] found@[k]).vertices.0 < u || (found@[k].vertices.0 == u
                        && j > 0 && found@[k].vertices.1 <= neighbors@[j - 1]),
                forall|t: (usize, usize, usize)|
                    is_filtered_triangle(edges@, t) && t.0 < u ==> #[trigger] lists_triangle(found@, t),
                forall|i: int, c: usize|
                    0 <= i < j && is_filtered_triangle(edges@, (u, neighbors@[i], c)) ==> #[trigger] lists_triangle(
                        found@,
                        (u, neighbors@[i], c),
                    ),
            decreases neighbors@.len() - j,
        {
            let v = neighbors[j];
            proof {
                assert(upper@[u as int]@.contains(v));
                assert(ascending(neighbors@));
                assert(neighbors@.no_duplicates());
                if j > 0 {
                    assert(neighbors@[j - 1] != neighbors@[j as int]);
                }
            }
            let ghost before = found@;
            let appended = append_edge_triangles(vertex_count, edges, rows, &upper, u, v, maximum, &mut found);
            if appended.is_err() {
                return Err(appended.unwrap_err());
            }
            proof {
                assert forall|t: (usize, usize, usize)| is_filtered_triangle(edges@, t) && t.0 < u implies #[trigger] lists_triangle(
                    found@,
                    t,
                ) by {
                    lemma_lists_grow(before, found@, t);
                }
                assert forall|i: int, c: usize| 0 <= i < j + 1 && is_filtered_triangle(edges@, (u, neighbors@[i], c)) implies #[trigger] lists_triangle(
                    found@,
                    (u, neighbors@[i], c),
                ) by {
                    if i < j {
                        lemma_lists_grow(before, found@, (u, neighbors@[i], c));
                    }
                }
            }
            j += 1;
        }
        proof {
            assert forall|t: (usize, usize, usize)| is_filtered_triangle(edges@, t) && t.0 < u + 1 implies #[trigger] lists_triangle(
                found@,
                t,
            ) by {
                if t.0 == u {
                    assert(upper@[u as int]@.contains(t.1));
                    let i = choose|i: int| 0 <= i < neighbors@.len() && neighbors@[i] == t.1;
                    assert(lists_triangle(found@, (u, neighbors@[i], t.2)));
                }
            }
        }
        u += 1;
    }
    proof {
        assert forall|t: (usize, usize, usize)| is_filtered_triangle(edges@, t) implies #[trigger] lists_triangle(found@, t) by {
            let i = choose|i: int| 0 <= i < edges@.len() && (#[trigger] edges@[i]).vertices == (t.0, t.1);
            assert(plain_edges(vertex_count, edges@));
        }
    }
    let mut keys: Vec<SimplexKey> = Vec::new();
    let mut index: usize = 0;
    while index < found.len()
        invariant
            plain_edges(vertex_count, edges@),
            vertex_count <= 0x400_0000_0000,
            true_triangles(edges@, found@),
            index <= found@.len(),
            keys@.len() == index,
            forall|k: int|
                0 <= k < index ==> #[trigger] keys@[k] == (
                    total_key(found@[k].value),
                    (u128::MAX - spec_triangle_rank(found@[k].vertices)) as u128,
                    k as usize,
                ),
        decreases found@.len() - index,
    {
        let triangle = found[index];
        let (a, b, c) = triangle.vertices;
        proof {
            assert(is_filtered_triangle(edges@, found@[index as int].vertices));
            let i = choose|i: int| 0 <= i < edges@.len() && (#[trigger] edges@[i]).vertices == (b, c);
            assert(plain_edges(vertex_count, edges@));
        }
        let rank = triangle_rank([a, b, c]);
        keys.push((total_order_key(triangle.value), u128::MAX - rank, index));
        index += 1;
    }
    let ghost unsorted = keys@;
    sort_keys(&mut keys);
    proof {
        lemma_sorted_keys(unsorted, keys@);
    }
    let mut listed: Vec<FilteredTriangle> = Vec::new();
    let mut j: usize = 0;
    while j < keys.len()
        invariant
            keys@.len() == found@.len(),
            j <= keys@.len(),
            listed@.len() == j,
            forall|k: int| 0 <= k < keys@.len() ==> #[trigger] keys@[k] == unsorted[keys@[k].2 as int],
            is_permutation(key_positions(keys@), found@.len() as nat),
            forall|k: int| 0 <= k < j ==> #[trigger] listed@[k] == found@[keys@[k].2 as int],
        decreases keys@.len() - j,
    {
        let position = keys[j].2;
        proof {
            assert(key_positions(keys@)[j as int] == position);
        }
        listed.push(found[position]);
        j += 1;
    }
    proof {
        let order = key_positions(keys@);
        assert forall|a: int, b: int| 0 <= a < b < listed@.len() implies triangle_order_le(listed@[a], listed@[b]) by {
            assert(keys@[a] == unsorted[order[a]]);
            assert(keys@[b] == unsorted[order[b]]);
            assert(key_lt(keys@[a], keys@[b]));
        }
        assert forall|k: int| 0 <= k < listed@.len() implies is_filtered_triangle(edges@, (#[trigger] listed@[k]).vertices)
            && listed@[k].value == triangle_length(edges@, listed@[k].vertices) by {
            assert(listed@[k] == found@[order[k]]);
        }
        assert forall|a: int, b: int| 0 <= a < b < listed@.len() implies listed@[a].vertices != listed@[b].vertices by {
            assert(order[a] != order[b]);
            if order[a] < order[b] {
                assert(triple_lt(found@[order[a]].vertices, found@[order[b]].vertices));
            } else {
                assert(triple_lt(found@[order[b]].vertices, found@[order[a]].vertices));
            }
        }
        assert forall|t: (usize, usize, usize)| is_filtered_triangle(edges@, t) implies #[trigger] lists_triangle(listed@, t) by {
            assert(lists_triangle(found@, t));
            let k = choose|k: int| 0 <= k < found@.len() && (#[trigger] found@[k]).vertices == t;
            assert(super::order::lists(order, found@.len() as nat, k));
            let j = choose|j: int| 0 <= j < found@.len() && #[trigger] order[j] == k;
            assert(listed@[j] == found@[k]);
        }
    }
    Ok(listed)
}

/// Listed edges `u < v < vertex_count` in strictly increasing endpoint
/// order, each length non-negative and not NaN.
pub open spec fn simple_graph(vertex_count: usize, edges: Seq<WeightedEdge>) -> bool {
    &&& forall|i: int|
        0 <= i < edges.len() ==> (#[trigger] edges[i]).0 < edges[i].1 < vertex_count && edges[i].2 <= INFINITY_BITS
    &&& forall|i: int, j: int|
        0 <= i < j < edges.len() ==> edges[i].0 < edges[j].0 || (edges[i].0 == edges[j].0 && edges[i].1
            < edges[j].1)
}

pub proof fn lemma_active_simple(vertex_count: usize, edges: Seq<WeightedEdge>, threshold: u64)
    requires
        simple_graph(vertex_count, edges),
    ensures
        simple_graph(vertex_count, active_at(edges, threshold)),
        forall|i: int| 0 <= i < active_at(edges, threshold).len() ==> edges.contains(#[trigger] active_at(edges, threshold)[i]),
    decreases edges.len(),
{
    if edges.len() > 0 {
        let rest = edges.drop_last();
        assert(simple_graph(vertex_count, rest)) by {
            assert forall|i: int| 0 <= i < rest.len() implies (#[trigger] rest[i]).0 < rest[i].1 < vertex_count && rest[i].2 <= INFINITY_BITS by {
                assert(rest[i] == edges[i]);
            }
            assert forall|i: int, j: int| 0 <= i < j < rest.len() implies rest[i].0 < rest[j].0 || (rest[i].0 == rest[j].0 && rest[i].1 < rest[j].1) by {
                assert(rest[i] == edges[i] && rest[j] == edges[j]);
            }
        }
        lemma_active_simple(vertex_count, rest, threshold);
        let previous = active_at(rest, threshold);
        let last = edges.last();
        assert(last == edges[edges.len() - 1]);
        assert forall|i: int| 0 <= i < previous.len() implies edges.contains(#[trigger] previous[i]) by {
            assert(rest.contains(previous[i]));
            let k = choose|k: int| 0 <= k < rest.len() && rest[k] == previous[i];
            assert(edges[k] == rest[k]);
        }
        if value_at_most(last.2, threshold) {
            let active = previous.push(last);
            assert(active_at(edges, threshold) == active);
            assert forall|i: int, j: int| 0 <= i < j < active.len() implies active[i].0 < active[j].0 || (active[i].0 == active[j].0 && active[i].1 < active[j].1) by {
                if j == active.len() - 1 {
                    assert(edges.contains(previous[i]));
                    let k = choose|k: int| 0 <= k < edges.len() && edges[k] == previous[i];
                    let kk = choose|kk: int| 0 <= kk < rest.len() && rest[kk] == previous[i];
                    assert(edges[kk] == previous[i]);
                    assert(kk < edges.len() - 1);
                } else {
                    assert(active[i] == previous[i] && active[j] == previous[j]);
                }
            }
            assert forall|i: int| 0 <= i < active.len() implies edges.contains(#[trigger] active[i]) by {
                if i < previous.len() {
                    assert(active[i] == previous[i]);
                } else {
                    assert(edges[edges.len() - 1] == active[i]);
                }
            }
        }
    }
}

/// `(u, v)` is an edge of the graph that is present at `threshold`.
pub open spec fn active_pair(input: Seq<WeightedEdge>, threshold: u64, u: usize, v: usize) -> bool {
    exists|i: int|
        0 <= i < active_at(input, threshold).len() && (#[trigger] active_at(input, threshold)[i]).0 == u
            && active_at(input, threshold)[i].1 == v
}

/// `t` is a triangle `u < v < w` of the graph present at `threshold`.
pub open spec fn active_triangle(input: Seq<WeightedEdge>, threshold: u64, t: (usize, usize, usize)) -> bool {
    &&& t.0 < t.1 < t.2
    &&& active_pair(input, threshold, t.0, t.1)
    &&& active_pair(input, threshold, t.0, t.2)
    &&& active_pair(input, threshold, t.1, t.2)
}

/// The graph present at `threshold` has more than `maximum` triangles: a
/// strictly rising list of them is longer than `maximum`.
pub open spec fn more_triangles_than(input: Seq<WeightedEdge>, threshold: u64, maximum: usize) -> bool {
    exists|found: Seq<(usize, usize, usize)>|
        #![trigger found.len()]
        found.len() > maximum && (forall|k: int| 0 <= k < found.len() ==> active_triangle(input, threshold, #[trigger] found[k]))
            && (forall|a: int, b: int| 0 <= a < b < found.len() ==> triple_lt(found[a], found[b]))
}

/// A listed edge of the complex is an edge of the graph present at the
/// threshold.
proof fn lemma_filtered_edge_active(
    edges: Seq<FilteredEdge>,
    input: Seq<WeightedEdge>,
    threshold: u64,
    u: usize,
    v: usize,
)
    requires
        orders_edges(edges, active_at(input, threshold)),
        has_filtered_edge(edges, u, v),
    ensures
        active_pair(input, threshold, u, v),
{
    let active = active_at(input, threshold);
    let order = choose|order: Seq<int>|
        #[trigger] is_permutation(order, active.len()) && edges.len() == active.len() && (forall|j: int|
            0 <= j < edges.len() ==> #[trigger] edges[j] == filtered_edge(active[order[j]])) && (forall|
            i: int,
            j: int,
        |
            0 <= i < j < edges.len() ==> key_lt(
                edge_key(active[order[i]], order[i]),
                edge_key(active[order[j]], order[j]),
            ));
    let i = choose|i: int| 0 <= i < edges.len() && (#[trigger] edges[i]).vertices == (u, v);
    assert(edges[i] == filtered_edge(active[order[i]]));
    assert(0 <= order[i] < active.len());
    assert(active[order[i]].0 == u && active[order[i]].1 == v);
}

/// The filtered edges and triangles of a graph below a threshold.
pub struct FilteredComplex {
    /// Vertex count of the graph.
    pub vertex_count: usize,
    /// Edges in filtration order.
    pub edges: Vec<FilteredEdge>,
    /// Triangles in filtration order.
    pub triangles: Vec<FilteredTriangle>,
    /// Row of each edge in the edge boundary matrix.
    pub edge_rows: EdgeRows,
}

impl FilteredComplex {
    /// The complex is the filtered complex of the graph below `threshold`.
    pub open spec fn filters(
        &self,
        vertex_count: usize,
        input: Seq<WeightedEdge>,
        threshold: u64,
    ) -> bool {
        &&& self.vertex_count == vertex_count
        &&& orders_edges(self.edges@, active_at(input, threshold))
        &&& plain_edges(vertex_count, self.edges@)
        &&& rows_of(self.edges@, edge_row_table(self.edge_rows))
        &&& lists_all_triangles(self.edges@, self.triangles@)
        &&& forall|a: int, b: int|
            0 <= a < b < self.triangles@.len() ==> triangle_order_le(self.triangles@[a], self.triangles@[b])
    }

    /// Builds the filtered complex of the graph with the listed edges below
    /// `threshold`, within the edge and triangle limits.
    pub fn build(
        vertex_count: usize,
        input: &[WeightedEdge],
        threshold: u64,
        limits: CertificateLimits,
    ) -> (result: Result<Self, CertificateError>)
        requires
            simple_graph(vertex_count, input@),
            vertex_count <= 0x400_0000_0000,
        ensures
            result matches Ok(complex) ==> complex.filters(vertex_count, input@, threshold)
                && complex.triangles@.len() <= limits.max_triangles,
            active_at(input@, threshold).len() > limits.max_edges ==> result is Err,
            result is Err ==> active_at(input@, threshold).len() > limits.max_edges || more_triangles_than(
                input@,
                threshold,
                limits.max_triangles,
            ),
    {
        let edges = filtered_edges(input, threshold, limits.max_edges)?;
        proof {
            let active = active_at(input@, threshold);
            lemma_active_simple(vertex_count, input@, threshold);
            let order = choose|order: Seq<int>|
                #[trigger] is_permutation(order, active.len()) && edges@.len() == active.len() && (forall|j: int|
                    0 <= j < edges@.len() ==> #[trigger] edges@[j] == filtered_edge(active[order[j]])) && (forall|
                    i: int,
                    j: int,
                |
                    0 <= i < j < edges@.len() ==> key_lt(
                        edge_key(active[order[i]], order[i]),
                        edge_key(active[order[j]], order[j]),
                    ));
            assert forall|a: int, b: int| 0 <= a < b < edges@.len() implies edges@[a].vertices != edges@[b].vertices by {
                assert(edges@[a] == filtered_edge(active[order[a]]));
                assert(edges@[b] == filtered_edge(active[order[b]]));
                assert(order[a] != order[b]);
                if order[a] < order[b] {
                    assert(simple_graph(vertex_count, active));
                } else {
                    assert(simple_graph(vertex_count, active));
                }
            }
            assert forall|i: int| 0 <= i < edges@.len() implies (#[trigger] edges@[i]).vertices.0 < edges@[i].vertices.1
                < vertex_count && edges@[i].value <= INFINITY_BITS by {
                assert(edges@[i] == filtered_edge(active[order[i]]));
            }
        }
        let rows = edge_rows(edges.as_slice());
        let triangles = match filtered_triangles(vertex_count, edges.as_slice(), &rows, limits.max_triangles) {
            Ok(triangles) => triangles,
            Err(error) => {
                proof {
                    let found = choose|found: Seq<FilteredTriangle>|
                        found.len() > limits.max_triangles && true_triangles(edges@, found) && #[trigger] rising_triangles(found);
                    let listed = found.map_values(|t: FilteredTriangle| t.vertices);
                    assert forall|k: int| 0 <= k < listed.len() implies active_triangle(input@, threshold, #[trigger] listed[k]) by {
                        assert(is_filtered_triangle(edges@, found[k].vertices));
                        let t = found[k].vertices;
                        lemma_filtered_edge_active(edges@, input@, threshold, t.0, t.1);
                        lemma_filtered_edge_active(edges@, input@, threshold, t.0, t.2);
                        lemma_filtered_edge_active(edges@, input@, threshold, t.1, t.2);
                    }
                    assert(listed.len() > limits.max_triangles);
                }
                return Err(error);
            },
        };
        Ok(FilteredComplex { vertex_count, edges, triangles, edge_rows: rows })
    }
}

/// The boundary of an edge `u < v` over the field of `p` elements:
/// `-1` at `u` and `1` at `v`.
pub open spec fn edge_boundary(edge: FilteredEdge, p: nat) -> Seq<(usize, u64)> {
    seq![(edge.vertices.0, (p - 1) as u64), (edge.vertices.1, 1u64)]
}

/// Three entries with distinct rows, in ascending row order.
pub open spec fn sorted_entries(a: (usize, u64), b: (usize, u64), c: (usize, u64)) -> Seq<(usize, u64)> {
    if a.0 < b.0 {
        if b.0 < c.0 {
            seq![a, b, c]
        } else if a.0 < c.0 {
            seq![a, c, b]
        } else {
            seq![c, a, b]
        }
    } else {
        if a.0 < c.0 {
            seq![b, a, c]
        } else if b.0 < c.0 {
            seq![b, c, a]
        } else {
            seq![c, b, a]
        }
    }
}

/// The boundary of a triangle `u < v < w` over the field of `p` elements,
/// in edge rows: `1` at `(u, v)`, `-1` at `(u, w)`, `1` at `(v, w)`.
pub open spec fn triangle_boundary(
    rows: Map<(usize, usize), usize>,
    triangle: FilteredTriangle,
    p: nat,
) -> Seq<(usize, u64)> {
    let (u, v, w) = triangle.vertices;
    sorted_entries((rows[(u, v)], 1u64), (rows[(u, w)], (p - 1) as u64), (rows[(v, w)], 1u64))
}

/// The edge boundary matrix of the complex.
pub open spec fn edge_boundary_views(edges: Seq<FilteredEdge>, p: nat) -> Seq<Seq<(usize, u64)>> {
    Seq::new(edges.len(), |j: int| edge_boundary(edges[j], p))
}

/// The triangle boundary matrix of the complex.
pub open spec fn triangle_boundary_views(
    rows: Map<(usize, usize), usize>,
    triangles: Seq<FilteredTriangle>,
    p: nat,
) -> Seq<Seq<(usize, u64)>> {
    Seq::new(triangles.len(), |j: int| triangle_boundary(rows, triangles[j], p))
}

/// Three entries with distinct rows, in ascending row order.
fn sort_entries(a: (usize, u64), b: (usize, u64), c: (usize, u64)) -> (entries: Vec<(usize, u64)>)
    requires
        a.0 != b.0 && a.0 != c.0 && b.0 != c.0,
    ensures
        entries@ == sorted_entries(a, b, c),
{
    let mut entries: Vec<(usize, u64)> = Vec::new();
    if a.0 < b.0 {
        if b.0 < c.0 {
            entries.push(a);
            entries.push(b);
            entries.push(c);
        } else if a.0 < c.0 {
            entries.push(a);
            entries.push(c);
            entries.push(b);
        } else {
            entries.push(c);
            entries.push(a);
            entries.push(b);
        }
    } else {
        if a.0 < c.0 {
            entries.push(b);
            entries.push(a);
            entries.push(c);
        } else if b.0 < c.0 {
            entries.push(b);
            entries.push(c);
            entries.push(a);
        } else {
            entries.push(c);
            entries.push(b);
            entries.push(a);
        }
    }
    proof {
        assert(entries@ =~= sorted_entries(a, b, c));
    }
    entries
}

impl FilteredComplex {
    /// Edge boundary columns, one per edge in filtration order.
    pub fn edge_boundaries(&self, modulus: u32) -> (columns: Vec<SparseColumn>)
        requires
            2 <= modulus,
            plain_edges(self.vertex_count, self.edges@),
        ensures
            column_views(columns@) == edge_boundary_views(self.edges@, modulus as nat),
            wf_columns(column_views(columns@), modulus as nat),
    {
        let wide = modulus as u64;
        let mut columns: Vec<SparseColumn> = Vec::new();
        let mut index: usize = 0;
        while index < self.edges.len()
            invariant
                2 <= modulus,
                wide == modulus,
                plain_edges(self.vertex_count, self.edges@),
                index <= self.edges@.len(),
                columns@.len() == index,
                forall|j: int| 0 <= j < index ==> (#[trigger] columns@[j])@ == edge_boundary(self.edges@[j], modulus as nat),
            decreases self.edges@.len() - index,
        {
            let (u, v) = self.edges[index].vertices;
            let mut entries: Vec<(usize, u64)> = Vec::new();
            entries.push((u, wide - 1));
            entries.push((v, 1));
            proof {
                assert(entries@ =~= edge_boundary(self.edges@[index as int], modulus as nat));
            }
            columns.push(SparseColumn { entries });
            index += 1;
        }
        proof {
            assert(column_views(columns@) =~= edge_boundary_views(self.edges@, modulus as nat));
            assert forall|j: int| 0 <= j < column_views(columns@).len() implies wf_column(#[trigger] column_views(columns@)[j], modulus as nat) by {
                assert(column_views(columns@)[j] == columns@[j]@);
            }
        }
        columns
    }

    /// Triangle boundary columns over the edge rows, one per triangle in
    /// filtration order.
    pub fn triangle_boundaries(&self, modulus: u32) -> (columns: Vec<SparseColumn>)
        requires
            2 <= modulus,
            plain_edges(self.vertex_count, self.edges@),
            rows_of(self.edges@, edge_row_table(self.edge_rows)),
            true_triangles(self.edges@, self.triangles@),
        ensures
            column_views(columns@) == triangle_boundary_views(
                edge_row_table(self.edge_rows),
                self.triangles@,
                modulus as nat,
            ),
            wf_columns(column_views(columns@), modulus as nat),
    {
        let ghost rows = edge_row_table(self.edge_rows);
        let wide = modulus as u64;
        let mut columns: Vec<SparseColumn> = Vec::new();
        let mut index: usize = 0;
        while index < self.triangles.len()
            invariant
                2 <= modulus,
                wide == modulus,
                rows == edge_row_table(self.edge_rows),
                plain_edges(self.vertex_count, self.edges@),
                rows_of(self.edges@, rows),
                true_triangles(self.edges@, self.triangles@),
                index <= self.triangles@.len(),
                columns@.len() == index,
                forall|j: int|
                    0 <= j < index ==> (#[trigger] columns@[j])@ == triangle_boundary(
                        rows,
                        self.triangles@[j],
                        modulus as nat,
                    ),
            decreases self.triangles@.len() - index,
        {
            let (u, v, w) = self.triangles[index].vertices;
            proof {
                assert(is_filtered_triangle(self.edges@, self.triangles@[index as int].vertices));
                let i1 = choose|i: int| 0 <= i < self.edges@.len() && (#[trigger] self.edges@[i]).vertices == (u, v);
                let i2 = choose|i: int| 0 <= i < self.edges@.len() && (#[trigger] self.edges@[i]).vertices == (u, w);
                let i3 = choose|i: int| 0 <= i < self.edges@.len() && (#[trigger] self.edges@[i]).vertices == (v, w);
                assert(rows[self.edges@[i1].vertices] == i1);
                assert(rows[self.edges@[i2].vertices] == i2);
                assert(rows[self.edges@[i3].vertices] == i3);
            }
            let row_uv = match edge_rows_get(&self.edge_rows, (u, v)) {
                Some(row) => row,
                None => 0,
            };
            let row_uw = match edge_rows_get(&self.edge_rows, (u, w)) {
                Some(row) => row,
                None => 0,
            };
            let row_vw = match edge_rows_get(&self.edge_rows, (v, w)) {
                Some(row) => row,
                None => 0,
            };
            let entries = sort_entries((row_uv, 1), (row_uw, wide - 1), (row_vw, 1));
            columns.push(SparseColumn { entries });
            index += 1;
        }
        proof {
            assert(column_views(columns@) =~= triangle_boundary_views(rows, self.triangles@, modulus as nat));
            assert forall|j: int| 0 <= j < column_views(columns@).len() implies wf_column(#[trigger] column_views(columns@)[j], modulus as nat) by {
                assert(column_views(columns@)[j] == columns@[j]@);
            }
        }
        columns
    }
}

} // verus!
