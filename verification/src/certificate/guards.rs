//! Filtration comparisons that keep a checked reduction valid, and their
//! transitive reduction.

use vstd::prelude::*;

use super::algebra::change_views;
use super::model::{
    CertificateTerm, ChangeColumn, FiltrationSimplex, ReductionGuard, ReductionGuardKind,
};
use super::sparse::SparseColumn;

verus! {

/// A guard as plain values: its kind, then the vertices of the simplex that
/// must not follow, then those of the simplex that must not precede.
pub type GuardView = (ReductionGuardKind, Seq<usize>, Seq<usize>);

/// Plain view of one guard.
pub open spec fn guard_view(guard: ReductionGuard) -> GuardView {
    (guard.spec_kind(), guard.spec_earlier()@, guard.spec_later()@)
}

/// Plain views of a list of guards.
pub open spec fn guard_views(guards: Seq<ReductionGuard>) -> Seq<GuardView> {
    guards.map_values(|guard: ReductionGuard| guard_view(guard))
}

/// Vertex lists of a list of simplices.
pub open spec fn simplex_views(simplices: Seq<FiltrationSimplex>) -> Seq<Seq<usize>> {
    simplices.map_values(|simplex: FiltrationSimplex| simplex@)
}

/// Change-of-basis guards of one column: each source term other than the
/// target itself must not follow the target.
pub open spec fn column_change_guards(
    terms: Seq<CertificateTerm>,
    target: int,
    simplices: Seq<Seq<usize>>,
) -> Seq<GuardView>
    decreases terms.len(),
{
    if terms.len() == 0 {
        Seq::empty()
    } else {
        column_change_guards(terms.drop_last(), target, simplices) + if terms.last().index != target {
            seq![
                (
                    ReductionGuardKind::ChangeOfBasis,
                    simplices[terms.last().index as int],
                    simplices[target],
                ),
            ]
        } else {
            Seq::empty()
        }
    }
}

/// Change-of-basis guards of every column, in column order.
pub open spec fn change_guards(
    columns: Seq<Seq<CertificateTerm>>,
    simplices: Seq<Seq<usize>>,
) -> Seq<GuardView>
    decreases columns.len(),
{
    if columns.len() == 0 {
        Seq::empty()
    } else {
        change_guards(columns.drop_last(), simplices) + column_change_guards(
            columns.last(),
            columns.len() - 1,
            simplices,
        )
    }
}

/// Pivot guards of one reduced column: every other row must not follow its
/// pivot row.
pub open spec fn column_pivot_guards(
    rows: Seq<(usize, u64)>,
    pivot: usize,
    simplices: Seq<Seq<usize>>,
) -> Seq<GuardView>
    decreases rows.len(),
{
    if rows.len() == 0 {
        Seq::empty()
    } else {
        column_pivot_guards(rows.drop_last(), pivot, simplices) + if rows.last().0 != pivot {
            seq![
                (ReductionGuardKind::Pivot, simplices[rows.last().0 as int], simplices[pivot as int]),
            ]
        } else {
            Seq::empty()
        }
    }
}

/// Pivot guards of every nonzero reduced column, in column order.
pub open spec fn pivot_guards(columns: Seq<Seq<(usize, u64)>>, simplices: Seq<Seq<usize>>) -> Seq<
    GuardView,
>
    decreases columns.len(),
{
    if columns.len() == 0 {
        Seq::empty()
    } else {
        pivot_guards(columns.drop_last(), simplices) + if columns.last().len() > 0 {
            column_pivot_guards(columns.last(), columns.last().last().0, simplices)
        } else {
            Seq::empty()
        }
    }
}

/// Append the change-of-basis guards of `columns`, whose positions name
/// `simplices`.
pub fn add_change_guards(
    guards: &mut Vec<ReductionGuard>,
    columns: &[ChangeColumn],
    simplices: &[FiltrationSimplex],
)
    requires
        columns.len() <= simplices.len(),
        forall|j: int, t: int|
            0 <= j < columns.len() && 0 <= t < columns[j]@.len() ==> (#[trigger] columns[j]@[t]).index
                < simplices.len(),
    ensures
        guard_views(final(guards)@) == guard_views(old(guards)@) + change_guards(
            change_views(columns@),
            simplex_views(simplices@),
        ),
{
    let ghost views = change_views(columns@);
    let ghost names = simplex_views(simplices@);
    let mut target: usize = 0;
    proof {
        assert(views.take(0) =~= Seq::<Seq<CertificateTerm>>::empty());
        assert(guard_views(guards@) =~= guard_views(old(guards)@) + change_guards(views.take(0), names));
    }
    while target < columns.len()
        invariant
            views == change_views(columns@),
            names == simplex_views(simplices@),
            columns.len() <= simplices.len(),
            forall|j: int, t: int|
                0 <= j < columns.len() && 0 <= t < columns[j]@.len() ==> (#[trigger] columns[j]@[t]).index
                    < simplices.len(),
            target <= columns.len(),
            guard_views(guards@) == guard_views(old(guards)@) + change_guards(views.take(target as int), names),
        decreases columns.len() - target,
    {
        let column = &columns[target];
        let ghost before = guard_views(guards@);
        let mut term_index: usize = 0;
        proof {
            assert(column@.take(0) =~= Seq::<CertificateTerm>::empty());
            assert(guard_views(guards@) =~= before + column_change_guards(column@.take(0), target as int, names));
        }
        while term_index < column.terms.len()
            invariant
                views == change_views(columns@),
                names == simplex_views(simplices@),
                target < columns.len() <= simplices.len(),
                column == &columns[target as int],
                forall|t: int| 0 <= t < column@.len() ==> (#[trigger] column@[t]).index < simplices.len(),
                term_index <= column@.len(),
                guard_views(guards@) == before + column_change_guards(column@.take(term_index as int), target as int, names),
            decreases column@.len() - term_index,
        {
            let term = column.terms[term_index];
            let ghost previous = guards@;
            proof {
                assert(column@[term_index as int] == term);
                assert(column@.take(term_index + 1).drop_last() =~= column@.take(term_index as int));
                assert(column@.take(term_index + 1).last() == term);
            }
            if term.index != target {
                let guard = ReductionGuard::new(
                    ReductionGuardKind::ChangeOfBasis,
                    simplices[term.index].duplicate(),
                    simplices[target].duplicate(),
                );
                guards.push(guard);
                proof {
                    assert(guard_views(guards@) =~= guard_views(previous).push(guard_view(guard)));
                    assert(names[term.index as int] == simplices@[term.index as int]@);
                    assert(names[target as int] == simplices@[target as int]@);
                    assert(guard_views(guards@) =~= before + column_change_guards(column@.take(term_index + 1), target as int, names));
                }
            } else {
                proof {
                    assert(guard_views(guards@) =~= before + column_change_guards(column@.take(term_index + 1), target as int, names));
                }
            }
            term_index += 1;
        }
        proof {
            assert(column@.take(column@.len() as int) =~= column@);
            assert(views[target as int] == column@);
            assert(views.take(target + 1).drop_last() =~= views.take(target as int));
            assert(guard_views(guards@) =~= guard_views(old(guards)@) + change_guards(views.take(target + 1), names));
        }
        target += 1;
    }
    proof {
        assert(views.take(columns.len() as int) =~= views);
    }
}

/// Append the pivot guards of the reduced columns, whose rows name
/// `row_simplices`.
pub fn add_pivot_guards(
    guards: &mut Vec<ReductionGuard>,
    reduced: &[SparseColumn],
    row_simplices: &[FiltrationSimplex],
)
    requires
        forall|j: int, t: int|
            0 <= j < reduced.len() && 0 <= t < reduced[j]@.len() ==> (#[trigger] reduced[j]@[t]).0
                < row_simplices.len(),
    ensures
        guard_views(final(guards)@) == guard_views(old(guards)@) + pivot_guards(
            super::algebra::column_views(reduced@),
            simplex_views(row_simplices@),
        ),
{
    let ghost views = super::algebra::column_views(reduced@);
    let ghost names = simplex_views(row_simplices@);
    let mut index: usize = 0;
    proof {
        assert(views.take(0) =~= Seq::<Seq<(usize, u64)>>::empty());
        assert(guard_views(guards@) =~= guard_views(old(guards)@) + pivot_guards(views.take(0), names));
    }
    while index < reduced.len()
        invariant
            views == super::algebra::column_views(reduced@),
            names == simplex_views(row_simplices@),
            forall|j: int, t: int|
                0 <= j < reduced.len() && 0 <= t < reduced[j]@.len() ==> (#[trigger] reduced[j]@[t]).0
                    < row_simplices.len(),
            index <= reduced.len(),
            guard_views(guards@) == guard_views(old(guards)@) + pivot_guards(views.take(index as int), names),
        decreases reduced.len() - index,
    {
        let column = &reduced[index];
        proof {
            assert(views[index as int] == column@);
            assert(views.take(index + 1).drop_last() =~= views.take(index as int));
            assert(views.take(index + 1).last() == column@);
        }
        match column.pivot() {
            None => {
                proof {
                    assert(guard_views(guards@) =~= guard_views(old(guards)@) + pivot_guards(views.take(index + 1), names));
                }
            },
            Some((pivot, _)) => {
                let ghost before = guard_views(guards@);
                let mut row_index: usize = 0;
                proof {
                    assert(column@.take(0) =~= Seq::<(usize, u64)>::empty());
                    assert(guard_views(guards@) =~= before + column_pivot_guards(column@.take(0), pivot, names));
                }
                while row_index < column.entries.len()
                    invariant
                        names == simplex_views(row_simplices@),
                        column@.len() > 0,
                        pivot == column@.last().0,
                        forall|t: int| 0 <= t < column@.len() ==> (#[trigger] column@[t]).0 < row_simplices.len(),
                        row_index <= column@.len(),
                        guard_views(guards@) == before + column_pivot_guards(column@.take(row_index as int), pivot, names),
                    decreases column@.len() - row_index,
                {
                    let (row, _) = column.entries[row_index];
                    let ghost previous = guards@;
                    proof {
                        assert(column@.take(row_index + 1).drop_last() =~= column@.take(row_index as int));
                        assert(column@.take(row_index + 1).last() == column@[row_index as int]);
                        assert(column@[column@.len() - 1] == column@.last());
                    }
                    if row != pivot {
                        let guard = ReductionGuard::new(
                            ReductionGuardKind::Pivot,
                            row_simplices[row].duplicate(),
                            row_simplices[pivot].duplicate(),
                        );
                        guards.push(guard);
                        proof {
                            assert(guard_views(guards@) =~= guard_views(previous).push(guard_view(guard)));
                            assert(names[row as int] == row_simplices@[row as int]@);
                            assert(names[pivot as int] == row_simplices@[pivot as int]@);
                        }
                    }
                    proof {
                        assert(guard_views(guards@) =~= before + column_pivot_guards(column@.take(row_index + 1), pivot, names));
                    }
                    row_index += 1;
                }
                proof {
                    assert(column@.take(column@.len() as int) =~= column@);
                    assert(guard_views(guards@) =~= guard_views(old(guards)@) + pivot_guards(views.take(index + 1), names));
                }
            },
        }
        index += 1;
    }
    proof {
        assert(views.take(reduced.len() as int) =~= views);
    }
}

/// A walk in a graph given by successor lists: consecutive nodes follow an
/// edge.
pub open spec fn index_walk(successors: Seq<Seq<usize>>, walk: Seq<usize>) -> bool {
    &&& walk.len() >= 1
    &&& forall|i: int|
        0 <= i < walk.len() - 1 ==> (#[trigger] walk[i]) < successors.len() && successors[walk[i] as int].contains(
            walk[i + 1],
        )
}

/// Node `to` can be reached from node `from`, possibly in zero steps.
pub open spec fn index_reaches(successors: Seq<Seq<usize>>, from: usize, to: usize) -> bool {
    exists|walk: Seq<usize>| #[trigger] index_walk(successors, walk) && walk[0] == from && walk.last() == to
}

/// Some successor of `source` other than `target` reaches `target`.
pub open spec fn has_detour_spec(successors: Seq<Seq<usize>>, source: usize, target: usize) -> bool {
    exists|next: usize|
        successors[source as int].contains(next) && next != target && #[trigger] index_reaches(
            successors,
            next,
            target,
        )
}

/// Node `node` is reached from a start node other than `target`.
pub open spec fn from_start(successors: Seq<Seq<usize>>, start: Seq<usize>, target: usize, node: usize) -> bool {
    exists|n: usize| start.contains(n) && n != target && #[trigger] index_reaches(successors, n, node)
}

/// Number of `false` entries.
pub open spec fn unseen_count(seen: Seq<bool>) -> nat
    decreases seen.len(),
{
    if seen.len() == 0 {
        0
    } else {
        unseen_count(seen.drop_last()) + if seen.last() {
            0nat
        } else {
            1nat
        }
    }
}

proof fn lemma_unseen_update(seen: Seq<bool>, index: int)
    requires
        0 <= index < seen.len(),
        !seen[index],
    ensures
        unseen_count(seen.update(index, true)) + 1 == unseen_count(seen),
    decreases seen.len(),
{
    let updated = seen.update(index, true);
    if index == seen.len() - 1 {
        assert(updated.drop_last() =~= seen.drop_last());
    } else {
        assert(updated.drop_last() =~= seen.drop_last().update(index, true));
        lemma_unseen_update(seen.drop_last(), index);
    }
}

/// A node set closed under successors holds every node reachable from it.
proof fn lemma_closed_walk(successors: Seq<Seq<usize>>, seen: Seq<bool>, walk: Seq<usize>)
    requires
        index_walk(successors, walk),
        seen.len() == successors.len(),
        walk[0] < seen.len(),
        seen[walk[0] as int],
        forall|x: int, y: usize|
            0 <= x < seen.len() && seen[x] && #[trigger] successors[x].contains(y) ==> y < seen.len()
                && seen[y as int],
    ensures
        walk.last() < seen.len(),
        seen[walk.last() as int],
    decreases walk.len(),
{
    if walk.len() > 1 {
        let shorter = walk.drop_last();
        assert forall|i: int| 0 <= i < shorter.len() - 1 implies (#[trigger] shorter[i]) < successors.len()
            && successors[shorter[i] as int].contains(shorter[i + 1]) by {
            assert(shorter[i] == walk[i]);
            assert(shorter[i + 1] == walk[i + 1]);
        }
        lemma_closed_walk(successors, seen, shorter);
        let k = walk.len() - 2;
        assert(walk[k] == shorter.last());
        assert(successors[walk[k] as int].contains(walk[k + 1]));
    }
}

proof fn lemma_reach_self(successors: Seq<Seq<usize>>, node: usize)
    ensures
        index_reaches(successors, node, node),
{
    assert(index_walk(successors, seq![node]));
}

proof fn lemma_reach_extend(successors: Seq<Seq<usize>>, from: usize, node: usize, next: usize)
    requires
        index_reaches(successors, from, node),
        node < successors.len(),
        successors[node as int].contains(next),
    ensures
        index_reaches(successors, from, next),
{
    let walk = choose|walk: Seq<usize>| #[trigger] index_walk(successors, walk) && walk[0] == from && walk.last() == node;
    let longer = walk.push(next);
    assert forall|i: int| 0 <= i < longer.len() - 1 implies (#[trigger] longer[i]) < successors.len()
        && successors[longer[i] as int].contains(longer[i + 1]) by {
        if i < walk.len() - 1 {
            assert(longer[i] == walk[i] && longer[i + 1] == walk[i + 1]);
        } else {
            assert(longer[i] == node);
            assert(longer[i + 1] == next);
        }
    }
    assert(index_walk(successors, longer));
}

/// Depth-first search state: everything waiting or seen is reached from a
/// start node.
#[verifier::opaque]
pub open spec fn search_sound(
    successors: Seq<Seq<usize>>,
    start: Seq<usize>,
    target: usize,
    seen: Seq<bool>,
    stack: Seq<usize>,
) -> bool {
    &&& forall|i: int| 0 <= i < stack.len() ==> from_start(successors, start, target, #[trigger] stack[i])
    &&& forall|x: usize| x < seen.len() && #[trigger] seen[x as int] ==> from_start(successors, start, target, x)
}

/// Depth-first search state: the successors of seen nodes and the start
/// nodes are seen or waiting.
#[verifier::opaque]
pub open spec fn search_closed(
    successors: Seq<Seq<usize>>,
    start: Seq<usize>,
    target: usize,
    seen: Seq<bool>,
    stack: Seq<usize>,
) -> bool {
    &&& forall|x: int, y: usize|
        0 <= x < seen.len() && seen[x] && #[trigger] successors[x].contains(y) ==> seen[y as int]
            || stack.contains(y)
    &&& forall|n: usize| #[trigger] start.contains(n) && n != target ==> seen[n as int] || stack.contains(n)
}

/// Dropping a node that is already seen keeps the search state.
proof fn lemma_pop_seen(
    successors: Seq<Seq<usize>>,
    start: Seq<usize>,
    target: usize,
    seen: Seq<bool>,
    stack: Seq<usize>,
)
    requires
        stack.len() > 0,
        stack.last() < seen.len(),
        seen[stack.last() as int],
        search_sound(successors, start, target, seen, stack),
        search_closed(successors, start, target, seen, stack),
    ensures
        search_sound(successors, start, target, seen, stack.drop_last()),
        search_closed(successors, start, target, seen, stack.drop_last()),
{
    reveal(search_sound);
    reveal(search_closed);
    let rest = stack.drop_last();
    assert forall|i: int| 0 <= i < rest.len() implies from_start(successors, start, target, #[trigger] rest[i]) by {
        assert(rest[i] == stack[i]);
    }
    assert forall|y: usize| stack.contains(y) && y != stack.last() implies rest.contains(y) by {
        let i = choose|i: int| 0 <= i < stack.len() && stack[i] == y;
        assert(i != stack.len() - 1);
        assert(rest[i] == y);
    }
}

/// Expanding an unseen node keeps everything waiting or seen reachable.
proof fn lemma_expand_sound(
    successors: Seq<Seq<usize>>,
    start: Seq<usize>,
    target: usize,
    seen: Seq<bool>,
    stack: Seq<usize>,
)
    requires
        stack.len() > 0,
        stack.last() < seen.len(),
        seen.len() == successors.len(),
        forall|x: int, y: usize| 0 <= x < successors.len() && #[trigger] successors[x].contains(y) ==> y < successors.len(),
        forall|y: usize| #[trigger] start.contains(y) ==> y < successors.len(),
        search_sound(successors, start, target, seen, stack),
    ensures
        search_sound(
            successors,
            start,
            target,
            seen.update(stack.last() as int, true),
            stack.drop_last() + successors[stack.last() as int],
        ),
{
    reveal(search_sound);
    let node = stack.last();
    let rest = stack.drop_last();
    let next = successors[node as int];
    let seen2 = seen.update(node as int, true);
    let stack2 = rest + next;
    assert(from_start(successors, start, target, node)) by {
        assert(stack[stack.len() - 1] == node);
    }
    let n = choose|n: usize| start.contains(n) && n != target && #[trigger] index_reaches(successors, n, node);
    assert forall|i: int| 0 <= i < stack2.len() implies from_start(successors, start, target, #[trigger] stack2[i]) by {
        if i < rest.len() {
            assert(stack2[i] == stack[i]);
        } else {
            let y = stack2[i];
            assert(y == next[i - rest.len()]);
            assert(next.contains(y));
            lemma_reach_extend(successors, n, node, y);
        }
    }
    assert forall|x: usize| x < seen2.len() && #[trigger] seen2[x as int] implies from_start(successors, start, target, x) by {
        if x != node {
            assert(seen[x as int]);
        }
    }
}

/// Expanding an unseen node keeps successors of seen nodes and start nodes
/// seen or waiting.
proof fn lemma_expand_closed(
    successors: Seq<Seq<usize>>,
    start: Seq<usize>,
    target: usize,
    seen: Seq<bool>,
    stack: Seq<usize>,
)
    requires
        stack.len() > 0,
        stack.last() < seen.len(),
        seen.len() == successors.len(),
        forall|x: int, y: usize| 0 <= x < successors.len() && #[trigger] successors[x].contains(y) ==> y < successors.len(),
        forall|y: usize| #[trigger] start.contains(y) ==> y < successors.len(),
        search_closed(successors, start, target, seen, stack),
    ensures
        search_closed(
            successors,
            start,
            target,
            seen.update(stack.last() as int, true),
            stack.drop_last() + successors[stack.last() as int],
        ),
{
    reveal(search_closed);
    let node = stack.last();
    let rest = stack.drop_last();
    let next = successors[node as int];
    let seen2 = seen.update(node as int, true);
    let stack2 = rest + next;
    assert forall|y: usize| stack.contains(y) && y != node implies stack2.contains(y) by {
        let i = choose|i: int| 0 <= i < stack.len() && stack[i] == y;
        assert(i != stack.len() - 1);
        assert(stack2[i] == y);
    }
    assert forall|y: usize| next.contains(y) implies stack2.contains(y) by {
        let i = choose|i: int| 0 <= i < next.len() && next[i] == y;
        assert(stack2[rest.len() + i] == y);
    }
    assert forall|x: int, y: usize|
        0 <= x < seen2.len() && seen2[x] && #[trigger] successors[x].contains(y) implies seen2[y as int]
            || stack2.contains(y) by {
        if x != node {
            assert(seen[x]);
            if !seen[y as int] {
                assert(stack.contains(y));
                if y != node {
                    assert(stack2.contains(y));
                }
            }
        } else {
            assert(next.contains(y));
        }
    }
    assert forall|n: usize| #[trigger] start.contains(n) && n != target implies seen2[n as int]
        || stack2.contains(n) by {
        if !seen[n as int] {
            assert(stack.contains(n));
            if n != node {
                assert(stack2.contains(n));
            }
        }
    }
}

/// Whether some successor of `source` other than `target` reaches
/// `target`, by depth-first search.
fn has_detour(successors: &Vec<Vec<usize>>, source: usize, target: usize) -> (found: bool)
    requires
        source < successors.len(),
        target < successors.len(),
        forall|x: int, k: int|
            0 <= x < successors.len() && 0 <= k < successors[x]@.len() ==> #[trigger] successors[x]@[k]
                < successors.len(),
    ensures
        found == has_detour_spec(successors@.map_values(|list: Vec<usize>| list@), source, target),
{
    let ghost out = successors@.map_values(|list: Vec<usize>| list@);
    let count = successors.len();
    let mut seen: Vec<bool> = Vec::new();
    while seen.len() < count
        invariant
            seen.len() <= count,
            forall|x: int| 0 <= x < seen.len() ==> !seen[x],
        decreases count - seen.len(),
    {
        seen.push(false);
    }
    let mut stack: Vec<usize> = Vec::new();
    let start = &successors[source];
    let ghost start_set = out[source as int];
    let mut k: usize = 0;
    while k < start.len()
        invariant
            out == successors@.map_values(|list: Vec<usize>| list@),
            start@ == out[source as int],
            start_set == out[source as int],
            k <= start@.len(),
            forall|i: int| 0 <= i < stack.len() ==> (#[trigger] stack[i]) < count && stack[i] != target
                && start_set.contains(stack[i]),
            forall|i: int| 0 <= i < k && start@[i] != target ==> stack@.contains(#[trigger] start@[i]),
            count == successors.len(),
            forall|x: int, j: int|
                0 <= x < successors.len() && 0 <= j < successors[x]@.len() ==> #[trigger] successors[x]@[j]
                    < successors.len(),
            source < count,
        decreases start@.len() - k,
    {
        let next = start[k];
        let ghost before = stack@;
        if next != target {
            stack.push(next);
            proof {
                assert(start@.contains(start@[k as int]));
                assert(stack@[stack.len() - 1] == next);
                assert forall|i: int| 0 <= i < k + 1 && start@[i] != target implies stack@.contains(#[trigger] start@[i]) by {
                    if i < k {
                        let w = choose|w: int| 0 <= w < before.len() && before[w] == start@[i];
                        assert(stack@[w] == start@[i]);
                    }
                }
            }
        }
        k += 1;
    }
    proof {
        assert forall|i: int| 0 <= i < stack.len() implies from_start(out, start_set, target, #[trigger] stack@[i]) by {
            lemma_reach_self(out, stack@[i]);
        }
        assert forall|n: usize| #[trigger] start_set.contains(n) && n != target implies seen@[n as int]
            || stack@.contains(n) by {
            let i = choose|i: int| 0 <= i < start_set.len() && start_set[i] == n;
            assert(start@[i] == n);
        }
        assert(search_sound(out, start_set, target, seen@, stack@)) by {
            reveal(search_sound);
        }
        assert(search_closed(out, start_set, target, seen@, stack@)) by {
            reveal(search_closed);
        }
    }
    loop
        invariant
            out == successors@.map_values(|list: Vec<usize>| list@),
            start_set == out[source as int],
            count == successors.len(),
            out.len() == count,
            seen.len() == count,
            source < count,
            target < count,
            forall|x: int, j: int|
                0 <= x < successors.len() && 0 <= j < successors[x]@.len() ==> #[trigger] successors[x]@[j]
                    < successors.len(),
            forall|i: int| 0 <= i < stack.len() ==> (#[trigger] stack[i]) < count,
            search_sound(out, start_set, target, seen@, stack@),
            search_closed(out, start_set, target, seen@, stack@),
            !seen@[target as int],
        ensures
            stack.len() == 0,
            seen.len() == count,
            out.len() == count,
            search_closed(out, start_set, target, seen@, stack@),
            !seen@[target as int],
        decreases unseen_count(seen@), stack.len(),
    {
        let ghost stack_before = stack@;
        let ghost seen_before = seen@;
        let node = match stack.pop() {
            None => {
                break;
            },
            Some(node) => node,
        };
        proof {
            assert(stack@ == stack_before.drop_last());
            assert(node == stack_before.last());
        }
        if node == target {
            proof {
                reveal(search_sound);
                assert(from_start(out, start_set, target, stack_before[stack_before.len() - 1]));
            }
            return true;
        }
        if seen[node] {
            proof {
                lemma_pop_seen(out, start_set, target, seen_before, stack_before);
            }
            continue;
        }
        proof {
            assert forall|x: int, y: usize| 0 <= x < out.len() && #[trigger] out[x].contains(y) implies y < out.len() by {
                let k = choose|k: int| 0 <= k < out[x].len() && out[x][k] == y;
                assert(successors[x]@[k] == y);
            }
            assert forall|y: usize| #[trigger] start_set.contains(y) implies y < out.len() by {
                let k = choose|k: int| 0 <= k < start_set.len() && start_set[k] == y;
                assert(successors[source as int]@[k] == y);
            }
            lemma_expand_sound(out, start_set, target, seen_before, stack_before);
            lemma_expand_closed(out, start_set, target, seen_before, stack_before);
            lemma_unseen_update(seen_before, node as int);
        }
        seen.set(node, true);
        let next_list = &successors[node];
        let ghost base = stack@;
        let mut j: usize = 0;
        while j < next_list.len()
            invariant
                j <= next_list@.len(),
                next_list@ == out[node as int],
                stack@ == base + next_list@.take(j as int),
            decreases next_list@.len() - j,
        {
            stack.push(next_list[j]);
            j += 1;
            proof {
                assert(next_list@.take(j as int) =~= next_list@.take(j - 1).push(next_list@[j - 1]));
                assert(stack@ =~= base + next_list@.take(j as int));
            }
        }
        proof {
            assert(next_list@.take(next_list@.len() as int) =~= next_list@);
            assert forall|i: int| 0 <= i < stack.len() implies (#[trigger] stack[i]) < count by {
                if i >= base.len() {
                    assert(stack[i] == next_list@[i - base.len()]);
                } else {
                    assert(stack[i] == stack_before[i]);
                }
            }
        }
    }
    proof {
        reveal(search_closed);
        assert forall|x: int, y: usize| 0 <= x < out.len() && #[trigger] out[x].contains(y) implies y < count by {
            let k = choose|k: int| 0 <= k < out[x].len() && out[x][k] == y;
            assert(successors[x]@[k] == y);
        }
        if has_detour_spec(out, source, target) {
            let n = choose|next: usize|
                out[source as int].contains(next) && next != target && #[trigger] index_reaches(out, next, target);
            let walk = choose|walk: Seq<usize>| #[trigger] index_walk(out, walk) && walk[0] == n && walk.last() == target;
            assert(seen@[n as int]);
            lemma_closed_walk(out, seen@, walk);
        }
    }
    false
}

/// Lexicographic order of vertex lists, a proper prefix first.
pub open spec fn seq_lt(first: Seq<usize>, second: Seq<usize>) -> bool
    decreases first.len(),
{
    if second.len() == 0 {
        false
    } else if first.len() == 0 {
        true
    } else if first[0] != second[0] {
        first[0] < second[0]
    } else {
        seq_lt(first.drop_first(), second.drop_first())
    }
}

/// Order of comparisons: by the earlier simplex, then by the later one.
pub open spec fn pair_lt(first: (Seq<usize>, Seq<usize>), second: (Seq<usize>, Seq<usize>)) -> bool {
    seq_lt(first.0, second.0) || (first.0 == second.0 && seq_lt(first.1, second.1))
}

/// Rank of a guard kind: change-of-basis guards come first.
pub open spec fn kind_rank(kind: ReductionGuardKind) -> nat {
    match kind {
        ReductionGuardKind::ChangeOfBasis => 0,
        ReductionGuardKind::Pivot => 1,
    }
}

/// Order of guards: by kind, then by comparison.
pub open spec fn guard_lt(first: GuardView, second: GuardView) -> bool {
    kind_rank(first.0) < kind_rank(second.0) || (first.0 == second.0 && pair_lt(
        (first.1, first.2),
        (second.1, second.2),
    ))
}

pub proof fn lemma_seq_lt_irreflexive(a: Seq<usize>)
    ensures
        !seq_lt(a, a),
    decreases a.len(),
{
    if a.len() > 0 {
        lemma_seq_lt_irreflexive(a.drop_first());
    }
}

pub proof fn lemma_seq_lt_transitive(a: Seq<usize>, b: Seq<usize>, c: Seq<usize>)
    requires
        seq_lt(a, b),
        seq_lt(b, c),
    ensures
        seq_lt(a, c),
    decreases a.len(),
{
    if a.len() > 0 && b.len() > 0 && c.len() > 0 {
        if a[0] == b[0] && b[0] == c[0] {
            lemma_seq_lt_transitive(a.drop_first(), b.drop_first(), c.drop_first());
        }
    }
}

pub proof fn lemma_seq_lt_total(a: Seq<usize>, b: Seq<usize>)
    ensures
        a == b || seq_lt(a, b) || seq_lt(b, a),
    decreases a.len(),
{
    if a.len() > 0 && b.len() > 0 && a[0] == b[0] {
        lemma_seq_lt_total(a.drop_first(), b.drop_first());
        if a.drop_first() == b.drop_first() {
            assert(a =~= seq![a[0]] + a.drop_first());
            assert(b =~= seq![b[0]] + b.drop_first());
        }
    } else if a.len() == 0 && b.len() == 0 {
        assert(a =~= b);
    }
}

pub proof fn lemma_seq_lt_asymmetric(a: Seq<usize>, b: Seq<usize>)
    requires
        seq_lt(a, b),
    ensures
        !seq_lt(b, a),
{
    if seq_lt(b, a) {
        lemma_seq_lt_transitive(a, b, a);
        lemma_seq_lt_irreflexive(a);
    }
}

proof fn lemma_pair_lt_transitive(
    a: (Seq<usize>, Seq<usize>),
    b: (Seq<usize>, Seq<usize>),
    c: (Seq<usize>, Seq<usize>),
)
    requires
        pair_lt(a, b),
        pair_lt(b, c),
    ensures
        pair_lt(a, c),
{
    if seq_lt(a.0, b.0) && seq_lt(b.0, c.0) {
        lemma_seq_lt_transitive(a.0, b.0, c.0);
    } else if seq_lt(a.1, b.1) && a.0 == b.0 && seq_lt(b.1, c.1) && b.0 == c.0 {
        lemma_seq_lt_transitive(a.1, b.1, c.1);
    }
}

proof fn lemma_pair_lt_total(a: (Seq<usize>, Seq<usize>), b: (Seq<usize>, Seq<usize>))
    ensures
        (a.0 == b.0 && a.1 == b.1) || pair_lt(a, b) || pair_lt(b, a),
{
    lemma_seq_lt_total(a.0, b.0);
    lemma_seq_lt_total(a.1, b.1);
}

proof fn lemma_pair_lt_irreflexive(a: (Seq<usize>, Seq<usize>))
    ensures
        !pair_lt(a, a),
{
    lemma_seq_lt_irreflexive(a.0);
    lemma_seq_lt_irreflexive(a.1);
}

/// Whether `first` precedes `second` lexicographically.
pub(crate) fn vertices_less(first: &[usize], second: &[usize]) -> (less: bool)
    ensures
        less == seq_lt(first@, second@),
{
    let mut index: usize = 0;
    proof {
        assert(first@.skip(0) =~= first@);
        assert(second@.skip(0) =~= second@);
    }
    while index < first.len() && index < second.len()
        invariant
            index <= first@.len(),
            index <= second@.len(),
            first@.take(index as int) == second@.take(index as int),
            seq_lt(first@, second@) == seq_lt(first@.skip(index as int), second@.skip(index as int)),
        decreases first@.len() - index,
    {
        if first[index] != second[index] {
            proof {
                assert(first@.skip(index as int)[0] == first@[index as int]);
                assert(second@.skip(index as int)[0] == second@[index as int]);
            }
            return first[index] < second[index];
        }
        proof {
            assert(first@.skip(index as int).drop_first() =~= first@.skip(index + 1));
            assert(second@.skip(index as int).drop_first() =~= second@.skip(index + 1));
            assert(first@.skip(index as int)[0] == first@[index as int]);
            assert(second@.skip(index as int)[0] == second@[index as int]);
            assert(first@.take(index + 1) =~= first@.take(index as int).push(first@[index as int]));
            assert(second@.take(index + 1) =~= second@.take(index as int).push(second@[index as int]));
        }
        index += 1;
    }
    index < second.len()
}

/// Whether two simplices have the same vertices.
pub(crate) fn same_vertices(first: &[usize], second: &[usize]) -> (same: bool)
    ensures
        same == (first@ == second@),
{
    if first.len() != second.len() {
        return false;
    }
    let mut index: usize = 0;
    while index < first.len()
        invariant
            first@.len() == second@.len(),
            index <= first@.len(),
            forall|i: int| 0 <= i < index ==> first@[i] == second@[i],
        decreases first@.len() - index,
    {
        if first[index] != second[index] {
            return false;
        }
        index += 1;
    }
    assert(first@ =~= second@);
    true
}

/// Some guard compares `earlier` with `later`.
pub open spec fn has_edge(guards: Seq<GuardView>, earlier: Seq<usize>, later: Seq<usize>) -> bool {
    exists|i: int| 0 <= i < guards.len() && (#[trigger] guards[i]).1 == earlier && guards[i].2 == later
}

/// The least kind among the guards comparing `earlier` with `later`.
pub open spec fn least_kind(guards: Seq<GuardView>, earlier: Seq<usize>, later: Seq<usize>) -> ReductionGuardKind {
    if exists|i: int|
        0 <= i < guards.len() && #[trigger] guards[i] == (
            ReductionGuardKind::ChangeOfBasis,
            earlier,
            later,
        ) {
        ReductionGuardKind::ChangeOfBasis
    } else {
        ReductionGuardKind::Pivot
    }
}

/// `pairs` lists each comparison of `guards` once, in comparison order,
/// with its least kind.
pub open spec fn pairs_of(guards: Seq<GuardView>, pairs: Seq<GuardView>) -> bool {
    &&& forall|i: int, j: int|
        0 <= i < j < pairs.len() ==> pair_lt((pairs[i].1, pairs[i].2), (pairs[j].1, pairs[j].2))
    &&& forall|j: int|
        0 <= j < pairs.len() ==> has_edge(guards, (#[trigger] pairs[j]).1, pairs[j].2) && pairs[j].0
            == least_kind(guards, pairs[j].1, pairs[j].2)
    &&& forall|i: int|
        0 <= i < guards.len() ==> exists|j: int|
            0 <= j < pairs.len() && (#[trigger] pairs[j]).1 == (#[trigger] guards[i]).1 && pairs[j].2
                == guards[i].2
}

proof fn lemma_edge_extend(guards: Seq<GuardView>, n: int, earlier: Seq<usize>, later: Seq<usize>)
    requires
        0 <= n < guards.len(),
    ensures
        has_edge(guards.take(n + 1), earlier, later) == (has_edge(guards.take(n), earlier, later) || (
        guards[n].1 == earlier && guards[n].2 == later)),
        least_kind(guards.take(n + 1), earlier, later) == if guards[n] == (
            ReductionGuardKind::ChangeOfBasis,
            earlier,
            later,
        ) {
            ReductionGuardKind::ChangeOfBasis
        } else {
            least_kind(guards.take(n), earlier, later)
        },
{
    let longer = guards.take(n + 1);
    let shorter = guards.take(n);
    assert(longer[n] == guards[n]);
    assert forall|i: int| 0 <= i < shorter.len() implies shorter[i] == #[trigger] longer[i] by {
    }
    if has_edge(longer, earlier, later) {
        let i = choose|i: int| 0 <= i < longer.len() && (#[trigger] longer[i]).1 == earlier && longer[i].2 == later;
        if i < n {
            assert(shorter[i] == longer[i]);
        }
    }
    if has_edge(shorter, earlier, later) {
        let i = choose|i: int| 0 <= i < shorter.len() && (#[trigger] shorter[i]).1 == earlier && shorter[i].2 == later;
        assert(longer[i] == shorter[i]);
    }
    let unit = (ReductionGuardKind::ChangeOfBasis, earlier, later);
    if exists|i: int| 0 <= i < longer.len() && #[trigger] longer[i] == unit {
        let i = choose|i: int| 0 <= i < longer.len() && #[trigger] longer[i] == unit;
        if i < n {
            assert(shorter[i] == longer[i]);
        }
    }
    if exists|i: int| 0 <= i < shorter.len() && #[trigger] shorter[i] == unit {
        let i = choose|i: int| 0 <= i < shorter.len() && #[trigger] shorter[i] == unit;
        assert(longer[i] == shorter[i]);
    }
}

/// One distinct comparison with the least kind of the guards that ask
/// for it.
struct PairEntry {
    kind: ReductionGuardKind,
    earlier: FiltrationSimplex,
    later: FiltrationSimplex,
}

spec fn entry_views(entries: Seq<PairEntry>) -> Seq<GuardView> {
    entries.map_values(|entry: PairEntry| (entry.kind, entry.earlier@, entry.later@))
}

/// The lesser of two guard kinds.
fn least_of(first: ReductionGuardKind, second: ReductionGuardKind) -> (least: ReductionGuardKind)
    ensures
        least == if first == ReductionGuardKind::ChangeOfBasis || second
            == ReductionGuardKind::ChangeOfBasis {
            ReductionGuardKind::ChangeOfBasis
        } else {
            ReductionGuardKind::Pivot
        },
{
    match (first, second) {
        (ReductionGuardKind::Pivot, ReductionGuardKind::Pivot) => ReductionGuardKind::Pivot,
        _ => ReductionGuardKind::ChangeOfBasis,
    }
}

/// Merging guard `k` into the comparison it shares keeps the pair list.
proof fn lemma_pairs_merge(
    gs: Seq<GuardView>,
    k: int,
    before: Seq<GuardView>,
    position: int,
    kind: ReductionGuardKind,
)
    requires
        0 <= k < gs.len(),
        pairs_of(gs.take(k), before),
        0 <= position < before.len(),
        before[position].1 == gs[k].1,
        before[position].2 == gs[k].2,
        kind == if before[position].0 == ReductionGuardKind::ChangeOfBasis || gs[k].0
            == ReductionGuardKind::ChangeOfBasis {
            ReductionGuardKind::ChangeOfBasis
        } else {
            ReductionGuardKind::Pivot
        },
    ensures
        pairs_of(gs.take(k + 1), before.update(position, (kind, gs[k].1, gs[k].2))),
{
    let g = gs[k];
        let after = before.update(position, (kind, g.1, g.2));
        let small = gs.take(k);
        let large = gs.take(k + 1);
        assert(large[k] == g);
        assert forall|j: int| 0 <= j < after.len() implies has_edge(large, (#[trigger] after[j]).1, after[j].2)
            && after[j].0 == least_kind(large, after[j].1, after[j].2) by {
            lemma_edge_extend(gs, k, after[j].1, after[j].2);
            if j != position {
                assert(after[j] == before[j]);
                if g.1 == before[j].1 && g.2 == before[j].2 {
                    lemma_pair_lt_irreflexive((g.1, g.2));
                    if j < position {
                        assert(pair_lt((before[j].1, before[j].2), (before[position].1, before[position].2)));
                    } else {
                        assert(pair_lt((before[position].1, before[position].2), (before[j].1, before[j].2)));
                    }
                }
            } else {
                assert(before[j].1 == g.1 && before[j].2 == g.2);
            }
        }
        assert forall|i: int| 0 <= i < large.len() implies exists|j: int|
            0 <= j < after.len() && (#[trigger] after[j]).1 == (#[trigger] large[i]).1 && after[j].2 == large[i].2 by {
            if i < k {
                assert(large[i] == small[i]);
                let j = choose|j: int| 0 <= j < before.len() && (#[trigger] before[j]).1 == (#[trigger] small[i]).1 && before[j].2 == small[i].2;
                assert(after[j].1 == before[j].1 && after[j].2 == before[j].2);
            } else {
                assert(after[position].1 == large[i].1);
            }
        }
}

/// Inserting guard `k` at its place in comparison order keeps the pair
/// list.
proof fn lemma_pairs_insert(gs: Seq<GuardView>, k: int, before: Seq<GuardView>, position: int)
    requires
        0 <= k < gs.len(),
        pairs_of(gs.take(k), before),
        0 <= position <= before.len(),
        forall|i: int| 0 <= i < position ==> pair_lt((before[i].1, before[i].2), (gs[k].1, gs[k].2)),
        position < before.len() ==> !pair_lt((before[position].1, before[position].2), (gs[k].1, gs[k].2))
            && !(before[position].1 == gs[k].1 && before[position].2 == gs[k].2),
    ensures
        pairs_of(gs.take(k + 1), before.insert(position, gs[k])),
{
    let g = gs[k];
    let new_pair = (g.1, g.2);
        let after = before.insert(position, g);
        let small = gs.take(k);
        let large = gs.take(k + 1);
        assert(large[k] == g);
        if position < before.len() {
            lemma_pair_lt_total((before[position].1, before[position].2), new_pair);
        }
        assert forall|i: int, j: int| 0 <= i < j < after.len() implies pair_lt((after[i].1, after[i].2), (after[j].1, after[j].2)) by {
            if j < position {
            } else if i < position && j == position {
            } else if i < position && j > position {
                assert(after[j] == before[j - 1]);
                if j - 1 > position {
                    lemma_pair_lt_transitive((after[i].1, after[i].2), new_pair, (before[position].1, before[position].2));
                    lemma_pair_lt_transitive((after[i].1, after[i].2), (before[position].1, before[position].2), (before[j - 1].1, before[j - 1].2));
                } else {
                    lemma_pair_lt_transitive((after[i].1, after[i].2), new_pair, (before[position].1, before[position].2));
                }
            } else if i == position {
                assert(after[j] == before[j - 1]);
                if j - 1 > position {
                    lemma_pair_lt_transitive(new_pair, (before[position].1, before[position].2), (before[j - 1].1, before[j - 1].2));
                }
            } else {
                assert(after[i] == before[i - 1]);
                assert(after[j] == before[j - 1]);
            }
        }
        assert forall|j: int| 0 <= j < after.len() implies has_edge(large, (#[trigger] after[j]).1, after[j].2)
            && after[j].0 == least_kind(large, after[j].1, after[j].2) by {
            lemma_edge_extend(gs, k, after[j].1, after[j].2);
            if j != position {
                let old_j = if j < position { j } else { j - 1 };
                assert(after[j] == before[old_j]);
                if g.1 == before[old_j].1 && g.2 == before[old_j].2 {
                    if old_j < position {
                        lemma_pair_lt_irreflexive(new_pair);
                    } else {
                        assert(old_j == position || pair_lt((before[position].1, before[position].2), (before[old_j].1, before[old_j].2)));
                        if old_j > position {
                            lemma_pair_lt_transitive(new_pair, (before[position].1, before[position].2), (before[old_j].1, before[old_j].2));
                            lemma_pair_lt_irreflexive(new_pair);
                        }
                    }
                }
            } else {
                if has_edge(small, g.1, g.2) {
                    let i = choose|i: int| 0 <= i < small.len() && (#[trigger] small[i]).1 == g.1 && small[i].2 == g.2;
                    let j2 = choose|j2: int| 0 <= j2 < before.len() && (#[trigger] before[j2]).1 == (#[trigger] small[i]).1 && before[j2].2 == small[i].2;
                    if j2 < position {
                        lemma_pair_lt_irreflexive(new_pair);
                    } else if j2 > position {
                        lemma_pair_lt_transitive(new_pair, (before[position].1, before[position].2), (before[j2].1, before[j2].2));
                        lemma_pair_lt_irreflexive(new_pair);
                    }
                }
                let unit = (ReductionGuardKind::ChangeOfBasis, g.1, g.2);
                if exists|i: int| 0 <= i < small.len() && #[trigger] small[i] == unit {
                    let i = choose|i: int| 0 <= i < small.len() && #[trigger] small[i] == unit;
                    assert(has_edge(small, g.1, g.2)) by {
                        assert(small[i].1 == g.1 && small[i].2 == g.2);
                    }
                    let j2 = choose|j2: int| 0 <= j2 < before.len() && (#[trigger] before[j2]).1 == (#[trigger] small[i]).1 && before[j2].2 == small[i].2;
                    if j2 < position {
                        lemma_pair_lt_irreflexive(new_pair);
                    } else if j2 > position {
                        lemma_pair_lt_transitive(new_pair, (before[position].1, before[position].2), (before[j2].1, before[j2].2));
                        lemma_pair_lt_irreflexive(new_pair);
                    }
                }
            }
        }
        assert forall|i: int| 0 <= i < large.len() implies exists|j: int|
            0 <= j < after.len() && (#[trigger] after[j]).1 == (#[trigger] large[i]).1 && after[j].2 == large[i].2 by {
            if i < k {
                assert(large[i] == small[i]);
                let j = choose|j: int| 0 <= j < before.len() && (#[trigger] before[j]).1 == (#[trigger] small[i]).1 && before[j].2 == small[i].2;
                if j < position {
                    assert(after[j] == before[j]);
                } else {
                    assert(after[j + 1] == before[j]);
                }
            } else {
                assert(after[position] == g);
            }
        }

}

/// Add guard `n` of `guards` to the sorted distinct comparisons of the
/// guards before it.
fn insert_pair(
    entries: &mut Vec<PairEntry>,
    guard: &ReductionGuard,
    guards: Ghost<Seq<GuardView>>,
    n: Ghost<int>,
)
    requires
        0 <= n@ < guards@.len(),
        guards@[n@] == guard_view(*guard),
        pairs_of(guards@.take(n@), entry_views(old(entries)@)),
    ensures
        pairs_of(guards@.take(n@ + 1), entry_views(final(entries)@)),
{
    let ghost before = entry_views(entries@);
    let ghost g = guard_view(*guard);
    let earlier = guard.earlier();
    let later = guard.later();
    let mut position: usize = 0;
    while position < entries.len() && (vertices_less(entries[position].earlier.vertices(), earlier.vertices())
        || (same_vertices(entries[position].earlier.vertices(), earlier.vertices())
        && vertices_less(entries[position].later.vertices(), later.vertices())))
        invariant
            position <= entries.len(),
            entry_views(entries@) == before,
            g == (guard.spec_kind(), earlier@, later@),
            forall|i: int| 0 <= i < position ==> pair_lt((before[i].1, before[i].2), (g.1, g.2)),
        decreases entries.len() - position,
    {
        proof {
            assert(before[position as int] == (entries@[position as int].kind, entries@[position as int].earlier@, entries@[position as int].later@));
        }
        position += 1;
    }
    proof {
        if position < entries.len() {
            assert(before[position as int] == (entries@[position as int].kind, entries@[position as int].earlier@, entries@[position as int].later@));
        }
    }
    if position < entries.len() && same_vertices(entries[position].earlier.vertices(), earlier.vertices())
        && same_vertices(entries[position].later.vertices(), later.vertices()) {
        let kind = least_of(entries[position].kind, guard.kind());
        let entry = PairEntry {
            kind,
            earlier: entries[position].earlier.duplicate(),
            later: entries[position].later.duplicate(),
        };
        entries.set(position, entry);
        proof {
            lemma_pairs_merge(guards@, n@, before, position as int, kind);
            assert(entry_views(entries@) =~= before.update(position as int, (kind, g.1, g.2)));
        }
    } else {
        let entry = PairEntry { kind: guard.kind(), earlier: earlier.duplicate(), later: later.duplicate() };
        entries.insert(position, entry);
        proof {
            lemma_pairs_insert(guards@, n@, before, position as int);
            assert(entry_views(entries@) =~= before.insert(position as int, g));
        }
    }
}

/// Collect the distinct comparisons of `guards` in comparison order, each
/// with its least kind.
fn collect_pairs(guards: &Vec<ReductionGuard>) -> (entries: Vec<PairEntry>)
    ensures
        pairs_of(guard_views(guards@), entry_views(entries@)),
{
    let ghost gs = guard_views(guards@);
    let mut entries: Vec<PairEntry> = Vec::new();
    let mut index: usize = 0;
    proof {
        assert(entry_views(entries@) =~= Seq::<GuardView>::empty());
    }
    while index < guards.len()
        invariant
            gs == guard_views(guards@),
            index <= guards.len(),
            pairs_of(gs.take(index as int), entry_views(entries@)),
        decreases guards.len() - index,
    {
        insert_pair(&mut entries, &guards[index], Ghost(gs), Ghost(index as int));
        index += 1;
    }
    proof {
        assert(gs.take(guards.len() as int) =~= gs);
    }
    entries
}

/// The vertex lists of `nodes` are pairwise different.
pub open spec fn distinct_nodes(nodes: Seq<Seq<usize>>) -> bool {
    forall|x: int, y: int| 0 <= x < nodes.len() && 0 <= y < nodes.len() && x != y ==> nodes[x] != nodes[y]
}

/// Index of `simplex` among `nodes`, added at the end when absent.
pub(crate) fn node_of(nodes: &mut Vec<FiltrationSimplex>, simplex: &FiltrationSimplex) -> (index: usize)
    requires
        distinct_nodes(simplex_views(old(nodes)@)),
    ensures
        distinct_nodes(simplex_views(final(nodes)@)),
        index < final(nodes).len(),
        simplex_views(final(nodes)@)[index as int] == simplex@,
        simplex_views(final(nodes)@) == simplex_views(old(nodes)@) || simplex_views(final(nodes)@)
            == simplex_views(old(nodes)@).push(simplex@),
{
    let mut index: usize = 0;
    while index < nodes.len()
        invariant
            index <= nodes.len(),
            nodes@ == old(nodes)@,
            distinct_nodes(simplex_views(nodes@)),
            forall|x: int| 0 <= x < index ==> simplex_views(nodes@)[x] != simplex@,
        decreases nodes.len() - index,
    {
        if same_vertices(nodes[index].vertices(), simplex.vertices()) {
            proof {
                assert(simplex_views(nodes@)[index as int] == nodes@[index as int]@);
            }
            return index;
        }
        index += 1;
    }
    let ghost before = simplex_views(nodes@);
    nodes.push(simplex.duplicate());
    proof {
        assert(simplex_views(nodes@) =~= before.push(simplex@));
    }
    nodes.len() - 1
}

/// Number the endpoints of the comparisons and give each comparison as a
/// pair of node indices.
#[verifier::spinoff_prover]
fn index_nodes(entries: &Vec<PairEntry>) -> (result: (Vec<FiltrationSimplex>, Vec<(usize, usize)>))
    ensures
        distinct_nodes(simplex_views(result.0@)),
        result.1.len() == entries.len(),
        forall|j: int|
            0 <= j < result.1.len() ==> (#[trigger] result.1@[j]).0 < result.0.len() && result.1@[j].1
                < result.0.len() && result.0@[result.1@[j].0 as int]@ == entries@[j].earlier@
                && result.0@[result.1@[j].1 as int]@ == entries@[j].later@,
{
    let mut nodes: Vec<FiltrationSimplex> = Vec::new();
    let mut edges: Vec<(usize, usize)> = Vec::new();
    let mut index: usize = 0;
    while index < entries.len()
        invariant
            index <= entries.len(),
            edges.len() == index,
            distinct_nodes(simplex_views(nodes@)),
            forall|j: int|
                0 <= j < edges.len() ==> (#[trigger] edges@[j]).0 < nodes.len() && edges@[j].1 < nodes.len()
                    && nodes@[edges@[j].0 as int]@ == entries@[j].earlier@ && nodes@[edges@[j].1 as int]@
                    == entries@[j].later@,
        decreases entries.len() - index,
    {
        let ghost before = simplex_views(nodes@);
        let source = node_of(&mut nodes, &entries[index].earlier);
        let ghost middle = simplex_views(nodes@);
        let target = node_of(&mut nodes, &entries[index].later);
        proof {
            assert forall|x: int| 0 <= x < before.len() implies #[trigger] simplex_views(nodes@)[x] == before[x] by {
                assert(middle[x] == before[x]);
            }
            assert(simplex_views(nodes@)[source as int] == middle[source as int]);
        }
        edges.push((source, target));
        proof {
            assert forall|j: int|
                0 <= j < edges.len() implies (#[trigger] edges@[j]).0 < nodes.len() && edges@[j].1 < nodes.len()
                    && nodes@[edges@[j].0 as int]@ == entries@[j].earlier@ && nodes@[edges@[j].1 as int]@
                    == entries@[j].later@ by {
                if j < index {
                    assert(simplex_views(nodes@)[edges@[j].0 as int] == before[edges@[j].0 as int]);
                    assert(simplex_views(nodes@)[edges@[j].1 as int] == before[edges@[j].1 as int]);
                }
            }
        }
        index += 1;
    }
    (nodes, edges)
}

/// Successor lists of a graph on `count` nodes with the given edges.
fn successor_lists(count: usize, edges: &Vec<(usize, usize)>) -> (successors: Vec<Vec<usize>>)
    requires
        forall|j: int| 0 <= j < edges.len() ==> (#[trigger] edges@[j]).0 < count && edges@[j].1 < count,
    ensures
        successors.len() == count,
        forall|x: int, k: int|
            0 <= x < successors.len() && 0 <= k < successors[x]@.len() ==> #[trigger] successors[x]@[k]
                < successors.len(),
        forall|a: usize, b: usize|
            a < count ==> (#[trigger] successors@[a as int]@.contains(b) <==> exists|j: int|
                0 <= j < edges.len() && #[trigger] edges@[j] == (a, b)),
{
    let mut successors: Vec<Vec<usize>> = Vec::new();
    let mut node: usize = 0;
    while node < count
        invariant
            node <= count,
            successors.len() == node,
            forall|j: int| 0 <= j < edges.len() ==> (#[trigger] edges@[j]).0 < count && edges@[j].1 < count,
            forall|x: int, k: int|
                0 <= x < successors.len() && 0 <= k < successors[x]@.len() ==> #[trigger] successors[x]@[k]
                    < count,
            forall|a: usize, b: usize|
                a < node ==> (#[trigger] successors@[a as int]@.contains(b) <==> exists|j: int|
                    0 <= j < edges.len() && #[trigger] edges@[j] == (a, b)),
        decreases count - node,
    {
        let mut list: Vec<usize> = Vec::new();
        let mut j: usize = 0;
        while j < edges.len()
            invariant
                j <= edges.len(),
                node < count,
                forall|i: int| 0 <= i < edges.len() ==> (#[trigger] edges@[i]).0 < count && edges@[i].1 < count,
                forall|k: int| 0 <= k < list@.len() ==> #[trigger] list@[k] < count,
                forall|b: usize| #[trigger] list@.contains(b) <==> exists|i: int|
                    0 <= i < j && #[trigger] edges@[i] == (node, b),
            decreases edges.len() - j,
        {
            let (from, to) = edges[j];
            let ghost before = list@;
            if from == node {
                list.push(to);
                proof {
                    assert forall|b: usize| #[trigger] list@.contains(b) <==> exists|i: int|
                        0 <= i < j + 1 && #[trigger] edges@[i] == (node, b) by {
                        if list@.contains(b) {
                            let k = choose|k: int| 0 <= k < list@.len() && list@[k] == b;
                            if k < before.len() {
                                assert(before.contains(b));
                            } else {
                                assert(edges@[j as int] == (node, b));
                            }
                        }
                        if exists|i: int| 0 <= i < j + 1 && #[trigger] edges@[i] == (node, b) {
                            let i = choose|i: int| 0 <= i < j + 1 && #[trigger] edges@[i] == (node, b);
                            if i < j {
                                assert(exists|i2: int| 0 <= i2 < j && #[trigger] edges@[i2] == (node, b));
                                assert(before.contains(b));
                                let k = choose|k: int| 0 <= k < before.len() && before[k] == b;
                                assert(list@[k] == b);
                            } else {
                                assert(list@[before.len() as int] == b);
                            }
                        }
                    }
                }
            } else {
                proof {
                    assert forall|b: usize| #[trigger] list@.contains(b) <==> exists|i: int|
                        0 <= i < j + 1 && #[trigger] edges@[i] == (node, b) by {
                        if exists|i: int| 0 <= i < j + 1 && #[trigger] edges@[i] == (node, b) {
                            let i = choose|i: int| 0 <= i < j + 1 && #[trigger] edges@[i] == (node, b);
                            assert(i < j);
                        }
                    }
                }
            }
            j += 1;
        }
        let ghost before = successors@;
        successors.push(list);
        proof {
            assert forall|a: usize, b: usize|
                a < node + 1 implies (#[trigger] successors@[a as int]@.contains(b) <==> exists|i: int|
                    0 <= i < edges.len() && #[trigger] edges@[i] == (a, b)) by {
                if a < node {
                    assert(successors@[a as int] == before[a as int]);
                }
            }
        }
        node += 1;
    }
    successors
}

/// A walk along comparisons: each consecutive pair is compared by some
/// guard.
pub open spec fn walk_of(guards: Seq<GuardView>, walk: Seq<Seq<usize>>) -> bool {
    &&& walk.len() >= 1
    &&& forall|i: int| 0 <= i < walk.len() - 1 ==> has_edge(guards, #[trigger] walk[i], walk[i + 1])
}

/// `to` follows from `from` through a chain of comparisons, possibly empty.
pub open spec fn reaches(guards: Seq<GuardView>, from: Seq<usize>, to: Seq<usize>) -> bool {
    exists|walk: Seq<Seq<usize>>| #[trigger] walk_of(guards, walk) && walk[0] == from && walk.last() == to
}

/// The comparison of `earlier` with `later` follows from the others: some
/// other comparison of `earlier` leads on to `later`.
pub open spec fn implied(guards: Seq<GuardView>, earlier: Seq<usize>, later: Seq<usize>) -> bool {
    exists|next: Seq<usize>|
        has_edge(guards, earlier, next) && next != later && #[trigger] reaches(guards, next, later)
}

/// A guard of the transitive reduction: a comparison of `guards` that no
/// chain of other comparisons implies, with its least kind.
pub open spec fn kept_guard(guards: Seq<GuardView>, guard: GuardView) -> bool {
    &&& has_edge(guards, guard.1, guard.2)
    &&& guard.0 == least_kind(guards, guard.1, guard.2)
    &&& !implied(guards, guard.1, guard.2)
}

/// The index graph: pairs, distinct nodes, edges between node indices,
/// and successor lists, all describing the comparisons of `guards`.
spec fn graph_of(
    guards: Seq<GuardView>,
    pairs: Seq<GuardView>,
    nodes: Seq<Seq<usize>>,
    edges: Seq<(usize, usize)>,
    successors: Seq<Seq<usize>>,
) -> bool {
    &&& pairs_of(guards, pairs)
    &&& distinct_nodes(nodes)
    &&& edges.len() == pairs.len()
    &&& forall|j: int|
        0 <= j < edges.len() ==> (#[trigger] edges[j]).0 < nodes.len() && edges[j].1 < nodes.len()
            && nodes[edges[j].0 as int] == pairs[j].1 && nodes[edges[j].1 as int] == pairs[j].2
    &&& successors.len() == nodes.len()
    &&& forall|a: usize, b: usize|
        a < successors.len() ==> (#[trigger] successors[a as int].contains(b) <==> exists|j: int|
            0 <= j < edges.len() && #[trigger] edges[j] == (a, b))
}

proof fn lemma_index_edge(
    guards: Seq<GuardView>,
    pairs: Seq<GuardView>,
    nodes: Seq<Seq<usize>>,
    edges: Seq<(usize, usize)>,
    successors: Seq<Seq<usize>>,
    a: usize,
    b: usize,
)
    requires
        graph_of(guards, pairs, nodes, edges, successors),
        a < successors.len(),
        successors[a as int].contains(b),
    ensures
        b < nodes.len(),
        has_edge(guards, nodes[a as int], nodes[b as int]),
{
    let j = choose|j: int| 0 <= j < edges.len() && #[trigger] edges[j] == (a, b);
    assert(pairs[j] == pairs[j]);
}

proof fn lemma_edge_index(
    guards: Seq<GuardView>,
    pairs: Seq<GuardView>,
    nodes: Seq<Seq<usize>>,
    edges: Seq<(usize, usize)>,
    successors: Seq<Seq<usize>>,
    u: Seq<usize>,
    v: Seq<usize>,
) -> (result: (usize, usize))
    requires
        graph_of(guards, pairs, nodes, edges, successors),
        has_edge(guards, u, v),
    ensures
        result.0 < nodes.len(),
        result.1 < nodes.len(),
        nodes[result.0 as int] == u,
        nodes[result.1 as int] == v,
        successors[result.0 as int].contains(result.1),
        exists|j: int| 0 <= j < pairs.len() && pairs[j].1 == u && pairs[j].2 == v && #[trigger] edges[j] == result,
{
    let i = choose|i: int| 0 <= i < guards.len() && (#[trigger] guards[i]).1 == u && guards[i].2 == v;
    let j = choose|j: int|
        0 <= j < pairs.len() && (#[trigger] pairs[j]).1 == (#[trigger] guards[i]).1 && pairs[j].2 == guards[i].2;
    let result = edges[j];
    assert(successors[result.0 as int].contains(result.1));
    result
}

proof fn lemma_index_walk_maps(
    guards: Seq<GuardView>,
    pairs: Seq<GuardView>,
    nodes: Seq<Seq<usize>>,
    edges: Seq<(usize, usize)>,
    successors: Seq<Seq<usize>>,
    walk: Seq<usize>,
)
    requires
        graph_of(guards, pairs, nodes, edges, successors),
        index_walk(successors, walk),
        walk[0] < nodes.len(),
    ensures
        walk.last() < nodes.len(),
        reaches(guards, nodes[walk[0] as int], nodes[walk.last() as int]),
    decreases walk.len(),
{
    if walk.len() == 1 {
        assert(walk_of(guards, seq![nodes[walk[0] as int]]));
    } else {
        let shorter = walk.drop_last();
        assert forall|i: int| 0 <= i < shorter.len() - 1 implies (#[trigger] shorter[i]) < successors.len()
            && successors[shorter[i] as int].contains(shorter[i + 1]) by {
            assert(shorter[i] == walk[i] && shorter[i + 1] == walk[i + 1]);
        }
        lemma_index_walk_maps(guards, pairs, nodes, edges, successors, shorter);
        let k = walk.len() - 2;
        assert(walk[k] == shorter.last());
        lemma_index_edge(guards, pairs, nodes, edges, successors, walk[k], walk[k + 1]);
        let w = choose|w: Seq<Seq<usize>>| #[trigger] walk_of(guards, w) && w[0] == nodes[shorter[0] as int] && w.last() == nodes[shorter.last() as int];
        let longer = w.push(nodes[walk.last() as int]);
        assert forall|i: int| 0 <= i < longer.len() - 1 implies has_edge(guards, #[trigger] longer[i], longer[i + 1]) by {
            if i < w.len() - 1 {
                assert(longer[i] == w[i] && longer[i + 1] == w[i + 1]);
            } else {
                assert(longer[i] == w.last());
            }
        }
        assert(walk_of(guards, longer));
    }
}

proof fn lemma_walk_maps(
    guards: Seq<GuardView>,
    pairs: Seq<GuardView>,
    nodes: Seq<Seq<usize>>,
    edges: Seq<(usize, usize)>,
    successors: Seq<Seq<usize>>,
    walk: Seq<Seq<usize>>,
    start: usize,
)
    requires
        graph_of(guards, pairs, nodes, edges, successors),
        walk_of(guards, walk),
        start < nodes.len(),
        nodes[start as int] == walk[0],
    ensures
        exists|end: usize| end < nodes.len() && nodes[end as int] == walk.last() && #[trigger] index_reaches(successors, start, end),
    decreases walk.len(),
{
    if walk.len() == 1 {
        assert(index_walk(successors, seq![start]));
        assert(index_reaches(successors, start, start));
    } else {
        let shorter = walk.drop_last();
        assert forall|i: int| 0 <= i < shorter.len() - 1 implies has_edge(guards, #[trigger] shorter[i], shorter[i + 1]) by {
            assert(shorter[i] == walk[i] && shorter[i + 1] == walk[i + 1]);
        }
        lemma_walk_maps(guards, pairs, nodes, edges, successors, shorter, start);
        let end = choose|end: usize| end < nodes.len() && nodes[end as int] == shorter.last() && #[trigger] index_reaches(successors, start, end);
        let k = walk.len() - 2;
        assert(walk[k] == shorter.last());
        assert(has_edge(guards, walk[k], walk[k + 1]));
        let (x, y) = lemma_edge_index(guards, pairs, nodes, edges, successors, walk[k], walk[k + 1]);
        assert(x == end);
        lemma_reach_extend(successors, start, end, y);
    }
}

/// The search finds a detour exactly when another chain implies the
/// comparison of pair `j`.
proof fn lemma_detour_iff(
    guards: Seq<GuardView>,
    pairs: Seq<GuardView>,
    nodes: Seq<Seq<usize>>,
    edges: Seq<(usize, usize)>,
    successors: Seq<Seq<usize>>,
    j: int,
)
    requires
        graph_of(guards, pairs, nodes, edges, successors),
        0 <= j < pairs.len(),
    ensures
        has_detour_spec(successors, edges[j].0, edges[j].1) == implied(guards, pairs[j].1, pairs[j].2),
{
    let a = edges[j].0;
    let b = edges[j].1;
    assert(nodes[a as int] == pairs[j].1 && nodes[b as int] == pairs[j].2);
    if has_detour_spec(successors, a, b) {
        let y = choose|next: usize|
            successors[a as int].contains(next) && next != b && #[trigger] index_reaches(successors, next, b);
        lemma_index_edge(guards, pairs, nodes, edges, successors, a, y);
        let walk = choose|walk: Seq<usize>| #[trigger] index_walk(successors, walk) && walk[0] == y && walk.last() == b;
        lemma_index_walk_maps(guards, pairs, nodes, edges, successors, walk);
        assert(nodes[y as int] != nodes[b as int]);
        assert(reaches(guards, nodes[y as int], pairs[j].2));
        assert(implied(guards, pairs[j].1, pairs[j].2));
    }
    if implied(guards, pairs[j].1, pairs[j].2) {
        let n = choose|next: Seq<usize>|
            has_edge(guards, pairs[j].1, next) && next != pairs[j].2 && #[trigger] reaches(guards, next, pairs[j].2);
        let (x, y) = lemma_edge_index(guards, pairs, nodes, edges, successors, pairs[j].1, n);
        assert(x == a);
        let walk = choose|walk: Seq<Seq<usize>>| #[trigger] walk_of(guards, walk) && walk[0] == n && walk.last() == pairs[j].2;
        lemma_walk_maps(guards, pairs, nodes, edges, successors, walk, y);
        let end = choose|end: usize| end < nodes.len() && nodes[end as int] == walk.last() && #[trigger] index_reaches(successors, y, end);
        assert(end == b);
        assert(y != b);
        assert(has_detour_spec(successors, a, b));
    }
}

/// `guard` is the kept pair of `kind` at some position.
spec fn emitted_from(entries: Seq<PairEntry>, kept: Seq<bool>, kind: ReductionGuardKind, guard: GuardView) -> bool {
    exists|j: int|
        0 <= j < entries.len() && kept[j] && guard == #[trigger] entry_views(entries)[j] && entry_views(entries)[j].0 == kind
}

/// Append, in comparison order, a guard for every kept pair of `kind`.
fn emit_pass(
    out: &mut Vec<ReductionGuard>,
    entries: &Vec<PairEntry>,
    kept: &Vec<bool>,
    kind: ReductionGuardKind,
)
    requires
        kept.len() == entries.len(),
        forall|i: int, j: int|
            0 <= i < j < entries.len() ==> pair_lt(
                (entry_views(entries@)[i].1, entry_views(entries@)[i].2),
                (entry_views(entries@)[j].1, entry_views(entries@)[j].2),
            ),
        forall|k: int|
            0 <= k < old(out).len() ==> kind_rank((#[trigger] guard_views(old(out)@)[k]).0) < kind_rank(kind),
        forall|k1: int, k2: int|
            0 <= k1 < k2 < old(out).len() ==> guard_lt(guard_views(old(out)@)[k1], guard_views(old(out)@)[k2]),
    ensures
        final(out).len() >= old(out).len(),
        final(out)@.take(old(out).len() as int) == old(out)@,
        forall|k: int|
            old(out).len() <= k < final(out).len() ==> emitted_from(entries@, kept@, kind, #[trigger] guard_views(final(out)@)[k]),
        forall|j: int|
            0 <= j < entries.len() && kept[j] && entry_views(entries@)[j].0 == kind ==> exists|k: int|
                0 <= k < final(out).len() && #[trigger] guard_views(final(out)@)[k] == entry_views(entries@)[j],
        forall|k: int| 0 <= k < final(out).len() ==> kind_rank((#[trigger] guard_views(final(out)@)[k]).0) <= kind_rank(kind),
        forall|k1: int, k2: int|
            0 <= k1 < k2 < final(out).len() ==> guard_lt(guard_views(final(out)@)[k1], guard_views(final(out)@)[k2]),
{
    let ghost pv = entry_views(entries@);
    let ghost start = out@;
    let ghost mut sources: Seq<int> = Seq::empty();
    let mut j: usize = 0;
    while j < entries.len()
        invariant
            pv == entry_views(entries@),
            kept.len() == entries.len(),
            j <= entries.len(),
            forall|i: int, i2: int| 0 <= i < i2 < entries.len() ==> pair_lt((pv[i].1, pv[i].2), (pv[i2].1, pv[i2].2)),
            out@.take(start.len() as int) == start,
            out@.len() == start.len() + sources.len(),
            forall|k: int| 0 <= k < start.len() ==> kind_rank((#[trigger] guard_views(start)[k]).0) < kind_rank(kind),
            forall|k: int|
                0 <= k < sources.len() ==> 0 <= #[trigger] sources[k] < j && kept[sources[k]] && pv[sources[k]].0 == kind
                    && guard_views(out@)[start.len() + k] == pv[sources[k]],
            forall|i: int|
                0 <= i < j && kept[i] && pv[i].0 == kind ==> exists|k: int|
                    0 <= k < sources.len() && #[trigger] sources[k] == i,
            forall|k1: int, k2: int|
                0 <= k1 < k2 < out.len() ==> guard_lt(guard_views(out@)[k1], guard_views(out@)[k2]),
        decreases entries.len() - j,
    {
        if kept[j] && entries[j].kind == kind {
            let guard = ReductionGuard::new(kind, entries[j].earlier.duplicate(), entries[j].later.duplicate());
            let ghost before = out@;
            out.push(guard);
            proof {
                assert(guard_views(out@) =~= guard_views(before).push(guard_view(guard)));
                assert(guard_view(guard) == pv[j as int]);
                assert forall|k: int| 0 <= k < before.len() implies guard_lt(guard_views(before)[k], pv[j as int]) by {
                    if k < start.len() {
                        assert(guard_views(before)[k] == guard_views(start)[k]) by {
                            assert(before.take(start.len() as int)[k] == before[k]);
                        }
                    } else {
                        let source = sources[k - start.len()];
                        assert(guard_views(before)[k] == pv[source]);
                    }
                }
                let old_sources = sources;
                sources = sources.push(j as int);
                assert(out@.take(start.len() as int) =~= before.take(start.len() as int));
                assert forall|i: int|
                    0 <= i < j + 1 && kept[i] && pv[i].0 == kind implies exists|k: int|
                        0 <= k < sources.len() && #[trigger] sources[k] == i by {
                    if i < j {
                        let k = choose|k: int| 0 <= k < old_sources.len() && #[trigger] old_sources[k] == i;
                        assert(sources[k] == i);
                    } else {
                        assert(sources[old_sources.len() as int] == i);
                    }
                }
                assert forall|k: int|
                    0 <= k < sources.len() implies 0 <= #[trigger] sources[k] < j + 1 && kept[sources[k]] && pv[sources[k]].0 == kind
                        && guard_views(out@)[start.len() + k] == pv[sources[k]] by {
                    if k < old_sources.len() {
                        assert(sources[k] == old_sources[k]);
                        assert(guard_views(out@)[start.len() + k] == guard_views(before)[start.len() + k]);
                    }
                }
            }
        } else {
            proof {
                assert forall|i: int|
                    0 <= i < j + 1 && kept[i] && pv[i].0 == kind implies exists|k: int|
                        0 <= k < sources.len() && #[trigger] sources[k] == i by {
                    if i == j {
                        assert(pv[i].0 == entries@[i].kind);
                    }
                }
            }
        }
        j += 1;
    }
    proof {
        assert forall|k: int|
            start.len() <= k < out.len() implies emitted_from(entries@, kept@, kind, #[trigger] guard_views(out@)[k]) by {
            let source = sources[k - start.len()];
            assert(guard_views(out@)[k] == pv[source]);
            assert(entry_views(entries@)[source] == pv[source]);
        }

        assert forall|i: int|
            0 <= i < entries.len() && kept[i] && pv[i].0 == kind implies exists|k: int|
                0 <= k < out.len() && #[trigger] guard_views(out@)[k] == pv[i] by {
            let k = choose|k: int| 0 <= k < sources.len() && #[trigger] sources[k] == i;
            assert(guard_views(out@)[start.len() + k] == pv[i]);
        }
        assert forall|k: int| 0 <= k < out.len() implies kind_rank((#[trigger] guard_views(out@)[k]).0) <= kind_rank(kind) by {
            if k < start.len() {
                assert(out@.take(start.len() as int)[k] == out@[k]);
                assert(guard_views(out@)[k] == guard_views(start)[k]);
            } else {
                assert(guard_views(out@)[k] == pv[sources[k - start.len()]]);
            }
        }
    }
}

/// The transitive reduction of `guards`, in guard order: every comparison
/// that no chain of other comparisons implies, once, with the least kind
/// of the guards that ask for it.
pub fn minimize_guards(guards: Vec<ReductionGuard>) -> (reduced: Vec<ReductionGuard>)
    ensures
        forall|k: int| 0 <= k < reduced.len() ==> kept_guard(guard_views(guards@), #[trigger] guard_views(reduced@)[k]),
        forall|g: GuardView| kept_guard(guard_views(guards@), g) ==> exists|k: int|
            0 <= k < reduced.len() && #[trigger] guard_views(reduced@)[k] == g,
        forall|k1: int, k2: int|
            0 <= k1 < k2 < reduced.len() ==> guard_lt(guard_views(reduced@)[k1], guard_views(reduced@)[k2]),
{
    let ghost gs = guard_views(guards@);
    let entries = collect_pairs(&guards);
    let (nodes, edges) = index_nodes(&entries);
    let successors = successor_lists(nodes.len(), &edges);
    let ghost pv = entry_views(entries@);
    let ghost nv = simplex_views(nodes@);
    let ghost sv = successors@.map_values(|list: Vec<usize>| list@);
    proof {
        assert forall|j: int| 0 <= j < edges.len() implies (#[trigger] edges@[j]).0 < nv.len() && edges@[j].1 < nv.len()
            && nv[edges@[j].0 as int] == pv[j].1 && nv[edges@[j].1 as int] == pv[j].2 by {
        }
        assert forall|a: usize, b: usize| a < sv.len() implies (#[trigger] sv[a as int].contains(b) <==> exists|j: int|
            0 <= j < edges.len() && #[trigger] edges@[j] == (a, b)) by {
            assert(sv[a as int] == successors@[a as int]@);
        }
        assert(graph_of(gs, pv, nv, edges@, sv));
    }
    let mut kept: Vec<bool> = Vec::new();
    let mut j: usize = 0;
    while j < entries.len()
        invariant
            j <= entries.len(),
            kept.len() == j,
            edges.len() == entries.len(),
            successors.len() == nodes.len(),
            sv == successors@.map_values(|list: Vec<usize>| list@),
            graph_of(gs, pv, nv, edges@, sv),
            forall|x: int, k: int|
                0 <= x < successors.len() && 0 <= k < successors[x]@.len() ==> #[trigger] successors[x]@[k]
                    < successors.len(),
            forall|i: int| 0 <= i < j ==> kept[i] == !implied(gs, pv[i].1, pv[i].2),
        decreases entries.len() - j,
    {
        let (source, target) = edges[j];
        proof {
            assert(edges@[j as int] == (source, target));
        }
        let detour = has_detour(&successors, source, target);
        proof {
            lemma_detour_iff(gs, pv, nv, edges@, sv, j as int);
        }
        kept.push(!detour);
        j += 1;
    }
    let mut reduced: Vec<ReductionGuard> = Vec::new();
    emit_pass(&mut reduced, &entries, &kept, ReductionGuardKind::ChangeOfBasis);
    let ghost first = reduced@;
    emit_pass(&mut reduced, &entries, &kept, ReductionGuardKind::Pivot);
    proof {
        assert forall|k: int| 0 <= k < reduced.len() implies kept_guard(gs, #[trigger] guard_views(reduced@)[k]) by {
            if k < first.len() {
                assert(reduced@.take(first.len() as int)[k] == reduced@[k]);
                assert(guard_views(reduced@)[k] == guard_views(first)[k]);
                assert(emitted_from(entries@, kept@, ReductionGuardKind::ChangeOfBasis, guard_views(first)[k]));
            } else {
                assert(emitted_from(entries@, kept@, ReductionGuardKind::Pivot, guard_views(reduced@)[k]));
            }
        }
        assert forall|g: GuardView| kept_guard(gs, g) implies exists|k: int|
            0 <= k < reduced.len() && #[trigger] guard_views(reduced@)[k] == g by {
            let (x, y) = lemma_edge_index(gs, pv, nv, edges@, sv, g.1, g.2);
            let i = choose|i: int| 0 <= i < pv.len() && pv[i].1 == g.1 && pv[i].2 == g.2 && #[trigger] edges@[i] == (x, y);
            assert(pv[i] == g);
            assert(kept[i]);
            assert(entry_views(entries@)[i] == g);
            if g.0 == ReductionGuardKind::ChangeOfBasis {
                assert(exists|k: int| 0 <= k < first.len() && #[trigger] guard_views(first)[k] == entry_views(entries@)[i]);
                let k = choose|k: int| 0 <= k < first.len() && #[trigger] guard_views(first)[k] == pv[i];
                assert(k < reduced@.len());
                assert(reduced@.take(first.len() as int)[k] == reduced@[k]);
                assert(guard_views(reduced@)[k] == guard_views(first)[k]);
            }
        }
    }
    reduced
}

proof fn lemma_guard_lt_transitive(a: GuardView, b: GuardView, c: GuardView)
    requires
        guard_lt(a, b),
        guard_lt(b, c),
    ensures
        guard_lt(a, c),
{
    if a.0 == b.0 && b.0 == c.0 {
        lemma_pair_lt_transitive((a.1, a.2), (b.1, b.2), (c.1, c.2));
    }
}

proof fn lemma_guard_lt_total(a: GuardView, b: GuardView)
    ensures
        a == b || guard_lt(a, b) || guard_lt(b, a),
{
    lemma_pair_lt_total((a.1, a.2), (b.1, b.2));
    if a.0 != b.0 {
        assert(kind_rank(a.0) != kind_rank(b.0));
    }
}

proof fn lemma_guard_lt_irreflexive(a: GuardView)
    ensures
        !guard_lt(a, a),
{
    lemma_pair_lt_irreflexive((a.1, a.2));
}

/// `set` lists each guard of `guards` once, in guard order.
pub open spec fn guard_set_of(guards: Seq<GuardView>, set: Seq<GuardView>) -> bool {
    &&& forall|i: int, j: int| 0 <= i < j < set.len() ==> guard_lt(set[i], set[j])
    &&& forall|g: GuardView| #[trigger] set.contains(g) <==> guards.contains(g)
}

/// Whether guard `first` precedes guard `second`.
fn guard_less(first: &ReductionGuard, second: &ReductionGuard) -> (less: bool)
    ensures
        less == guard_lt(guard_view(*first), guard_view(*second)),
{
    let first_rank: u8 = match first.kind() {
        ReductionGuardKind::ChangeOfBasis => 0,
        ReductionGuardKind::Pivot => 1,
    };
    let second_rank: u8 = match second.kind() {
        ReductionGuardKind::ChangeOfBasis => 0,
        ReductionGuardKind::Pivot => 1,
    };
    if first_rank != second_rank {
        return first_rank < second_rank;
    }
    let earlier = vertices_less(first.earlier().vertices(), second.earlier().vertices());
    let same = same_vertices(first.earlier().vertices(), second.earlier().vertices());
    let later = vertices_less(first.later().vertices(), second.later().vertices());
    earlier || (same && later)
}

/// The distinct guards of `guards`, in guard order.
pub fn sorted_guard_set(guards: &Vec<ReductionGuard>) -> (set: Vec<ReductionGuard>)
    ensures
        guard_set_of(guard_views(guards@), guard_views(set@)),
{
    let ghost gs = guard_views(guards@);
    let mut set: Vec<ReductionGuard> = Vec::new();
    let mut index: usize = 0;
    while index < guards.len()
        invariant
            gs == guard_views(guards@),
            index <= guards.len(),
            guard_set_of(gs.take(index as int), guard_views(set@)),
        decreases guards.len() - index,
    {
        let guard = &guards[index];
        let ghost g = guard_view(*guard);
        let ghost before = guard_views(set@);
        proof {
            assert(gs[index as int] == g);
            assert(gs.take(index + 1) =~= gs.take(index as int).push(g));
        }
        let mut position: usize = 0;
        while position < set.len()
            invariant
                position <= set.len(),
                guard_views(set@) == before,
                g == guard_view(*guard),
                forall|i: int| 0 <= i < position ==> guard_lt(before[i], g),
            ensures
                position <= set.len(),
                guard_views(set@) == before,
                forall|i: int| 0 <= i < position ==> guard_lt(before[i], g),
                position < set.len() ==> !guard_lt(before[position as int], g),
            decreases set.len() - position,
        {
            let less = guard_less(&set[position], guard);
            proof {
                assert(before[position as int] == guard_view(set@[position as int]));
            }
            if !less {
                break;
            }
            position += 1;
        }
        proof {
            if position < set.len() {
                assert(before[position as int] == guard_view(set@[position as int]));
            }
        }
        let duplicate = position < set.len() && !guard_less(guard, &set[position]);
        proof {
            if position < set.len() {
                lemma_guard_lt_total(before[position as int], g);
            }
        }
        if duplicate {
            proof {
                assert(before[position as int] == g);
                assert forall|x: GuardView| #[trigger] before.contains(x) <==> gs.take(index + 1).contains(x) by {
                    if x == g {
                        assert(before.contains(g));
                        assert(gs.take(index + 1)[index as int] == g);
                    }
                    if gs.take(index + 1).contains(x) && x != g {
                        let k = choose|k: int| 0 <= k < index + 1 && #[trigger] gs.take(index + 1)[k] == x;
                        assert(gs.take(index as int)[k] == x);
                    }
                    if before.contains(x) {
                        assert(gs.take(index as int).contains(x));
                        let k = choose|k: int| 0 <= k < index && #[trigger] gs.take(index as int)[k] == x;
                        assert(gs.take(index + 1)[k] == x);
                    }
                }
            }
        } else {
            let copy = ReductionGuard::new(guard.kind(), guard.earlier().duplicate(), guard.later().duplicate());
            set.insert(position, copy);
            proof {
                let after = guard_views(set@);
                assert(after =~= before.insert(position as int, g));
                assert forall|i: int, j: int| 0 <= i < j < after.len() implies guard_lt(after[i], after[j]) by {
                    if j < position {
                    } else if j == position {
                    } else if i < position {
                        assert(after[j] == before[j - 1]);
                        if position < before.len() {
                            assert(guard_lt(g, before[position as int]));
                            if j - 1 > position {
                                lemma_guard_lt_transitive(g, before[position as int], before[j - 1]);
                            }
                        }
                        lemma_guard_lt_transitive(before[i], g, before[j - 1]);
                    } else if i == position {
                        assert(after[j] == before[j - 1]);
                        assert(guard_lt(g, before[position as int]));
                        if j - 1 > position {
                            lemma_guard_lt_transitive(g, before[position as int], before[j - 1]);
                        }
                    } else {
                        assert(after[i] == before[i - 1]);
                        assert(after[j] == before[j - 1]);
                    }
                }
                assert forall|x: GuardView| #[trigger] after.contains(x) <==> gs.take(index + 1).contains(x) by {
                    if after.contains(x) {
                        let k = choose|k: int| 0 <= k < after.len() && #[trigger] after[k] == x;
                        if k == position {
                            assert(gs.take(index + 1)[index as int] == g);
                        } else {
                            let k0 = if k < position { k } else { k - 1 };
                            assert(before[k0] == x);
                            assert(before.contains(x));
                            let m = choose|m: int| 0 <= m < index && #[trigger] gs.take(index as int)[m] == x;
                            assert(gs.take(index + 1)[m] == x);
                        }
                    }
                    if gs.take(index + 1).contains(x) {
                        let m = choose|m: int| 0 <= m < index + 1 && #[trigger] gs.take(index + 1)[m] == x;
                        if m == index {
                            assert(after[position as int] == x);
                        } else {
                            assert(gs.take(index as int)[m] == x);
                            assert(gs.take(index as int).contains(x));
                            assert(before.contains(x));
                            let k = choose|k: int| 0 <= k < before.len() && #[trigger] before[k] == x;
                            if k < position {
                                assert(after[k] == x);
                            } else {
                                assert(after[k + 1] == x);
                            }
                        }
                    }
                }
            }
        }
        index += 1;
    }
    proof {
        assert(gs.take(guards.len() as int) =~= gs);
    }
    set
}

/// Both simplices of every guard are among `simplices`.
pub open spec fn guards_within(guards: Seq<GuardView>, simplices: Seq<Seq<usize>>) -> bool {
    forall|k: int|
        0 <= k < guards.len() ==> simplices.contains((#[trigger] guards[k]).1) && simplices.contains(guards[k].2)
}

proof fn lemma_column_change_within(terms: Seq<CertificateTerm>, target: int, simplices: Seq<Seq<usize>>)
    requires
        0 <= target < simplices.len(),
        forall|t: int| 0 <= t < terms.len() ==> (#[trigger] terms[t]).index < simplices.len(),
    ensures
        guards_within(column_change_guards(terms, target, simplices), simplices),
    decreases terms.len(),
{
    if terms.len() > 0 {
        let rest = terms.drop_last();
        assert forall|t: int| 0 <= t < rest.len() implies (#[trigger] rest[t]).index < simplices.len() by {
            assert(rest[t] == terms[t]);
        }
        lemma_column_change_within(rest, target, simplices);
        assert(terms.last() == terms[terms.len() - 1]);
        let all = column_change_guards(terms, target, simplices);
        let before = column_change_guards(rest, target, simplices);
        assert forall|k: int| 0 <= k < all.len() implies simplices.contains((#[trigger] all[k]).1) && simplices.contains(all[k].2) by {
            if k < before.len() {
                assert(all[k] == before[k]);
            } else {
                assert(simplices[terms.last().index as int] == all[k].1);
                assert(simplices[target] == all[k].2);
            }
        }
    }
}

/// Both simplices of every change-of-basis guard are among `simplices`.
pub proof fn lemma_change_guards_within(columns: Seq<Seq<CertificateTerm>>, simplices: Seq<Seq<usize>>)
    requires
        columns.len() <= simplices.len(),
        forall|j: int, t: int|
            0 <= j < columns.len() && 0 <= t < columns[j].len() ==> (#[trigger] columns[j][t]).index < simplices.len(),
    ensures
        guards_within(change_guards(columns, simplices), simplices),
    decreases columns.len(),
{
    if columns.len() > 0 {
        let rest = columns.drop_last();
        assert forall|j: int, t: int| 0 <= j < rest.len() && 0 <= t < rest[j].len() implies (#[trigger] rest[j][t]).index
            < simplices.len() by {
            assert(rest[j] == columns[j]);
        }
        lemma_change_guards_within(rest, simplices);
        let last = columns.last();
        assert(last == columns[columns.len() - 1]);
        assert forall|t: int| 0 <= t < last.len() implies (#[trigger] last[t]).index < simplices.len() by {
            assert(columns[columns.len() - 1][t] == last[t]);
        }
        lemma_column_change_within(last, columns.len() - 1, simplices);
        let all = change_guards(columns, simplices);
        let before = change_guards(rest, simplices);
        let tail = column_change_guards(last, columns.len() - 1, simplices);
        assert forall|k: int| 0 <= k < all.len() implies simplices.contains((#[trigger] all[k]).1) && simplices.contains(all[k].2) by {
            if k < before.len() {
                assert(all[k] == before[k]);
            } else {
                assert(all[k] == tail[k - before.len()]);
            }
        }
    }
}

proof fn lemma_column_pivot_within(rows: Seq<(usize, u64)>, pivot: usize, simplices: Seq<Seq<usize>>)
    requires
        pivot < simplices.len(),
        forall|t: int| 0 <= t < rows.len() ==> (#[trigger] rows[t]).0 < simplices.len(),
    ensures
        guards_within(column_pivot_guards(rows, pivot, simplices), simplices),
    decreases rows.len(),
{
    if rows.len() > 0 {
        let rest = rows.drop_last();
        assert forall|t: int| 0 <= t < rest.len() implies (#[trigger] rest[t]).0 < simplices.len() by {
            assert(rest[t] == rows[t]);
        }
        lemma_column_pivot_within(rest, pivot, simplices);
        assert(rows.last() == rows[rows.len() - 1]);
        let all = column_pivot_guards(rows, pivot, simplices);
        let before = column_pivot_guards(rest, pivot, simplices);
        assert forall|k: int| 0 <= k < all.len() implies simplices.contains((#[trigger] all[k]).1) && simplices.contains(all[k].2) by {
            if k < before.len() {
                assert(all[k] == before[k]);
            } else {
                assert(simplices[rows.last().0 as int] == all[k].1);
                assert(simplices[pivot as int] == all[k].2);
            }
        }
    }
}

/// Both simplices of every pivot guard are among `simplices`.
pub proof fn lemma_pivot_guards_within(columns: Seq<Seq<(usize, u64)>>, simplices: Seq<Seq<usize>>)
    requires
        forall|j: int, t: int|
            0 <= j < columns.len() && 0 <= t < columns[j].len() ==> (#[trigger] columns[j][t]).0 < simplices.len(),
    ensures
        guards_within(pivot_guards(columns, simplices), simplices),
    decreases columns.len(),
{
    if columns.len() > 0 {
        let rest = columns.drop_last();
        assert forall|j: int, t: int| 0 <= j < rest.len() && 0 <= t < rest[j].len() implies (#[trigger] rest[j][t]).0
            < simplices.len() by {
            assert(rest[j] == columns[j]);
        }
        lemma_pivot_guards_within(rest, simplices);
        let last = columns.last();
        assert(last == columns[columns.len() - 1]);
        let all = pivot_guards(columns, simplices);
        let before = pivot_guards(rest, simplices);
        if last.len() > 0 {
            assert forall|t: int| 0 <= t < last.len() implies (#[trigger] last[t]).0 < simplices.len() by {
                assert(columns[columns.len() - 1][t] == last[t]);
            }
            assert(last[last.len() - 1] == last.last());
            lemma_column_pivot_within(last, last.last().0, simplices);
            let tail = column_pivot_guards(last, last.last().0, simplices);
            assert forall|k: int| 0 <= k < all.len() implies simplices.contains((#[trigger] all[k]).1) && simplices.contains(all[k].2) by {
                if k < before.len() {
                    assert(all[k] == before[k]);
                } else {
                    assert(all[k] == tail[k - before.len()]);
                }
            }
        } else {
            assert(all =~= before);
        }
    }
}

} // verus!
