//! The transitive reduction of the guards loses no comparison: where some
//! potential rises along every guard, and so wherever the guards form no
//! cycle, the kept guards reach exactly what all the guards reach.

use vstd::prelude::*;

use super::guards::{has_edge, implied, kept_guard, least_kind, reaches, walk_of, GuardView};

verus! {

/// `potential` rises strictly along every guard: the comparisons form no
/// cycle.
pub open spec fn rises(guards: Seq<GuardView>, potential: spec_fn(Seq<usize>) -> int) -> bool {
    forall|i: int| 0 <= i < guards.len() ==> potential((#[trigger] guards[i]).1) < potential(guards[i].2)
}

/// `reduced` holds exactly the kept guards of `guards`.
pub open spec fn reduction_of(guards: Seq<GuardView>, reduced: Seq<GuardView>) -> bool {
    &&& forall|k: int| 0 <= k < reduced.len() ==> kept_guard(guards, #[trigger] reduced[k])
    &&& forall|g: GuardView| kept_guard(guards, g) ==> #[trigger] reduced.contains(g)
}

/// The potential rises along a walk, strictly unless the walk stays put.
proof fn lemma_walk_rises(guards: Seq<GuardView>, potential: spec_fn(Seq<usize>) -> int, walk: Seq<Seq<usize>>)
    requires
        rises(guards, potential),
        walk_of(guards, walk),
    ensures
        potential(walk[0]) <= potential(walk.last()),
        walk.len() >= 2 ==> potential(walk[0]) < potential(walk.last()),
        forall|i: int| 0 <= i < walk.len() ==> potential(walk[0]) <= #[trigger] potential(walk[i]) <= potential(walk.last()),
    decreases walk.len(),
{
    if walk.len() >= 2 {
        let rest = walk.drop_last();
        assert(walk_of(guards, rest)) by {
            assert forall|i: int| 0 <= i < rest.len() - 1 implies has_edge(guards, #[trigger] rest[i], rest[i + 1]) by {
                assert(has_edge(guards, walk[i], walk[i + 1]));
            }
        }
        lemma_walk_rises(guards, potential, rest);
        let n = walk.len() - 1;
        assert(has_edge(guards, walk[n - 1], walk[n]));
        let j = choose|j: int| 0 <= j < guards.len() && (#[trigger] guards[j]).1 == walk[n - 1] && guards[j].2 == walk[n];
        assert(walk.last() == walk[n]);
        assert forall|i: int| 0 <= i < walk.len() implies potential(walk[0]) <= #[trigger] potential(walk[i]) <= potential(walk.last()) by {
            if i < n {
                assert(walk[i] == rest[i]);
            }
        }
    } else {
        assert(walk.last() == walk[0]);
    }
}

/// Reaching is transitive.
proof fn lemma_reaches_join(guards: Seq<GuardView>, from: Seq<usize>, middle: Seq<usize>, to: Seq<usize>)
    requires
        reaches(guards, from, middle),
        reaches(guards, middle, to),
    ensures
        reaches(guards, from, to),
{
    let first = choose|walk: Seq<Seq<usize>>| #[trigger] walk_of(guards, walk) && walk[0] == from && walk.last() == middle;
    let second = choose|walk: Seq<Seq<usize>>| #[trigger] walk_of(guards, walk) && walk[0] == middle && walk.last() == to;
    let joined = first + second.drop_first();
    assert forall|i: int| 0 <= i < joined.len() - 1 implies has_edge(guards, #[trigger] joined[i], joined[i + 1]) by {
        if i < first.len() - 1 {
            assert(joined[i] == first[i] && joined[i + 1] == first[i + 1]);
        } else if i == first.len() - 1 {
            assert(joined[i] == first.last());
            assert(joined[i + 1] == second[1]);
            assert(has_edge(guards, second[0], second[1]));
        } else {
            let k = i - first.len() + 1;
            assert(joined[i] == second[k] && joined[i + 1] == second[k + 1]);
        }
    }
    if second.len() == 1 {
        assert(joined =~= first);
        assert(second.last() == second[0]);
    } else {
        assert(joined.last() == second.last());
    }
    assert(walk_of(guards, joined));
}

/// A single comparison reaches its later simplex.
proof fn lemma_edge_reaches(guards: Seq<GuardView>, from: Seq<usize>, to: Seq<usize>)
    requires
        has_edge(guards, from, to),
    ensures
        reaches(guards, from, to),
{
    let walk = seq![from, to];
    assert(walk_of(guards, walk));
}

/// A walk whose comparisons the reduction reaches is reached by the
/// reduction.
proof fn lemma_walk_lifts(
    guards: Seq<GuardView>,
    reduced: Seq<GuardView>,
    walk: Seq<Seq<usize>>,
)
    requires
        walk_of(guards, walk),
        forall|i: int| 0 <= i < walk.len() - 1 ==> reaches(reduced, #[trigger] walk[i], walk[i + 1]),
    ensures
        reaches(reduced, walk[0], walk.last()),
    decreases walk.len(),
{
    if walk.len() == 1 {
        let trivial = seq![walk[0]];
        assert(walk_of(reduced, trivial));
        assert(walk.last() == walk[0]);
    } else {
        let rest = walk.drop_last();
        assert(walk_of(guards, rest)) by {
            assert forall|i: int| 0 <= i < rest.len() - 1 implies has_edge(guards, #[trigger] rest[i], rest[i + 1]) by {
                assert(has_edge(guards, walk[i], walk[i + 1]));
            }
        }
        assert forall|i: int| 0 <= i < rest.len() - 1 implies reaches(reduced, #[trigger] rest[i], rest[i + 1]) by {
            assert(reaches(reduced, walk[i], walk[i + 1]));
        }
        lemma_walk_lifts(guards, reduced, rest);
        let n = walk.len() - 1;
        assert(reaches(reduced, walk[n - 1], walk[n]));
        assert(rest.last() == walk[n - 1]);
        lemma_reaches_join(reduced, walk[0], walk[n - 1], walk[n]);
    }
}

/// Every comparison whose potential gap is at most `gap` is reached by the
/// reduction.
proof fn lemma_short_edges_reached(
    guards: Seq<GuardView>,
    reduced: Seq<GuardView>,
    potential: spec_fn(Seq<usize>) -> int,
    gap: nat,
)
    requires
        rises(guards, potential),
        reduction_of(guards, reduced),
    ensures
        forall|from: Seq<usize>, to: Seq<usize>|
            has_edge(guards, from, to) && potential(to) - potential(from) <= gap ==> #[trigger] reaches(reduced, from, to),
    decreases gap,
{
    if gap > 0 {
        lemma_short_edges_reached(guards, reduced, potential, (gap - 1) as nat);
    }
    assert forall|from: Seq<usize>, to: Seq<usize>|
        has_edge(guards, from, to) && potential(to) - potential(from) <= gap implies #[trigger] reaches(reduced, from, to) by {
        let j = choose|j: int| 0 <= j < guards.len() && (#[trigger] guards[j]).1 == from && guards[j].2 == to;
        assert(potential(from) < potential(to));
        if !implied(guards, from, to) {
            let kept = (least_kind(guards, from, to), from, to);
            assert(kept_guard(guards, kept));
            assert(reduced.contains(kept));
            let k = choose|k: int| 0 <= k < reduced.len() && reduced[k] == kept;
            assert(has_edge(reduced, from, to)) by {
                assert(reduced[k].1 == from && reduced[k].2 == to);
            }
            lemma_edge_reaches(reduced, from, to);
        } else {
            let next = choose|next: Seq<usize>| has_edge(guards, from, next) && next != to && #[trigger] reaches(guards, next, to);
            let i = choose|i: int| 0 <= i < guards.len() && (#[trigger] guards[i]).1 == from && guards[i].2 == next;
            let walk = choose|walk: Seq<Seq<usize>>| #[trigger] walk_of(guards, walk) && walk[0] == next && walk.last() == to;
            lemma_walk_rises(guards, potential, walk);
            if walk.len() < 2 {
                assert(walk.last() == walk[0]);
            }
            assert(potential(next) < potential(to));
            assert(reaches(reduced, from, next));
            assert forall|t: int| 0 <= t < walk.len() - 1 implies reaches(reduced, #[trigger] walk[t], walk[t + 1]) by {
                assert(has_edge(guards, walk[t], walk[t + 1]));
                let e = choose|e: int| 0 <= e < guards.len() && (#[trigger] guards[e]).1 == walk[t] && guards[e].2 == walk[t + 1];
                assert(potential(walk[0]) <= potential(walk[t]));
                assert(potential(walk[t + 1]) <= potential(walk.last()));
            }
            lemma_walk_lifts(guards, reduced, walk);
            lemma_reaches_join(reduced, from, next, to);
        }
    }
}

/// The transitive reduction loses no comparison: where a potential rises
/// along every guard, the guards the reduction keeps reach from a simplex
/// exactly the simplices that all the guards reach.
pub proof fn lemma_reduction_reaches(
    guards: Seq<GuardView>,
    reduced: Seq<GuardView>,
    potential: spec_fn(Seq<usize>) -> int,
    from: Seq<usize>,
    to: Seq<usize>,
)
    requires
        rises(guards, potential),
        reduction_of(guards, reduced),
    ensures
        reaches(guards, from, to) <==> reaches(reduced, from, to),
{
    if reaches(reduced, from, to) {
        let walk = choose|walk: Seq<Seq<usize>>| #[trigger] walk_of(reduced, walk) && walk[0] == from && walk.last() == to;
        assert forall|i: int| 0 <= i < walk.len() - 1 implies has_edge(guards, #[trigger] walk[i], walk[i + 1]) by {
            assert(has_edge(reduced, walk[i], walk[i + 1]));
            let k = choose|k: int| 0 <= k < reduced.len() && (#[trigger] reduced[k]).1 == walk[i] && reduced[k].2 == walk[i + 1];
            assert(kept_guard(guards, reduced[k]));
        }
        assert(walk_of(guards, walk));
    }
    if reaches(guards, from, to) {
        let walk = choose|walk: Seq<Seq<usize>>| #[trigger] walk_of(guards, walk) && walk[0] == from && walk.last() == to;
        lemma_walk_rises(guards, potential, walk);
        let gap = (potential(walk.last()) - potential(walk[0])) as nat;
        lemma_short_edges_reached(guards, reduced, potential, gap);
        assert forall|t: int| 0 <= t < walk.len() - 1 implies reaches(reduced, #[trigger] walk[t], walk[t + 1]) by {
            assert(has_edge(guards, walk[t], walk[t + 1]));
            let e = choose|e: int| 0 <= e < guards.len() && (#[trigger] guards[e]).1 == walk[t] && guards[e].2 == walk[t + 1];
            assert(potential(walk[0]) <= potential(walk[t]));
            assert(potential(walk[t + 1]) <= potential(walk.last()));
        }
        lemma_walk_lifts(guards, reduced, walk);
    }
}

/// No comparison the reduction keeps follows from the others it keeps:
/// the kept guards form a transitive reduction.
pub proof fn lemma_reduction_is_minimal(guards: Seq<GuardView>, reduced: Seq<GuardView>, k: int)
    requires
        reduction_of(guards, reduced),
        0 <= k < reduced.len(),
    ensures
        !implied(reduced, reduced[k].1, reduced[k].2),
{
    let g = reduced[k];
    assert(kept_guard(guards, g));
    if implied(reduced, g.1, g.2) {
        let next = choose|next: Seq<usize>| has_edge(reduced, g.1, next) && next != g.2 && #[trigger] reaches(reduced, next, g.2);
        let i = choose|i: int| 0 <= i < reduced.len() && (#[trigger] reduced[i]).1 == g.1 && reduced[i].2 == next;
        assert(kept_guard(guards, reduced[i]));
        assert(has_edge(guards, g.1, next));
        let walk = choose|walk: Seq<Seq<usize>>| #[trigger] walk_of(reduced, walk) && walk[0] == next && walk.last() == g.2;
        assert forall|t: int| 0 <= t < walk.len() - 1 implies has_edge(guards, #[trigger] walk[t], walk[t + 1]) by {
            assert(has_edge(reduced, walk[t], walk[t + 1]));
            let e = choose|e: int| 0 <= e < reduced.len() && (#[trigger] reduced[e]).1 == walk[t] && reduced[e].2 == walk[t + 1];
            assert(kept_guard(guards, reduced[e]));
        }
        assert(walk_of(guards, walk));
        assert(reaches(guards, next, g.2));
        assert(implied(guards, g.1, g.2));
    }
}

/// No comparison leads back, through the comparisons, to its earlier
/// simplex.
pub open spec fn acyclic(guards: Seq<GuardView>) -> bool {
    forall|i: int| 0 <= i < guards.len() ==> !reaches(guards, (#[trigger] guards[i]).2, guards[i].1)
}

/// The positions of the guards whose earlier simplex `node` reaches.
spec fn reached_guards(guards: Seq<GuardView>, node: Seq<usize>) -> Set<int> {
    Set::new(|i: int| 0 <= i < guards.len() && reaches(guards, node, guards[i].1))
}

/// How few guards a simplex reaches: it rises along every comparison when
/// the comparisons form no cycle.
spec fn depth_potential(guards: Seq<GuardView>) -> spec_fn(Seq<usize>) -> int {
    |node: Seq<usize>| guards.len() - reached_guards(guards, node).len()
}

proof fn lemma_acyclic_rises(guards: Seq<GuardView>)
    requires
        acyclic(guards),
    ensures
        rises(guards, depth_potential(guards)),
{
    vstd::set_lib::lemma_int_range(0, guards.len() as int);
    assert forall|i: int| 0 <= i < guards.len() implies depth_potential(guards)((#[trigger] guards[i]).1) < depth_potential(
        guards,
    )(guards[i].2) by {
        let a = guards[i].1;
        let b = guards[i].2;
        let from_a = reached_guards(guards, a);
        let from_b = reached_guards(guards, b);
        let range = vstd::set_lib::set_int_range(0, guards.len() as int);
        assert(from_a.subset_of(range));
        vstd::set_lib::lemma_len_subset(from_a, range);
        let pair = seq![a, b];
        assert(has_edge(guards, pair[0], pair[1]));
        assert(walk_of(guards, pair));
        assert(reaches(guards, a, b)) by {
            assert(pair.last() == b);
        }
        assert(from_b.subset_of(from_a.remove(i))) by {
            assert forall|j: int| from_b.contains(j) implies from_a.remove(i).contains(j) by {
                lemma_reaches_join(guards, a, b, guards[j].1);
                if j == i {
                    assert(reaches(guards, guards[i].2, guards[i].1));
                }
            }
        }
        let single = seq![a];
        assert(walk_of(guards, single));
        assert(reaches(guards, a, a)) by {
            assert(single.last() == a);
        }
        assert(from_a.contains(i));
        vstd::set_lib::lemma_len_subset(from_b, from_a.remove(i));
    }
}

/// When the comparisons form no cycle, the transitive reduction reaches
/// exactly what all the comparisons reach.
pub proof fn lemma_acyclic_reduction_reaches(
    guards: Seq<GuardView>,
    reduced: Seq<GuardView>,
    from: Seq<usize>,
    to: Seq<usize>,
)
    requires
        acyclic(guards),
        reduction_of(guards, reduced),
    ensures
        reaches(guards, from, to) <==> reaches(reduced, from, to),
{
    lemma_acyclic_rises(guards);
    lemma_reduction_reaches(guards, reduced, depth_potential(guards), from, to);
}

} // verus!
