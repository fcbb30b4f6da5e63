//! A checked reduction carried to a reordered filtration.
//!
//! When the simplices of a filtration are listed in another order and every
//! comparison the reduction asks for still holds, each change column names
//! only simplices that come no later than its own, and each reduced column
//! still ends at its pivot. Any certified reduction of the reordered
//! filtration then ends its columns at the carried pivots.

use vstd::arithmetic::div_mod::*;
use vstd::multiset::Multiset;
use vstd::prelude::*;

use crate::field::spec_is_prime;

use crate::diagram::Bar;

use super::checked::pivot_row;
use super::matrix::has_pivot;
use super::guards::{change_guards, column_change_guards, column_pivot_guards, pivot_guards};
use super::model::{CertificateTerm, ReductionGuardKind};
use super::complex::sorted_entries;
use super::sparse::lookup;
use super::uniqueness::{
    certified_reduction, ends_at, lemma_change_column_coefficients, lemma_distinct_rows, lemma_end_is_pivot,
    lemma_pivot_at_last, lemma_pivot_ends, lemma_pivot_rows_agree, lemma_span_linear, lemma_span_of_terms,
    lemma_permuted_multiset, lemma_span_residue, span_entry, term_coefficients,
};
use super::order::{is_permutation, lists};

verus! {

/// The coefficients of a change column, read at the positions of a
/// reordered filtration.
pub open spec fn moved_coefficients(terms: Seq<CertificateTerm>, backward: spec_fn(int) -> int) -> spec_fn(int) -> int {
    |q: int| term_coefficients(terms)(backward(q))
}

/// A pivot row carried by a map of rows.
pub open spec fn carried_row(row: Option<usize>, row_map: spec_fn(usize) -> usize) -> Option<usize> {
    match row {
        Some(r) => Some(row_map(r)),
        None => None,
    }
}

/// The reordering and the carried columns meet what the transport needs.
pub open spec fn carries(
    old_matrix: Seq<Seq<(usize, u64)>>,
    columns: Seq<Seq<CertificateTerm>>,
    reduced: Seq<Seq<(usize, u64)>>,
    new_matrix: Seq<Seq<(usize, u64)>>,
    p: nat,
    forward: spec_fn(int) -> int,
    backward: spec_fn(int) -> int,
    row_map: spec_fn(usize) -> usize,
) -> bool {
    let n = old_matrix.len();
    &&& new_matrix.len() == n
    &&& forall|j: int| 0 <= j < n ==> 0 <= #[trigger] forward(j) < n && backward(forward(j)) == j
    &&& forall|q: int| 0 <= q < n ==> 0 <= #[trigger] backward(q) < n && forward(backward(q)) == q
    &&& forall|a: usize, b: usize| #[trigger] row_map(a) == #[trigger] row_map(b) ==> a == b
    &&& forall|j: int, q: int|
        0 <= j < n && forward(j) < q < n ==> #[trigger] moved_coefficients(columns[j], backward)(q) == 0
    &&& forall|j: int, r: usize|
        0 <= j < n ==> #[trigger] span_entry(new_matrix, moved_coefficients(columns[j], backward), n, p, row_map(r))
            == span_entry(old_matrix, term_coefficients(columns[j]), n, p, r)
    &&& forall|j: int, row: usize|
        0 <= j < n && (forall|r: usize| #[trigger] row_map(r) != row) ==> #[trigger] span_entry(
            new_matrix,
            moved_coefficients(columns[j], backward),
            n,
            p,
            row,
        ) == 0
    &&& forall|j: int, r: usize|
        0 <= j < n && reduced[j].len() > 0 && #[trigger] lookup(reduced[j], r) != 0 && r != reduced[j].last().0
            ==> row_map(r) < row_map(reduced[j].last().0)
}

/// Every certified reduction of the reordered matrix ends the column at
/// each position up to `position` at the carried pivot of the old column
/// listed there.
pub proof fn lemma_transported_pivots(
    old_matrix: Seq<Seq<(usize, u64)>>,
    columns: Seq<Seq<CertificateTerm>>,
    reduced: Seq<Seq<(usize, u64)>>,
    new_matrix: Seq<Seq<(usize, u64)>>,
    new_columns: Seq<Seq<CertificateTerm>>,
    new_reduced: Seq<Seq<(usize, u64)>>,
    p: nat,
    forward: spec_fn(int) -> int,
    backward: spec_fn(int) -> int,
    row_map: spec_fn(usize) -> usize,
    position: int,
)
    requires
        spec_is_prime(p),
        certified_reduction(old_matrix, columns, reduced, p),
        certified_reduction(new_matrix, new_columns, new_reduced, p),
        carries(old_matrix, columns, reduced, new_matrix, p, forward, backward, row_map),
        -1 <= position < old_matrix.len(),
    ensures
        forall|q: int|
            0 <= q <= position ==> #[trigger] pivot_row(new_reduced[q]) == carried_row(
                pivot_row(reduced[backward(q)]),
                row_map,
            ),
    decreases position + 1,
{
    if position < 0 {
        return;
    }
    lemma_transported_pivots(
        old_matrix,
        columns,
        reduced,
        new_matrix,
        new_columns,
        new_reduced,
        p,
        forward,
        backward,
        row_map,
        position - 1,
    );
    let n = old_matrix.len();
    let m = p as int;
    let q = position;
    let j = backward(q);
    assert(forward(j) == q);
    let moved = moved_coefficients(columns[j], backward);
    assert(crate::certificate::matrix::valid_change_column(columns[j], j as nat, p));
    lemma_change_column_coefficients(columns[j], j, p);
    assert(moved(q) == 1);
    assert(reduces_to_at(old_matrix, columns, reduced, p, j));
    assert(reduces_to_at(new_matrix, new_columns, new_reduced, p, q));
    // The carried column, entry by entry.
    assert forall|r: usize| #[trigger] span_entry(old_matrix, term_coefficients(columns[j]), n, p, r) == lookup(
        reduced[j],
        r,
    ) as int by {
        lemma_span_of_terms(old_matrix, columns[j], n, p, r);
    }
    if reduced[j].len() == 0 {
        if new_reduced[q].len() > 0 {
            let end = new_reduced[q].last().0;
            lemma_pivot_at_last(new_matrix, new_columns[q], p, new_reduced[q]);
            lemma_zero_carried(old_matrix, columns, reduced, new_matrix, p, forward, backward, row_map, j);
            let own = term_coefficients(new_columns[q]);
            assert(crate::certificate::matrix::valid_change_column(new_columns[q], q as nat, p));
            lemma_change_column_coefficients(new_columns[q], q, p);
            let factor = m - 1;
            let difference = |i: int| (own(i) + factor * moved(i)) % m;
            assert forall|r: usize| #[trigger] span_entry(new_matrix, difference, n, p, r) == span_entry(
                new_matrix,
                own,
                n,
                p,
                r,
            ) by {
                lemma_span_linear(new_matrix, own, moved, difference, factor, n, p, r);
                lemma_span_residue(new_matrix, own, n, p, r);
                assert(factor * 0 == 0);
                lemma_small_mod(span_entry(new_matrix, own, n, p, r) as nat, p);
            }
            lemma_pivot_ends(new_matrix, new_columns[q], p, end);
            assert(ends_at(new_matrix, difference, p, end));
            assert forall|i: int| q - 1 < i < n implies #[trigger] difference(i) % m == 0 by {
                if i == q {
                    assert(own(i) + factor * moved(i) == m);
                    lemma_mod_self_0(m);
                } else {
                    assert(own(i) == 0);
                    assert(moved(i) == 0);
                    lemma_small_mod(0, p);
                }
                lemma_mod_twice(own(i) + factor * moved(i), m);
            }
            lemma_end_is_pivot(new_matrix, new_columns, new_reduced, p, difference, q - 1, end);
            let k = choose|k: int| 0 <= k <= q - 1 && #[trigger] has_pivot(new_matrix, new_columns[k], p, end);
            assert(has_pivot(new_matrix, new_columns[q], p, end));
            assert(has_pivot(new_matrix, new_columns[k], p, end));
            assert(false);
        }
    } else {
        let low = reduced[j].last().0;
        lemma_carried_ends(old_matrix, columns, reduced, new_matrix, p, forward, backward, row_map, j);
        assert forall|i: int| q < i < n implies #[trigger] moved(i) % m == 0 by {
            lemma_small_mod(0, p);
        }
        lemma_end_is_pivot(new_matrix, new_columns, new_reduced, p, moved, q, row_map(low));
        let k = choose|k: int| 0 <= k <= q && #[trigger] has_pivot(new_matrix, new_columns[k], p, row_map(low));
        assert(reduces_to_at(new_matrix, new_columns, new_reduced, p, k));
        lemma_pivot_rows_agree(new_matrix, new_columns[k], p, new_reduced[k], row_map(low));
        if k < q {
            let other = backward(k);
            assert(pivot_row(new_reduced[k]) == carried_row(pivot_row(reduced[other]), row_map));
            assert(reduced[other].len() > 0);
            assert(row_map(reduced[other].last().0) == row_map(low));
            assert(reduced[other].last().0 == low);
            assert(other != j);
            lemma_distinct_rows(old_matrix, columns, reduced, p);
            if other < j {
                assert(reduced[other].last().0 != reduced[j].last().0);
            } else {
                assert(reduced[j].last().0 != reduced[other].last().0);
            }
        }
    }
}

/// The reduced column at `j` is what its change column certifies.
pub open spec fn reduces_to_at(
    matrix: Seq<Seq<(usize, u64)>>,
    columns: Seq<Seq<CertificateTerm>>,
    reduced: Seq<Seq<(usize, u64)>>,
    p: nat,
    j: int,
) -> bool {
    super::checked::reduces_to(matrix, columns[j], p, reduced[j])
}

/// A zero reduced column is carried to the zero combination.
proof fn lemma_zero_carried(
    old_matrix: Seq<Seq<(usize, u64)>>,
    columns: Seq<Seq<CertificateTerm>>,
    reduced: Seq<Seq<(usize, u64)>>,
    new_matrix: Seq<Seq<(usize, u64)>>,
    p: nat,
    forward: spec_fn(int) -> int,
    backward: spec_fn(int) -> int,
    row_map: spec_fn(usize) -> usize,
    j: int,
)
    requires
        certified_reduction(old_matrix, columns, reduced, p),
        carries(old_matrix, columns, reduced, new_matrix, p, forward, backward, row_map),
        0 <= j < old_matrix.len(),
        reduced[j].len() == 0,
    ensures
        forall|row: usize|
            #[trigger] span_entry(new_matrix, moved_coefficients(columns[j], backward), old_matrix.len(), p, row) == 0,
{
    let n = old_matrix.len();
    assert(reduces_to_at(old_matrix, columns, reduced, p, j));
    assert forall|row: usize| #[trigger] span_entry(new_matrix, moved_coefficients(columns[j], backward), n, p, row)
        == 0 by {
        if exists|r: usize| #[trigger] row_map(r) == row {
            let r = choose|r: usize| #[trigger] row_map(r) == row;
            lemma_span_of_terms(old_matrix, columns[j], n, p, r);
            assert(lookup(reduced[j], r) == 0);
        }
    }
}

/// A nonzero reduced column is carried to a combination that ends at the
/// carried pivot.
proof fn lemma_carried_ends(
    old_matrix: Seq<Seq<(usize, u64)>>,
    columns: Seq<Seq<CertificateTerm>>,
    reduced: Seq<Seq<(usize, u64)>>,
    new_matrix: Seq<Seq<(usize, u64)>>,
    p: nat,
    forward: spec_fn(int) -> int,
    backward: spec_fn(int) -> int,
    row_map: spec_fn(usize) -> usize,
    j: int,
)
    requires
        certified_reduction(old_matrix, columns, reduced, p),
        carries(old_matrix, columns, reduced, new_matrix, p, forward, backward, row_map),
        0 <= j < old_matrix.len(),
        reduced[j].len() > 0,
    ensures
        ends_at(new_matrix, moved_coefficients(columns[j], backward), p, row_map(reduced[j].last().0)),
{
    let n = old_matrix.len();
    let low = reduced[j].last().0;
    let moved = moved_coefficients(columns[j], backward);
    assert(reduces_to_at(old_matrix, columns, reduced, p, j));
    super::sparse::lemma_pivot_is_last_nonzero(reduced[j], p);
    lemma_span_of_terms(old_matrix, columns[j], n, p, low);
    assert(span_entry(new_matrix, moved, n, p, row_map(low)) == span_entry(
        old_matrix,
        term_coefficients(columns[j]),
        n,
        p,
        low,
    ));
    assert forall|later: usize| later > row_map(low) implies #[trigger] span_entry(new_matrix, moved, n, p, later)
        == 0 by {
        if exists|r: usize| #[trigger] row_map(r) == later {
            let r = choose|r: usize| #[trigger] row_map(r) == later;
            lemma_span_of_terms(old_matrix, columns[j], n, p, r);
            assert(span_entry(new_matrix, moved, n, p, row_map(r)) == span_entry(
                old_matrix,
                term_coefficients(columns[j]),
                n,
                p,
                r,
            ));
            if lookup(reduced[j], r) != 0 {
                assert(r != low);
            }
        }
    }
}

/// The position at which `keys` lists `key`.
pub open spec fn match_in<K>(keys: Seq<K>, key: K) -> int {
    choose|q: int| 0 <= q < keys.len() && keys[q] == key
}

/// Two duplicate-free lists of the same keys have one length, and matching
/// positions are inverse to each other.
pub proof fn lemma_matching<K>(first: Seq<K>, second: Seq<K>)
    requires
        first.no_duplicates(),
        second.no_duplicates(),
        forall|x: K| first.contains(x) <==> second.contains(x),
    ensures
        first.len() == second.len(),
        forall|c: int|
            0 <= c < first.len() ==> 0 <= #[trigger] match_in(second, first[c]) < second.len() && second[match_in(
                second,
                first[c],
            )] == first[c] && match_in(first, second[match_in(second, first[c])]) == c,
        forall|q: int|
            0 <= q < second.len() ==> 0 <= #[trigger] match_in(first, second[q]) < first.len() && first[match_in(
                first,
                second[q],
            )] == second[q] && match_in(second, first[match_in(first, second[q])]) == q,
{
    assert(first.to_set() =~= second.to_set()) by {
        assert forall|x: K| first.to_set().contains(x) <==> second.to_set().contains(x) by {
            assert(first.to_set().contains(x) <==> first.contains(x));
            assert(second.to_set().contains(x) <==> second.contains(x));
        }
    }
    first.unique_seq_to_set();
    second.unique_seq_to_set();
    assert forall|c: int| 0 <= c < first.len() implies 0 <= #[trigger] match_in(second, first[c]) < second.len()
        && second[match_in(second, first[c])] == first[c] && match_in(first, second[match_in(second, first[c])])
        == c by {
        assert(first.contains(first[c]));
        assert(second.contains(first[c]));
        let q = match_in(second, first[c]);
        let back = match_in(first, second[q]);
        assert(first.contains(second[q]));
        if back != c {
            assert(first[back] == first[c]);
        }
    }
    assert forall|q: int| 0 <= q < second.len() implies 0 <= #[trigger] match_in(first, second[q]) < first.len()
        && first[match_in(first, second[q])] == second[q] && match_in(second, first[match_in(first, second[q])])
        == q by {
        assert(second.contains(second[q]));
        assert(first.contains(second[q]));
        let c = match_in(first, second[q]);
        let back = match_in(second, first[c]);
        assert(second.contains(first[c]));
        if back != q {
            assert(second[back] == second[q]);
        }
    }
}

/// The terms of a combination at one row.
pub open spec fn span_terms(
    matrix: Seq<Seq<(usize, u64)>>,
    coefficients: spec_fn(int) -> int,
    n: nat,
    row: usize,
) -> Seq<int> {
    Seq::new(n, |i: int| coefficients(i) * lookup(matrix[i], row))
}

/// Adding a term modulo `p`.
pub open spec fn add_term(p: nat) -> spec_fn(int, int) -> int {
    |acc: int, x: int| (acc + x) % (p as int)
}

proof fn lemma_span_fold(matrix: Seq<Seq<(usize, u64)>>, coefficients: spec_fn(int) -> int, n: nat, p: nat, row: usize)
    ensures
        span_entry(matrix, coefficients, n, p, row) == span_terms(matrix, coefficients, n, row).fold_left(0, add_term(p)),
    decreases n,
{
    if n > 0 {
        lemma_span_fold(matrix, coefficients, (n - 1) as nat, p, row);
        assert(span_terms(matrix, coefficients, n, row).drop_last() =~= span_terms(
            matrix,
            coefficients,
            (n - 1) as nat,
            row,
        ));
    }
}

proof fn lemma_add_term_commutes(p: nat)
    requires
        p > 0,
    ensures
        vstd::seq_lib::commutative_foldl(add_term(p)),
{
    let m = p as int;
    assert forall|x: int, y: int, v: int| #[trigger] add_term(p)(add_term(p)(v, x), y) == add_term(p)(
        add_term(p)(v, y),
        x,
    ) by {
        lemma_add_mod_noop(v + x, y, m);
        lemma_add_mod_noop(v + y, x, m);
        lemma_mod_twice(v + x, m);
        lemma_mod_twice(v + y, m);
        lemma_add_mod_noop((v + x) % m, y, m);
        lemma_add_mod_noop((v + y) % m, x, m);
        assert(v + x + y == v + y + x);
    }
}

/// A combination read through a reordering of its columns is unchanged.
pub proof fn lemma_span_reordered(
    old_matrix: Seq<Seq<(usize, u64)>>,
    coefficients: spec_fn(int) -> int,
    old_row: usize,
    new_matrix: Seq<Seq<(usize, u64)>>,
    new_coefficients: spec_fn(int) -> int,
    new_row: usize,
    n: nat,
    p: nat,
    forward: spec_fn(int) -> int,
    backward: spec_fn(int) -> int,
)
    requires
        p > 0,
        forall|j: int| 0 <= j < n ==> 0 <= #[trigger] forward(j) < n && backward(forward(j)) == j,
        forall|q: int| 0 <= q < n ==> 0 <= #[trigger] backward(q) < n && forward(backward(q)) == q,
        forall|q: int|
            0 <= q < n ==> #[trigger] new_coefficients(q) * lookup(new_matrix[q], new_row) == coefficients(backward(q))
                * lookup(old_matrix[backward(q)], old_row),
    ensures
        span_entry(new_matrix, new_coefficients, n, p, new_row) == span_entry(old_matrix, coefficients, n, p, old_row),
{
    let old_terms = span_terms(old_matrix, coefficients, n, old_row);
    let new_terms = span_terms(new_matrix, new_coefficients, n, new_row);
    let order = Seq::new(n, |q: int| backward(q));
    assert(is_permutation(order, n)) by {
        assert forall|i: int| 0 <= i < n implies #[trigger] lists(order, n, i) by {
            assert(order[forward(i)] == i);
        }
        assert forall|a: int, b: int| 0 <= a < b < n implies order[a] != order[b] by {
            assert(forward(backward(a)) == a);
            assert(forward(backward(b)) == b);
        }
    }
    assert forall|q: int| 0 <= q < n implies #[trigger] new_terms[q] == old_terms[order[q]] by {
        assert(new_coefficients(q) * lookup(new_matrix[q], new_row) == coefficients(backward(q)) * lookup(
            old_matrix[backward(q)],
            old_row,
        ));
    }
    lemma_permuted_multiset(new_terms, old_terms, order);
    lemma_add_term_commutes(p);
    vstd::seq_lib::lemma_fold_left_permutation(new_terms, old_terms, add_term(p), 0);
    lemma_span_fold(old_matrix, coefficients, n, p, old_row);
    lemma_span_fold(new_matrix, new_coefficients, n, p, new_row);
}

/// The intervals that are present among `options`, in order.
pub open spec fn present(options: Seq<Option<Bar>>) -> Seq<Bar>
    decreases options.len(),
{
    if options.len() == 0 {
        Seq::empty()
    } else {
        match options.last() {
            Some(bar) => present(options.drop_last()).push(bar),
            None => present(options.drop_last()),
        }
    }
}

/// The interval an option contributes, as a multiset.
pub open spec fn option_multiset(option: Option<Bar>) -> Multiset<Bar> {
    match option {
        Some(bar) => Multiset::singleton(bar),
        None => Multiset::empty(),
    }
}

proof fn lemma_present_remove(options: Seq<Option<Bar>>, i: int)
    requires
        0 <= i < options.len(),
    ensures
        present(options).to_multiset() == present(options.remove(i)).to_multiset().add(option_multiset(options[i])),
    decreases options.len(),
{
    broadcast use vstd::seq_lib::group_to_multiset_ensures;
    broadcast use vstd::multiset::group_multiset_axioms;

    let last = options.len() - 1;
    if i == last {
        assert(options.remove(i) =~= options.drop_last());
    } else {
        lemma_present_remove(options.drop_last(), i);
        assert(options.remove(i).drop_last() =~= options.drop_last().remove(i));
        assert(options.remove(i).last() == options.last());
        assert(options.drop_last()[i] == options[i]);
    }
    assert(present(options).to_multiset() =~= present(options.remove(i)).to_multiset().add(
        option_multiset(options[i]),
    ));
}

/// Options that hold the same values, counted, present the same intervals.
pub proof fn lemma_present_multiset(first: Seq<Option<Bar>>, second: Seq<Option<Bar>>)
    requires
        first.to_multiset() == second.to_multiset(),
    ensures
        present(first).to_multiset() == present(second).to_multiset(),
    decreases first.len(),
{
    broadcast use vstd::seq_lib::group_to_multiset_ensures;
    broadcast use vstd::multiset::group_multiset_axioms;

    if first.len() == 0 {
        assert(first.to_multiset().len() == 0);
        assert(second.to_multiset().len() == second.len());
        assert(second.len() == 0);
        assert(second =~= Seq::<Option<Bar>>::empty());
    } else {
        let x = first.last();
        assert(first.to_multiset().contains(x));
        assert(second.to_multiset().contains(x));
        let i = choose|i: int| 0 <= i < second.len() && second[i] == x;
        let rest = second.remove(i);
        assert(first =~= first.drop_last().push(x));
        assert(first.drop_last().to_multiset() =~= rest.to_multiset());
        lemma_present_multiset(first.drop_last(), rest);
        lemma_present_remove(second, i);
        assert(present(first).to_multiset() =~= present(first.drop_last()).to_multiset().add(option_multiset(x)));
    }
}

/// Lists that hold the same values, counted, are permutations of each
/// other.
pub proof fn lemma_permutation_of_multiset<A>(permuted: Seq<A>, items: Seq<A>)
    requires
        permuted.to_multiset() == items.to_multiset(),
    ensures
        exists|order: Seq<int>|
            #[trigger] is_permutation(order, items.len()) && permuted.len() == items.len() && forall|j: int|
                0 <= j < permuted.len() ==> #[trigger] permuted[j] == items[order[j]],
    decreases permuted.len(),
{
    broadcast use vstd::seq_lib::group_to_multiset_ensures;
    broadcast use vstd::multiset::group_multiset_axioms;

    if permuted.len() == 0 {
        assert(permuted.to_multiset().len() == 0);
        assert(items.to_multiset().len() == items.len());
        assert(items.len() == 0);
        let order = Seq::<int>::empty();
        assert(is_permutation(order, 0));
    } else {
        let x = permuted.last();
        assert(permuted.to_multiset().contains(x));
        assert(items.to_multiset().contains(x));
        let i = choose|i: int| 0 <= i < items.len() && items[i] == x;
        let rest = items.remove(i);
        let front = permuted.drop_last();
        assert(permuted =~= front.push(x));
        assert(front.to_multiset() =~= rest.to_multiset());
        lemma_permutation_of_multiset(front, rest);
        let inner = choose|order: Seq<int>|
            #[trigger] is_permutation(order, rest.len()) && front.len() == rest.len() && forall|j: int|
                0 <= j < front.len() ==> #[trigger] front[j] == rest[order[j]];
        let n = items.len();
        let order = Seq::new(
            n as nat,
            |j: int|
                if j == n - 1 {
                    i
                } else if inner[j] < i {
                    inner[j]
                } else {
                    inner[j] + 1
                },
        );
        assert forall|j: int| 0 <= j < n implies 0 <= #[trigger] order[j] < n by {}
        assert forall|a: int, b: int| 0 <= a < b < n implies order[a] != order[b] by {
            if b < n - 1 {
                assert(inner[a] != inner[b]);
            }
        }
        assert forall|k: int| 0 <= k < n implies #[trigger] lists(order, n, k) by {
            if k == i {
                assert(order[n - 1] == i);
            } else {
                let target = if k < i {
                    k
                } else {
                    k - 1
                };
                assert(lists(inner, (n - 1) as nat, target));
                let j = choose|j: int| 0 <= j < n - 1 && #[trigger] inner[j] == target;
                assert(order[j] == k);
            }
        }
        assert(is_permutation(order, n));
        assert forall|j: int| 0 <= j < permuted.len() implies #[trigger] permuted[j] == items[order[j]] by {
            if j < n - 1 {
                assert(front[j] == rest[inner[j]]);
            }
        }
    }
}

pub proof fn lemma_concat_contains<A>(first: Seq<A>, second: Seq<A>, x: A)
    requires
        first.contains(x) || second.contains(x),
    ensures
        (first + second).contains(x),
{
    if first.contains(x) {
        let i = choose|i: int| 0 <= i < first.len() && first[i] == x;
        assert((first + second)[i] == x);
    } else {
        let i = choose|i: int| 0 <= i < second.len() && second[i] == x;
        assert((first + second)[first.len() + i] == x);
    }
}

/// A term of a change column, other than its own position, asks for the
/// guard from its simplex to the column's simplex.
proof fn lemma_column_change_member(terms: Seq<CertificateTerm>, target: int, simplices: Seq<Seq<usize>>, k: int)
    requires
        0 <= k < terms.len(),
        terms[k].index != target,
    ensures
        column_change_guards(terms, target, simplices).contains(
            (ReductionGuardKind::ChangeOfBasis, simplices[terms[k].index as int], simplices[target]),
        ),
    decreases terms.len(),
{
    let g = (ReductionGuardKind::ChangeOfBasis, simplices[terms[k].index as int], simplices[target]);
    let rest = column_change_guards(terms.drop_last(), target, simplices);
    if k == terms.len() - 1 {
        let tail = seq![g];
        assert(tail[0] == g);
        lemma_concat_contains(rest, tail, g);
    } else {
        lemma_column_change_member(terms.drop_last(), target, simplices, k);
        let tail = if terms.last().index != target {
            seq![
                (
                    ReductionGuardKind::ChangeOfBasis,
                    simplices[terms.last().index as int],
                    simplices[target],
                ),
            ]
        } else {
            Seq::empty()
        };
        lemma_concat_contains(rest, tail, g);
    }
}

/// Every term of every change column, other than the column's own
/// position, asks for its guard.
pub proof fn lemma_change_member(columns: Seq<Seq<CertificateTerm>>, simplices: Seq<Seq<usize>>, j: int, k: int)
    requires
        0 <= j < columns.len(),
        0 <= k < columns[j].len(),
        columns[j][k].index != j,
    ensures
        change_guards(columns, simplices).contains(
            (ReductionGuardKind::ChangeOfBasis, simplices[columns[j][k].index as int], simplices[j]),
        ),
    decreases columns.len(),
{
    let g = (ReductionGuardKind::ChangeOfBasis, simplices[columns[j][k].index as int], simplices[j]);
    let rest = change_guards(columns.drop_last(), simplices);
    let tail = column_change_guards(columns.last(), columns.len() - 1, simplices);
    if j == columns.len() - 1 {
        lemma_column_change_member(columns.last(), j, simplices, k);
        lemma_concat_contains(rest, tail, g);
    } else {
        assert(columns.drop_last()[j] == columns[j]);
        lemma_change_member(columns.drop_last(), simplices, j, k);
        lemma_concat_contains(rest, tail, g);
    }
}

/// A row of a reduced column other than its pivot asks for the guard from
/// its simplex to the pivot's simplex.
proof fn lemma_column_pivot_member(rows: Seq<(usize, u64)>, pivot: usize, simplices: Seq<Seq<usize>>, k: int)
    requires
        0 <= k < rows.len(),
        rows[k].0 != pivot,
    ensures
        column_pivot_guards(rows, pivot, simplices).contains(
            (ReductionGuardKind::Pivot, simplices[rows[k].0 as int], simplices[pivot as int]),
        ),
    decreases rows.len(),
{
    let g = (ReductionGuardKind::Pivot, simplices[rows[k].0 as int], simplices[pivot as int]);
    let rest = column_pivot_guards(rows.drop_last(), pivot, simplices);
    if k == rows.len() - 1 {
        let tail = seq![g];
        assert(tail[0] == g);
        lemma_concat_contains(rest, tail, g);
    } else {
        lemma_column_pivot_member(rows.drop_last(), pivot, simplices, k);
        let tail = if rows.last().0 != pivot {
            seq![(ReductionGuardKind::Pivot, simplices[rows.last().0 as int], simplices[pivot as int])]
        } else {
            Seq::empty()
        };
        lemma_concat_contains(rest, tail, g);
    }
}

/// Every row of every nonzero reduced column, other than its pivot, asks
/// for its guard.
pub proof fn lemma_pivot_member(columns: Seq<Seq<(usize, u64)>>, simplices: Seq<Seq<usize>>, t: int, k: int)
    requires
        0 <= t < columns.len(),
        0 <= k < columns[t].len(),
        columns[t][k].0 != columns[t].last().0,
    ensures
        pivot_guards(columns, simplices).contains(
            (ReductionGuardKind::Pivot, simplices[columns[t][k].0 as int], simplices[columns[t].last().0 as int]),
        ),
    decreases columns.len(),
{
    let g = (ReductionGuardKind::Pivot, simplices[columns[t][k].0 as int], simplices[columns[t].last().0 as int]);
    let rest = pivot_guards(columns.drop_last(), simplices);
    let tail = if columns.last().len() > 0 {
        column_pivot_guards(columns.last(), columns.last().last().0, simplices)
    } else {
        Seq::empty()
    };
    if t == columns.len() - 1 {
        lemma_column_pivot_member(columns.last(), columns.last().last().0, simplices, k);
        lemma_concat_contains(rest, tail, g);
    } else {
        assert(columns.drop_last()[t] == columns[t]);
        lemma_pivot_member(columns.drop_last(), simplices, t, k);
        lemma_concat_contains(rest, tail, g);
    }
}

/// A stored coefficient is stored under its key.
pub proof fn lemma_lookup_present(s: Seq<(usize, u64)>, key: usize)
    requires
        lookup(s, key) != 0,
    ensures
        exists|k: int| 0 <= k < s.len() && #[trigger] s[k].0 == key,
{
    if forall|k: int| 0 <= k < s.len() ==> #[trigger] s[k].0 != key {
        super::sparse::lemma_lookup_absent(s, key);
    }
}

/// The coefficient three entries with distinct rows store for a row.
pub proof fn lemma_sorted_entries_lookup(a: (usize, u64), b: (usize, u64), c: (usize, u64), key: usize)
    requires
        a.0 != b.0 && a.0 != c.0 && b.0 != c.0,
    ensures
        lookup(sorted_entries(a, b, c), key) == if key == a.0 {
            a.1 as nat
        } else if key == b.0 {
            b.1 as nat
        } else if key == c.0 {
            c.1 as nat
        } else {
            0nat
        },
{
    reveal_with_fuel(lookup, 4);
    let s = sorted_entries(a, b, c);
    assert(s.drop_last().drop_last().drop_last().len() == 0);
}

} // verus!
