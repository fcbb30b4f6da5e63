//! Linear combinations of boundary columns over a prime field.
//!
//! A change-of-basis column `V_j` names the boundary columns that form the
//! reduced column `R_j = D V_j`. Entry `row` of that combination is the sum
//! over every boundary position `i` of `V_j[i] * D_i[row]`, reduced modulo
//! `p`.

use vstd::arithmetic::div_mod::*;
use vstd::arithmetic::mul::*;
use vstd::prelude::*;

use super::model::{CertificateTerm, ChangeColumn};
use super::sparse::{SparseColumn, lemma_lookup_absent, lemma_lookup_push, lookup, sorted_keys};

verus! {

/// Entry views of a list of sparse columns.
pub open spec fn column_views(columns: Seq<SparseColumn>) -> Seq<Seq<(usize, u64)>> {
    columns.map_values(|column: SparseColumn| column@)
}

/// Term views of a list of change columns.
pub open spec fn change_views(columns: Seq<ChangeColumn>) -> Seq<Seq<CertificateTerm>> {
    columns.map_values(|column: ChangeColumn| column@)
}

/// The `(position, coefficient)` pairs of a change column.
pub open spec fn term_pairs(terms: Seq<CertificateTerm>) -> Seq<(usize, u64)> {
    terms.map_values(|term: CertificateTerm| (term.index, term.coefficient as u64))
}

/// Entry `row` of `sum_{i < n} transform[i] * boundaries[i]` over `Z/p`.
pub open spec fn combination(
    boundaries: Seq<Seq<(usize, u64)>>,
    transform: Seq<(usize, u64)>,
    n: nat,
    p: nat,
    row: usize,
) -> nat
    decreases n,
{
    if n == 0 {
        0
    } else {
        (combination(boundaries, transform, (n - 1) as nat, p, row) + lookup(
            transform,
            (n - 1) as usize,
        ) * lookup(boundaries[n - 1], row)) % p
    }
}

/// Entry `row` of the reduced column that the change column `terms` forms
/// from every column of `boundaries`.
pub open spec fn reduced_entry(
    boundaries: Seq<Seq<(usize, u64)>>,
    terms: Seq<CertificateTerm>,
    p: nat,
    row: usize,
) -> nat {
    combination(boundaries, term_pairs(terms), boundaries.len(), p, row)
}

pub proof fn lemma_combination_below(
    boundaries: Seq<Seq<(usize, u64)>>,
    transform: Seq<(usize, u64)>,
    n: nat,
    p: nat,
    row: usize,
)
    requires
        p > 0,
    ensures
        combination(boundaries, transform, n, p, row) < p,
{
    if n > 0 {
        lemma_mod_bound(
            (combination(boundaries, transform, (n - 1) as nat, p, row) + lookup(
                transform,
                (n - 1) as usize,
            ) * lookup(boundaries[n - 1], row)) as int,
            p as int,
        );
    }
}

proof fn lemma_mod_add_shift(x: int, y: int, z: int, p: int)
    requires
        p > 0,
    ensures
        ((x + y) % p + z) % p == ((x + z) % p + y) % p,
{
    lemma_mod_left(x + y, z, p);
    lemma_mod_left(x + z, y, p);
    assert(x + y + z == x + z + y);
}

/// Appending a term above every present position adds its scaled boundary
/// column to the combination.
pub proof fn lemma_combination_push(
    boundaries: Seq<Seq<(usize, u64)>>,
    transform: Seq<(usize, u64)>,
    position: usize,
    coefficient: u64,
    n: nat,
    p: nat,
    row: usize,
)
    requires
        p > 0,
        n <= usize::MAX,
        forall|t: int| 0 <= t < transform.len() ==> #[trigger] transform[t].0 < position,
    ensures
        combination(boundaries, transform.push((position, coefficient)), n, p, row) == if n
            > position {
            ((combination(boundaries, transform, n, p, row) + coefficient * lookup(
                boundaries[position as int],
                row,
            )) % (p as int)) as nat
        } else {
            combination(boundaries, transform, n, p, row)
        },
    decreases n,
{
    let pushed = transform.push((position, coefficient));
    if n > 0 {
        let k = (n - 1) as nat;
        lemma_combination_push(boundaries, transform, position, coefficient, k, p, row);
        lemma_lookup_push(transform, (position, coefficient), k as usize);
        let old_prev = combination(boundaries, transform, k, p, row);
        let new_prev = combination(boundaries, pushed, k, p, row);
        let d = lookup(boundaries[k as int], row);
        let added = coefficient * lookup(boundaries[position as int], row);
        lemma_combination_below(boundaries, transform, k, p, row);
        if k < position {
        } else if k == position {
            assert forall|t: int| 0 <= t < transform.len() implies #[trigger] transform[t].0
                != position by {
            }
            lemma_lookup_absent(transform, position);
            lemma_small_mod(old_prev, p);
            assert(old_prev + 0 * d == old_prev);
        } else {
            let l = lookup(transform, k as usize);
            lemma_mod_add_shift(old_prev as int, added as int, (l * d) as int, p as int);
        }
    }
}

/// The combination only reads the transform at positions below `n`.
pub proof fn lemma_combination_extensional(
    boundaries: Seq<Seq<(usize, u64)>>,
    first: Seq<(usize, u64)>,
    second: Seq<(usize, u64)>,
    n: nat,
    p: nat,
    row: usize,
)
    requires
        n <= usize::MAX,
        forall|i: usize| i < n ==> #[trigger] lookup(first, i) == lookup(second, i),
    ensures
        combination(boundaries, first, n, p, row) == combination(boundaries, second, n, p, row),
    decreases n,
{
    if n > 0 {
        lemma_combination_extensional(boundaries, first, second, (n - 1) as nat, p, row);
        assert(lookup(first, (n - 1) as usize) == lookup(second, (n - 1) as usize));
    }
}

proof fn lemma_mod_left(u: int, v: int, p: int)
    requires
        p > 0,
    ensures
        ((u % p) + v) % p == (u + v) % p,
{
    lemma_add_mod_noop(u, v, p);
    lemma_add_mod_noop(u % p, v, p);
    lemma_mod_twice(u, p);
}

proof fn lemma_mod_scaled_right(u: int, w: int, d: int, p: int)
    requires
        p > 0,
    ensures
        (u + (w % p) * d) % p == (u + w * d) % p,
{
    lemma_mul_mod_noop_left(w, d, p);
    lemma_add_mod_noop(u, (w % p) * d, p);
    lemma_add_mod_noop(u, w * d, p);
}

proof fn lemma_mod_scaling_right(u: int, f: int, w: int, p: int)
    requires
        p > 0,
    ensures
        (u + f * (w % p)) % p == (u + f * w) % p,
{
    lemma_mul_mod_noop_right(f, w, p);
    lemma_add_mod_noop(u, f * (w % p), p);
    lemma_add_mod_noop(u, f * w, p);
}

pub(crate) proof fn lemma_linear_step(a: int, b: int, x: int, y: int, f: int, d: int, p: int)
    requires
        p > 0,
    ensures
        ((a + f * b) % p + ((x + f * y) % p) * d) % p == ((a + x * d) % p + f * ((b + y * d) % p))
            % p,
{
    lemma_mod_left(a + f * b, ((x + f * y) % p) * d, p);
    lemma_mod_scaled_right(a + f * b, x + f * y, d, p);
    lemma_mod_left(a + x * d, f * ((b + y * d) % p), p);
    lemma_mod_scaling_right(a + x * d, f, b + y * d, p);
    assert((a + f * b) + (x + f * y) * d == (a + x * d) + f * (b + y * d)) by (nonlinear_arith);
}

/// A pointwise scaled sum of transforms forms the scaled sum of their
/// combinations.
pub proof fn lemma_combination_linear(
    boundaries: Seq<Seq<(usize, u64)>>,
    first: Seq<(usize, u64)>,
    second: Seq<(usize, u64)>,
    sum: Seq<(usize, u64)>,
    factor: int,
    n: nat,
    p: nat,
    row: usize,
)
    requires
        p > 0,
        n <= usize::MAX,
        forall|i: usize|
            i < n ==> #[trigger] lookup(sum, i) == (lookup(first, i) + factor * lookup(second, i))
                % (p as int),
    ensures
        combination(boundaries, sum, n, p, row) == (combination(boundaries, first, n, p, row)
            + factor * combination(boundaries, second, n, p, row)) % (p as int),
    decreases n,
{
    if n == 0 {
        lemma_small_mod(0, p);
        assert(factor * 0 == 0);
    } else {
        let k = (n - 1) as nat;
        lemma_combination_linear(boundaries, first, second, sum, factor, k, p, row);
        assert(lookup(sum, k as usize) == (lookup(first, k as usize) + factor * lookup(
            second,
            k as usize,
        )) % (p as int));
        lemma_linear_step(
            combination(boundaries, first, k, p, row) as int,
            combination(boundaries, second, k, p, row) as int,
            lookup(first, k as usize) as int,
            lookup(second, k as usize) as int,
            factor,
            lookup(boundaries[k as int], row) as int,
            p as int,
        );
    }
}

/// Positions at or above `n` do not contribute.
pub proof fn lemma_combination_prefix(
    boundaries: Seq<Seq<(usize, u64)>>,
    transform: Seq<(usize, u64)>,
    n: nat,
    m: nat,
    p: nat,
    row: usize,
)
    requires
        p > 0,
        n <= m,
        m <= usize::MAX,
        forall|i: usize| n <= i < m ==> #[trigger] lookup(transform, i) == 0,
    ensures
        combination(boundaries, transform, m, p, row) == combination(
            boundaries,
            transform,
            n,
            p,
            row,
        ),
    decreases m,
{
    if m > n {
        lemma_combination_prefix(boundaries, transform, n, (m - 1) as nat, p, row);
        assert(lookup(transform, (m - 1) as usize) == 0);
        lemma_combination_below(boundaries, transform, (m - 1) as nat, p, row);
        lemma_small_mod(combination(boundaries, transform, (m - 1) as nat, p, row), p);
        assert(0 * lookup(boundaries[m - 1], row) == 0);
    }
}

/// A transform without entries forms the zero column.
pub proof fn lemma_combination_zero(
    boundaries: Seq<Seq<(usize, u64)>>,
    transform: Seq<(usize, u64)>,
    n: nat,
    p: nat,
    row: usize,
)
    requires
        p > 0,
        n <= usize::MAX,
        forall|i: usize| i < n ==> #[trigger] lookup(transform, i) == 0,
    ensures
        combination(boundaries, transform, n, p, row) == 0,
    decreases n,
{
    if n > 0 {
        lemma_combination_zero(boundaries, transform, (n - 1) as nat, p, row);
        assert(lookup(transform, (n - 1) as usize) == 0);
        assert(0 * lookup(boundaries[n - 1], row) == 0);
        lemma_small_mod(0, p);
    }
}

/// A single term `(position, 1)` forms the boundary column itself.
pub proof fn lemma_combination_single(
    boundaries: Seq<Seq<(usize, u64)>>,
    position: usize,
    n: nat,
    p: nat,
    row: usize,
)
    requires
        p > 0,
        position < n,
        n <= usize::MAX,
        lookup(boundaries[position as int], row) < p,
    ensures
        combination(boundaries, seq![(position, 1u64)], n, p, row) == lookup(
            boundaries[position as int],
            row,
        ),
{
    let empty = Seq::<(usize, u64)>::empty();
    assert(empty.push((position, 1u64)) =~= seq![(position, 1u64)]);
    lemma_combination_push(boundaries, empty, position, 1, n, p, row);
    assert forall|i: usize| i < n implies #[trigger] lookup(empty, i) == 0 by {
    }
    lemma_combination_zero(boundaries, empty, n, p, row);
    lemma_small_mod(lookup(boundaries[position as int], row), p);
}

} // verus!
