//! Standard column reduction over a prime field, recorded as unit upper
//! triangular change-of-basis columns.

use vstd::arithmetic::div_mod::*;
use vstd::prelude::*;

use crate::field::{inverse_mod, lemma_inverse_mod_is_inverse, spec_is_prime};
use crate::text::{literal, with_numbers};

use super::algebra::{
    change_views, column_views, combination, lemma_combination_below, lemma_combination_linear,
    lemma_combination_push, lemma_combination_single, lemma_combination_zero, reduced_entry,
    term_pairs,
};
use super::matrix::{
    distinct_pivots, has_pivot, lemma_change_column_len, lemma_pivot_of_represented,
    lemma_terms_total_bound, lemma_terms_total_monotone, lemma_terms_total_prefix,
    lemma_triangular_monotone, terms_total, triangular, valid_change_column, valid_change_columns,
    valid_change_term, valid_reduction, wf_columns,
};
use super::model::{CertificateError, CertificateLimits, CertificateTerm, ChangeColumn};
use super::pivots::{
    new_pivot_table, pivot_table, pivot_table_get, pivot_table_insert, PivotTable,
};
use super::sparse::{
    SparseColumn, lemma_lookup_below, lemma_pivot_is_last_nonzero, lookup, spec_pivot, wf_column,
};

verus! {

/// Change-column terms of a sparse basis column.
pub open spec fn basis_terms(entries: Seq<(usize, u64)>) -> Seq<CertificateTerm> {
    entries.map_values(|entry: (usize, u64)| CertificateTerm { index: entry.0, coefficient: entry.1 as u32 })
}

/// Change-column views of a list of sparse basis columns.
pub open spec fn basis_views(columns: Seq<SparseColumn>) -> Seq<Seq<CertificateTerm>> {
    columns.map_values(|column: SparseColumn| basis_terms(column@))
}

/// A basis column is canonical, and unit triangular at `position`.
pub open spec fn unit_basis_column(entries: Seq<(usize, u64)>, position: nat, p: nat) -> bool {
    &&& wf_column(entries, p)
    &&& entries.len() > 0
    &&& entries.last().0 == position
    &&& entries.last().1 == 1
}

proof fn lemma_terms_of_basis(entries: Seq<(usize, u64)>, position: nat, p: nat)
    requires
        unit_basis_column(entries, position, p),
        p <= u32::MAX,
    ensures
        term_pairs(basis_terms(entries)) == entries,
        valid_change_column(basis_terms(entries), position, p),
{
    assert(term_pairs(basis_terms(entries)) =~= entries);
    let terms = basis_terms(entries);
    assert forall|i: int| 0 <= i < terms.len() implies (#[trigger] terms[i]).index <= position && 0
        < terms[i].coefficient < p by {
        if i < entries.len() - 1 {
            assert(entries[i].0 < entries[entries.len() - 1].0);
        }
        assert(0 < entries[i].1 < p);
    }
    assert(terms.last() == terms[terms.len() - 1]);
}

/// One more than the pivot row, or zero for the zero column.
spec fn pivot_measure(entries: Seq<(usize, u64)>) -> nat {
    if entries.len() == 0 {
        0
    } else {
        entries.last().0 as nat + 1
    }
}

/// Entries above `bound` vanish, so the pivot lies below `bound`.
proof fn lemma_pivot_below(entries: Seq<(usize, u64)>, p: nat, bound: usize)
    requires
        wf_column(entries, p),
        forall|key: usize| key >= bound ==> #[trigger] lookup(entries, key) == 0,
    ensures
        entries.len() > 0 ==> entries.last().0 < bound,
{
    if entries.len() > 0 {
        lemma_pivot_is_last_nonzero(entries, p);
    }
}

/// Adding `factor` times the owner column cancels the shared pivot entry.
proof fn lemma_cancel_pivot(c: int, owner: int, inverse: int, p: int)
    requires
        p >= 2,
        0 < c < p,
        0 < owner < p,
        0 <= inverse < p,
        (owner * inverse) % p == 1,
    ensures
        (c + ((p - (c * inverse) % p) % p) * owner) % p == 0,
{
    let t = (c * inverse) % p;
    lemma_fundamental_div_mod(c * inverse, p);
    let q1 = (c * inverse) / p;
    lemma_fundamental_div_mod(owner * inverse, p);
    let q2 = (owner * inverse) / p;
    lemma_mod_bound(c * inverse, p);
    if t == 0 {
        assert(c * inverse == p * q1);
        assert(c * (owner * inverse) == c * (1 + p * q2));
        assert(c * (owner * inverse) == owner * (c * inverse)) by (nonlinear_arith);
        assert(c == p * (owner * q1 - c * q2)) by (nonlinear_arith)
            requires
                c * (owner * inverse) == c * (1 + p * q2),
                c * (owner * inverse) == owner * (c * inverse),
                c * inverse == p * q1,
        ;
        lemma_mod_multiples_basic(owner * q1 - c * q2, p);
        assert((owner * q1 - c * q2) * p == p * (owner * q1 - c * q2)) by (nonlinear_arith);
        lemma_small_mod(c as nat, p as nat);
        assert(false);
    } else {
        lemma_small_mod((p - t) as nat, p as nat);
        let f = p - t;
        assert(c + f * owner == p * (owner + q1 * owner - c * q2)) by (nonlinear_arith)
            requires
                f == p - t,
                t == c * inverse - p * q1,
                owner * inverse == 1 + p * q2,
        ;
        lemma_mod_multiples_basic(owner + q1 * owner - c * q2, p);
        assert((owner + q1 * owner - c * q2) * p == p * (owner + q1 * owner - c * q2)) by (
        nonlinear_arith);
    }
}

/// Running state of a reduction: reduced columns `R_j`, their basis
/// columns `V_j`, the owner of each reduced pivot, and the running counts.
pub struct ReductionState {
    modulus: u64,
    reduced: Vec<SparseColumn>,
    basis: Vec<SparseColumn>,
    pivot_owner: PivotTable,
    total_terms: usize,
    additions: usize,
}

impl ReductionState {
    /// Number of columns processed so far.
    pub closed spec fn processed(&self) -> nat {
        self.basis.len() as nat
    }

    /// Change-column views of the basis columns built so far.
    pub closed spec fn built(&self) -> Seq<Seq<CertificateTerm>> {
        basis_views(self.basis@)
    }

    /// Coefficient modulus of the reduction.
    pub closed spec fn spec_modulus(&self) -> nat {
        self.modulus as nat
    }

    /// Column additions performed so far.
    pub closed spec fn spec_additions(&self) -> nat {
        self.additions as nat
    }

    /// The state holds a reduction of the first `processed()` columns of
    /// `boundaries`: each `R_j = D V_j`, each `V_j` unit triangular at `j`,
    /// distinct pivots recorded in the owner table, and at most
    /// `max_terms` basis terms in all.
    pub closed spec fn wf(&self, boundaries: Seq<Seq<(usize, u64)>>, max_terms: nat) -> bool {
        &&& self.columns_wf(boundaries)
        &&& self.owners_wf(self.basis.len() as nat)
        &&& forall|t: int|
            0 <= t < self.basis.len() && (#[trigger] self.reduced[t]@).len() > 0 ==> pivot_table(
                self.pivot_owner,
            ).contains_key(self.reduced[t]@.last().0) && pivot_table(self.pivot_owner)[self.reduced[t]@.last().0]
                == t
        &&& self.total_terms == terms_total(basis_views(self.basis@))
        &&& self.total_terms <= max_terms
    }

    /// The recorded columns: `R_j = D V_j` with `V_j` unit triangular at `j`.
    spec fn columns_wf(&self, boundaries: Seq<Seq<(usize, u64)>>) -> bool {
        let p = self.modulus as nat;
        let n = self.basis.len();
        &&& spec_is_prime(p)
        &&& p <= u32::MAX
        &&& self.reduced.len() == n
        &&& n <= boundaries.len()
        &&& boundaries.len() <= usize::MAX
        &&& wf_columns(boundaries, p)
        &&& forall|j: int|
            0 <= j < n ==> unit_basis_column(#[trigger] self.basis[j]@, j as nat, p)
                && wf_column(self.reduced[j]@, p)
        &&& forall|j: int, row: usize|
            0 <= j < n ==> #[trigger] lookup(self.reduced[j]@, row) == combination(
                boundaries,
                self.basis[j]@,
                boundaries.len(),
                p,
                row,
            )
    }

    /// Every owner in the table is a column below `limit` whose pivot is the
    /// key.
    spec fn owners_wf(&self, limit: nat) -> bool {
        forall|key: usize|
            #[trigger] pivot_table(self.pivot_owner).contains_key(key) ==> pivot_table(
                self.pivot_owner,
            )[key] < limit && self.reduced[pivot_table(self.pivot_owner)[key] as int]@.len() > 0
                && self.reduced[pivot_table(self.pivot_owner)[key] as int]@.last().0 == key
    }

    proof fn lemma_built_views(&self, boundaries: Seq<Seq<(usize, u64)>>, max_terms: nat)
        requires
            self.wf(boundaries, max_terms),
        ensures
            self.built().len() == self.processed(),
            valid_change_columns(self.built(), self.spec_modulus()),
            forall|j: int, row: usize|
                0 <= j < self.processed() ==> #[trigger] reduced_entry(
                    boundaries,
                    self.built()[j],
                    self.spec_modulus(),
                    row,
                ) == lookup(self.reduced[j]@, row),
            distinct_pivots(boundaries, self.built(), self.spec_modulus()),
            terms_total(self.built()) <= max_terms,
    {
        let p = self.modulus as nat;
        let views = self.built();
        assert forall|j: int| 0 <= j < views.len() implies valid_change_column(
            #[trigger] views[j],
            j as nat,
            p,
        ) by {
            lemma_terms_of_basis(self.basis[j]@, j as nat, p);
        }
        assert forall|j: int, row: usize| 0 <= j < self.processed() implies #[trigger] reduced_entry(
            boundaries,
            views[j],
            p,
            row,
        ) == lookup(self.reduced[j]@, row) by {
            lemma_terms_of_basis(self.basis[j]@, j as nat, p);
        }
        assert forall|first: int, second: int, row: usize|
            0 <= first < second < views.len() implies !(#[trigger] has_pivot(
            boundaries,
            views[first],
            p,
            row,
        ) && #[trigger] has_pivot(boundaries, views[second], p, row)) by {
            assert forall|r: usize| #[trigger] lookup(self.reduced[first]@, r) == reduced_entry(
                boundaries,
                views[first],
                p,
                r,
            ) by {
                lemma_terms_of_basis(self.basis[first]@, first as nat, p);
            }
            assert forall|r: usize| #[trigger] lookup(self.reduced[second]@, r) == reduced_entry(
                boundaries,
                views[second],
                p,
                r,
            ) by {
                lemma_terms_of_basis(self.basis[second]@, second as nat, p);
            }
            lemma_pivot_of_represented(self.reduced[first]@, p, boundaries, views[first]);
            lemma_pivot_of_represented(self.reduced[second]@, p, boundaries, views[second]);
            if has_pivot(boundaries, views[first], p, row) && has_pivot(
                boundaries,
                views[second],
                p,
                row,
            ) {
                let key = self.reduced[first]@.last().0;
                assert(pivot_table(self.pivot_owner)[key] == first);
                assert(self.reduced[second]@.last().0 == key);
                assert(pivot_table(self.pivot_owner)[key] == second);
            }
        }
    }

    /// An empty reduction over `modulus`.
    fn new(capacity: usize, modulus: u64, boundaries: Ghost<Seq<Seq<(usize, u64)>>>, max_terms: Ghost<nat>) -> (state: Self)
        requires
            spec_is_prime(modulus as nat),
            modulus <= u32::MAX,
            wf_columns(boundaries@, modulus as nat),
            boundaries@.len() <= usize::MAX,
        ensures
            state.wf(boundaries@, max_terms@),
            state.processed() == 0,
            state.spec_modulus() == modulus,
            state.spec_additions() == 0,
    {
        let state = ReductionState {
            modulus,
            reduced: Vec::with_capacity(capacity),
            basis: Vec::with_capacity(capacity),
            pivot_owner: new_pivot_table(),
            total_terms: 0,
            additions: 0,
        };
        proof {
            assert(basis_views(state.basis@) =~= Seq::<Seq<CertificateTerm>>::empty());
        }
        state
    }

    /// Add `count` basis terms to the running total bounded by `maximum`.
    fn add_terms(&mut self, count: usize, maximum: usize) -> (result: Result<(), CertificateError>)
        ensures
            result is Ok <==> old(self).total_terms + count <= maximum,
            result is Ok ==> final(self).total_terms == old(self).total_terms + count,
            final(self).modulus == old(self).modulus,
            final(self).reduced == old(self).reduced,
            final(self).basis == old(self).basis,
            final(self).pivot_owner == old(self).pivot_owner,
            final(self).additions == old(self).additions,
    {
        match self.total_terms.checked_add(count) {
            None => {
                return Err(
                    CertificateError::new(literal("change-of-basis term count overflows usize")),
                );
            },
            Some(next) => {
                self.total_terms = next;
            },
        }
        if self.total_terms > maximum {
            return Err(
                CertificateError::new(
                    with_numbers(
                        "",
                        self.total_terms,
                        " change-of-basis terms exceed the limit ",
                        maximum,
                        "",
                    ),
                ),
            );
        }
        Ok(())
    }

    /// Record `column = D V` and its basis column `V` at position
    /// `processed()`, registering the pivot of `column`, which no earlier
    /// column owns.
    fn push_column(
        &mut self,
        column: SparseColumn,
        transform: SparseColumn,
        boundaries: Ghost<Seq<Seq<(usize, u64)>>>,
        max_terms: Ghost<nat>,
    )
        requires
            old(self).columns_wf(boundaries@),
            old(self).processed() < boundaries@.len(),
            unit_basis_column(transform@, old(self).processed(), old(self).modulus as nat),
            wf_column(column@, old(self).modulus as nat),
            forall|row: usize|
                #[trigger] lookup(column@, row) == combination(
                    boundaries@,
                    transform@,
                    boundaries@.len(),
                    old(self).modulus as nat,
                    row,
                ),
            forall|t: int|
                0 <= t < old(self).basis.len() && (#[trigger] old(self).reduced[t]@).len() > 0
                    ==> pivot_table(old(self).pivot_owner).contains_key(old(self).reduced[t]@.last().0)
                    && pivot_table(old(self).pivot_owner)[old(self).reduced[t]@.last().0] == t,
            column@.len() > 0 ==> pivot_table(old(self).pivot_owner).contains_key(column@.last().0)
                && pivot_table(old(self).pivot_owner)[column@.last().0] == old(self).processed(),
            forall|key: usize|
                #[trigger] pivot_table(old(self).pivot_owner).contains_key(key) ==> (pivot_table(
                    old(self).pivot_owner,
                )[key] < old(self).processed() && old(self).reduced[pivot_table(
                    old(self).pivot_owner,
                )[key] as int]@.len() > 0 && old(self).reduced[pivot_table(
                    old(self).pivot_owner,
                )[key] as int]@.last().0 == key) || (pivot_table(old(self).pivot_owner)[key]
                    == old(self).processed() && column@.len() > 0 && column@.last().0 == key),
            old(self).total_terms == terms_total(basis_views(old(self).basis@)) + transform@.len(),
            old(self).total_terms <= max_terms@,
        ensures
            final(self).wf(boundaries@, max_terms@),
            final(self).processed() == old(self).processed() + 1,
            final(self).built() == old(self).built().push(basis_terms(transform@)),
            final(self).spec_modulus() == old(self).spec_modulus(),
            final(self).spec_additions() == old(self).spec_additions(),
            forall|j: int| 0 <= j < old(self).processed() ==> #[trigger] final(self).basis[j] == old(self).basis[j],
    {
        let ghost position = self.basis.len() as int;
        let ghost old_basis = self.basis@;
        self.reduced.push(column);
        self.basis.push(transform);
        proof {
            assert(basis_views(self.basis@) =~= basis_views(old_basis).push(basis_terms(transform@)));
            assert(basis_views(self.basis@).drop_last() =~= basis_views(old_basis));
        }
    }

    /// Reduce boundary column `index` against the columns recorded so far:
    /// while its pivot is owned by an earlier column, add the multiple of
    /// that column that cancels the pivot.
    fn reduce(
        &mut self,
        index: usize,
        boundary: &SparseColumn,
        boundaries: Ghost<Seq<Seq<(usize, u64)>>>,
        max_terms: usize,
    ) -> (result: Result<(), CertificateError>)
        requires
            old(self).wf(boundaries@, max_terms as nat),
            index == old(self).processed(),
            index < boundaries@.len(),
            boundary@ == boundaries@[index as int],
        ensures
            result is Ok ==> final(self).wf(boundaries@, max_terms as nat)
                && final(self).processed() == index + 1 && final(self).built().take(index as int)
                == old(self).built() && final(self).spec_modulus() == old(self).spec_modulus(),
            terms_total(old(self).built()) + index + 1 <= max_terms ==> result is Ok,
    {
        let ghost bv = boundaries@;
        let ghost p = self.modulus as nat;
        let ghost n = bv.len();
        let ghost start_built = self.built();
        let mut column = boundary.duplicate();
        let mut transform = SparseColumn::new();
        transform.insert(index, 1);
        proof {
            assert(wf_column(bv[index as int], p));
            assert(transform@ =~= seq![(index, 1u64)]);
            assert forall|row: usize| #[trigger] lookup(column@, row) == combination(
                bv,
                transform@,
                n,
                p,
                row,
            ) by {
                lemma_lookup_below(bv[index as int], p, row);
                lemma_combination_single(bv, index, n, p, row);
            }
        }
        loop
            invariant
                self.wf(bv, max_terms as nat),
                self.basis.len() == index,
                self.built() == start_built,
                p == self.modulus as nat,
                n == bv.len(),
                index < n,
                wf_column(column@, p),
                unit_basis_column(transform@, index as nat, p),
                forall|row: usize| #[trigger] lookup(column@, row) == combination(
                    bv,
                    transform@,
                    n,
                    p,
                    row,
                ),
            ensures
                self.wf(bv, max_terms as nat),
                self.basis.len() == index,
                self.built() == start_built,
                wf_column(column@, p),
                unit_basis_column(transform@, index as nat, p),
                forall|row: usize| #[trigger] lookup(column@, row) == combination(
                    bv,
                    transform@,
                    n,
                    p,
                    row,
                ),
                column@.len() > 0 ==> !pivot_table(self.pivot_owner).contains_key(column@.last().0),
            decreases pivot_measure(column@),
        {
            let (pivot, coefficient) = match column.pivot() {
                None => {
                    break;
                },
                Some(entry) => entry,
            };
            let owner = match pivot_table_get(&self.pivot_owner, pivot) {
                None => {
                    break;
                },
                Some(owner) => owner,
            };
            let ghost before_column = column@;
            let ghost before_transform = transform@;
            let ghost owner_column = self.reduced[owner as int]@;
            let ghost owner_basis = self.basis[owner as int]@;
            proof {
                assert(self.reduced[owner as int]@.len() > 0);
                lemma_pivot_is_last_nonzero(before_column, p);
                lemma_pivot_is_last_nonzero(owner_column, p);
                assert(unit_basis_column(owner_basis, owner as nat, p));
                lemma_pivot_is_last_nonzero(owner_basis, p);
                assert(before_column.last() == before_column[before_column.len() - 1]);
                assert(owner_column.last() == owner_column[owner_column.len() - 1]);
            }
            let owner_coefficient = self.reduced[owner].pivot().unwrap().1;
            let inverse = inverse_mod(owner_coefficient, self.modulus);
            proof {
                lemma_inverse_mod_is_inverse(owner_coefficient as nat, p);
                assert((coefficient as int) * (inverse as int) < 0x1_0000_0000_0000_0000) by (
                nonlinear_arith)
                    requires
                        coefficient < p,
                        inverse < p,
                        p <= u32::MAX,
                ;
            }
            let factor = (self.modulus - coefficient * inverse % self.modulus) % self.modulus;
            proof {
                lemma_cancel_pivot(coefficient as int, owner_coefficient as int, inverse as int, p as int);
            }
            column.add_scaled(&self.reduced[owner], factor, self.modulus);
            transform.add_scaled(&self.basis[owner], factor, self.modulus);
            proof {
                assert forall|key: usize| key >= pivot implies #[trigger] lookup(column@, key) == 0 by {
                    if key > pivot {
                        lemma_small_mod(0, p);
                        assert(factor * 0 == 0);
                    }
                }
                lemma_pivot_below(column@, p, pivot);
                assert forall|row: usize| #[trigger] lookup(column@, row) == combination(
                    bv,
                    transform@,
                    n,
                    p,
                    row,
                ) by {
                    lemma_combination_linear(
                        bv,
                        before_transform,
                        owner_basis,
                        transform@,
                        factor as int,
                        n,
                        p,
                        row,
                    );
                }
                assert forall|key: usize| key > index implies #[trigger] lookup(transform@, key) == 0 by {
                    lemma_pivot_is_last_nonzero(before_transform, p);
                    lemma_small_mod(0, p);
                    assert(factor * 0 == 0);
                }
                assert(lookup(transform@, index) == 1) by {
                    lemma_pivot_is_last_nonzero(before_transform, p);
                    assert(lookup(owner_basis, index) == 0);
                    assert(factor * 0 == 0);
                    lemma_small_mod(1, p);
                }
                if transform@.len() == 0 {
                    assert(lookup(transform@, index) == 0);
                }
                lemma_pivot_is_last_nonzero(transform@, p);
                assert(transform@.last().0 == index);
            }
            self.additions = self.additions.saturating_add(1);
        }
        let ghost table = pivot_table(self.pivot_owner);
        match column.pivot() {
            Some((pivot, _)) => {
                pivot_table_insert(&mut self.pivot_owner, pivot, index);
            },
            None => {},
        }
        proof {
            lemma_terms_of_basis(transform@, index as nat, p);
            lemma_change_column_len(basis_terms(transform@), index as nat, p);
        }
        let counted = self.add_terms(transform.entries.len(), max_terms);
        if counted.is_err() {
            return counted;
        }
        self.push_column(column, transform, Ghost(bv), Ghost(max_terms as nat));
        proof {
            assert(self.built().take(index as int) =~= start_built);
        }
        Ok(())
    }

    /// The change columns recorded so far and the number of column additions.
    fn finish(self) -> (result: (Vec<ChangeColumn>, usize))
        requires
            self.spec_modulus() <= u32::MAX,
            forall|j: int| 0 <= j < self.basis.len() ==> wf_column(#[trigger] self.basis[j]@, self.spec_modulus()),
        ensures
            change_views(result.0@) == self.built(),
            result.1 == self.spec_additions(),
    {
        let mut columns: Vec<ChangeColumn> = Vec::new();
        let mut k: usize = 0;
        proof {
            assert(change_views(columns@) =~= basis_views(self.basis@.take(0)));
        }
        while k < self.basis.len()
            invariant
                k <= self.basis.len(),
                self.spec_modulus() <= u32::MAX,
                forall|j: int| 0 <= j < self.basis.len() ==> wf_column(#[trigger] self.basis[j]@, self.spec_modulus()),
                change_views(columns@) == basis_views(self.basis@.take(k as int)),
            decreases self.basis.len() - k,
        {
            let column = change_column_from_sparse(&self.basis[k]);
            let ghost previous = columns@;
            columns.push(column);
            proof {
                assert(change_views(columns@) =~= change_views(previous).push(column@));
                assert(self.basis@.take(k + 1) =~= self.basis@.take(k as int).push(self.basis@[k as int]));
                assert(basis_views(self.basis@.take(k + 1)) =~= basis_views(self.basis@.take(k as int)).push(basis_terms(self.basis@[k as int]@)));
            }
            k += 1;
        }
        proof {
            assert(self.basis@.take(self.basis.len() as int) =~= self.basis@);
        }
        (columns, self.additions)
    }

    /// Keep a given change column at position `index` after checking it.
    fn retain(
        &mut self,
        index: usize,
        transform: &ChangeColumn,
        boundaries: &[SparseColumn],
        max_terms: usize,
    ) -> (result: Result<(), CertificateError>)
        requires
            old(self).wf(column_views(boundaries@), max_terms as nat),
            index == old(self).processed(),
            index < boundaries.len(),
        ensures
            result is Ok <==> valid_change_column(transform@, index as nat, old(self).spec_modulus())
                && distinct_pivots(
                column_views(boundaries@),
                old(self).built().push(transform@),
                old(self).spec_modulus(),
            ) && terms_total(old(self).built()) + transform@.len() <= max_terms,
            result is Ok ==> final(self).wf(column_views(boundaries@), max_terms as nat)
                && final(self).processed() == index + 1 && final(self).built() == old(
                self,
            ).built().push(transform@) && final(self).spec_modulus() == old(self).spec_modulus()
                && final(self).spec_additions() == old(self).spec_additions(),
    {
        let ghost bv = column_views(boundaries@);
        let ghost p = self.modulus as nat;
        let ghost built = self.built();
        proof {
            self.lemma_built_views(bv, max_terms as nat);
        }
        let retained = retained_column(index, transform, boundaries, self.modulus);
        let (column, basis_column) = match retained {
            Err(error) => {
                return Err(error);
            },
            Ok(pair) => pair,
        };
        proof {
            assert(basis_terms(basis_column@) =~= transform@);
            assert(forall|row: usize| #[trigger] reduced_entry(bv, transform@, p, row) == lookup(column@, row));
            lemma_pivot_of_represented(column@, p, bv, transform@);
        }
        let ghost old_table = pivot_table(self.pivot_owner);
        match column.pivot() {
            Some((pivot, _)) => {
                let previous = pivot_table_insert(&mut self.pivot_owner, pivot, index);
                if previous.is_some() {
                    proof {
                        let t = previous.unwrap() as int;
                        assert(old_table.contains_key(pivot));
                        assert forall|r: usize| #[trigger] lookup(self.reduced[t]@, r) == reduced_entry(
                            bv,
                            built[t],
                            p,
                            r,
                        ) by {
                        }
                        lemma_pivot_of_represented(self.reduced[t]@, p, bv, built[t]);
                        assert(has_pivot(bv, built[t], p, pivot));
                        assert(has_pivot(bv, transform@, p, pivot));
                        assert(built.push(transform@)[t] == built[t]);
                        assert(built.push(transform@)[index as int] == transform@);
                    }
                    return Err(
                        CertificateError::new(
                            literal("retained reduction prefix has duplicate pivots"),
                        ),
                    );
                }
            },
            None => {},
        }
        proof {
            assert forall|first: int, second: int, row: usize|
                0 <= first < second < built.push(transform@).len() implies !(#[trigger] has_pivot(
                bv,
                built.push(transform@)[first],
                p,
                row,
            ) && #[trigger] has_pivot(bv, built.push(transform@)[second], p, row)) by {
                assert(built.push(transform@)[first] == built[first]);
                if second < index {
                    assert(built.push(transform@)[second] == built[second]);
                } else {
                    assert(built.push(transform@)[second] == transform@);
                    assert forall|r: usize| #[trigger] lookup(self.reduced[first]@, r) == reduced_entry(
                        bv,
                        built[first],
                        p,
                        r,
                    ) by {
                    }
                    lemma_pivot_of_represented(self.reduced[first]@, p, bv, built[first]);
                }
            }
        }
        let ghost before_terms = self.total_terms;
        let counted = self.add_terms(basis_column.entries.len(), max_terms);
        if counted.is_err() {
            return counted;
        }
        self.push_column(column, basis_column, Ghost(bv), Ghost(max_terms as nat));
        Ok(())
    }
}


/// Check one term of a retained change column at position `target`.
fn check_retained_term(
    target: usize,
    term: &CertificateTerm,
    previous: Option<usize>,
    modulus: u64,
) -> (result: Result<(), CertificateError>)
    ensures
        result is Ok <==> valid_change_term(*term, target as nat, previous, modulus as nat),
{
    let misordered = match previous {
        Some(value) => value >= term.index,
        None => false,
    };
    if term.index > target || misordered {
        return Err(CertificateError::new(literal("retained reduction prefix is not unit triangular")));
    }
    if term.coefficient == 0 || term.coefficient as u64 >= modulus {
        return Err(
            CertificateError::new(literal("retained reduction prefix has an invalid coefficient")),
        );
    }
    Ok(())
}

/// Rebuild `D V` for a retained change column `V` at position `index`,
/// together with `V` as a sparse column.
fn retained_column(
    index: usize,
    transform: &ChangeColumn,
    boundaries: &[SparseColumn],
    modulus: u64,
) -> (result: Result<(SparseColumn, SparseColumn), CertificateError>)
    requires
        2 <= modulus <= u32::MAX,
        index < boundaries.len(),
        wf_columns(column_views(boundaries@), modulus as nat),
    ensures
        result is Ok <==> valid_change_column(transform@, index as nat, modulus as nat),
        result matches Ok((column, basis_column)) ==> wf_column(column@, modulus as nat)
            && basis_column@ == term_pairs(transform@) && unit_basis_column(
            basis_column@,
            index as nat,
            modulus as nat,
        ) && forall|row: usize|
            #[trigger] lookup(column@, row) == combination(
                column_views(boundaries@),
                basis_column@,
                boundaries.len() as nat,
                modulus as nat,
                row,
            ),
{
    let ghost bv = column_views(boundaries@);
    let ghost terms = transform@;
    let ghost p = modulus as nat;
    let mut column = SparseColumn::new();
    let mut basis_column = SparseColumn::new();
    let mut previous: Option<usize> = None;
    let mut k: usize = 0;
    proof {
        assert(term_pairs(terms.take(0)) =~= Seq::<(usize, u64)>::empty());
        assert forall|row: usize| #[trigger] lookup(column@, row) == combination(
            bv,
            basis_column@,
            bv.len(),
            p,
            row,
        ) by {
            assert forall|i: usize| i < bv.len() implies #[trigger] lookup(basis_column@, i) == 0 by {
            }
            lemma_combination_zero(bv, basis_column@, bv.len(), p, row);
        }
    }
    while k < transform.terms.len()
        invariant
            bv == column_views(boundaries@),
            terms == transform@,
            p == modulus as nat,
            2 <= modulus <= u32::MAX,
            index < boundaries.len(),
            wf_columns(bv, p),
            k <= terms.len(),
            k == 0 <==> previous is None,
            previous matches Some(before) ==> k > 0 && before == terms[k - 1].index,
            forall|i: int|
                0 <= i < k ==> (#[trigger] terms[i]).index <= index && 0 < terms[i].coefficient < p,
            forall|i: int, j: int| 0 <= i < j < k ==> terms[i].index < terms[j].index,
            basis_column@ == term_pairs(terms.take(k as int)),
            wf_column(basis_column@, p),
            wf_column(column@, p),
            forall|row: usize| #[trigger] lookup(column@, row) == combination(
                bv,
                basis_column@,
                bv.len(),
                p,
                row,
            ),
        decreases terms.len() - k,
    {
        let term = &transform.terms[k];
        let checked = check_retained_term(index, term, previous, modulus);
        if checked.is_err() {
            proof {
                assert(terms[k as int] == *term);
                if valid_change_column(terms, index as nat, p) {
                    if k > 0 {
                        assert(terms[k - 1].index < terms[k as int].index);
                    }
                }
            }
            return Err(checked.unwrap_err());
        }
        let ghost before_basis = basis_column@;
        proof {
            assert(terms[k as int] == *term);
            assert forall|t: int| 0 <= t < before_basis.len() implies #[trigger] before_basis[t].0
                < term.index by {
                assert(before_basis[t].0 == terms[t].index);
            }
            assert(wf_column(bv[term.index as int], p));
        }
        column.add_scaled(&boundaries[term.index], term.coefficient as u64, modulus);
        basis_column.insert(term.index, term.coefficient as u64);
        proof {
            assert(term_pairs(terms.take(k as int + 1)) =~= term_pairs(terms.take(k as int)).push(
                (term.index, term.coefficient as u64),
            ));
            assert forall|row: usize| #[trigger] lookup(column@, row) == combination(
                bv,
                basis_column@,
                bv.len(),
                p,
                row,
            ) by {
                lemma_combination_push(
                    bv,
                    before_basis,
                    term.index,
                    term.coefficient as u64,
                    bv.len(),
                    p,
                    row,
                );
            }
            assert forall|i: int, j: int| 0 <= i < j < basis_column@.len() implies basis_column@[i].0
                < basis_column@[j].0 by {
                assert(basis_column@[i].0 == terms[i].index);
                assert(basis_column@[j].0 == terms[j].index);
            }
            assert forall|i: int| 0 <= i < basis_column@.len() implies 0 < #[trigger] basis_column@[i].1
                < p by {
                assert(basis_column@[i].1 == terms[i].coefficient as u64);
            }
        }
        previous = Some(term.index);
        k += 1;
    }
    proof {
        assert(terms.take(terms.len() as int) =~= terms);
    }
    // Every position is at most `index` and positions ascend, so `index` can
    // only be the last one.
    let unit = match basis_column.pivot() {
        Some((last, coefficient)) => last == index && coefficient == 1,
        None => false,
    };
    if !unit {
        return Err(CertificateError::new(literal("retained reduction prefix is not unit triangular")));
    }
    proof {
        assert(basis_column@.last() == basis_column@[basis_column@.len() - 1]);
    }
    Ok((column, basis_column))
}


/// The change column holding the entries of a sparse basis column.
fn change_column_from_sparse(column: &SparseColumn) -> (change: ChangeColumn)
    requires
        forall|i: int| 0 <= i < column@.len() ==> #[trigger] column@[i].1 <= u32::MAX,
    ensures
        change@ == basis_terms(column@),
{
    let mut terms: Vec<CertificateTerm> = Vec::new();
    let mut k: usize = 0;
    while k < column.entries.len()
        invariant
            k <= column@.len(),
            forall|i: int| 0 <= i < column@.len() ==> #[trigger] column@[i].1 <= u32::MAX,
            terms@ == basis_terms(column@.take(k as int)),
        decreases column@.len() - k,
    {
        let (index, coefficient) = column.entries[k];
        proof {
            assert(column@[k as int] == (index, coefficient));
        }
        terms.push(CertificateTerm { index, coefficient: coefficient as u32 });
        k += 1;
        proof {
            assert(terms@ =~= basis_terms(column@.take(k as int)));
        }
    }
    proof {
        assert(column@.take(column@.len() as int) =~= column@);
    }
    ChangeColumn { terms }
}

/// Reduce every boundary column from scratch.
pub fn reduce_with_basis(
    boundaries: &[SparseColumn],
    modulus: u32,
    limits: CertificateLimits,
) -> (result: Result<Vec<ChangeColumn>, CertificateError>)
    requires
        spec_is_prime(modulus as nat),
        wf_columns(column_views(boundaries@), modulus as nat),
    ensures
        result matches Ok(columns) ==> valid_reduction(
            column_views(boundaries@),
            change_views(columns@),
            modulus as nat,
            limits.max_terms as nat,
        ),
        triangular(boundaries.len() as nat) <= limits.max_terms ==> result is Ok,
{
    let empty: Vec<ChangeColumn> = Vec::new();
    proof {
        assert(change_views(empty@) =~= Seq::<Seq<CertificateTerm>>::empty());
    }
    match reduce_with_prefix(boundaries, empty.as_slice(), modulus, limits) {
        Ok((columns, _)) => Ok(columns),
        Err(error) => Err(error),
    }
}

/// Keep the checked change columns of `prefix`, then reduce every later
/// boundary column; also report the number of column additions.
pub fn reduce_with_prefix(
    boundaries: &[SparseColumn],
    prefix: &[ChangeColumn],
    modulus: u32,
    limits: CertificateLimits,
) -> (result: Result<(Vec<ChangeColumn>, usize), CertificateError>)
    requires
        spec_is_prime(modulus as nat),
        wf_columns(column_views(boundaries@), modulus as nat),
    ensures
        prefix.len() > boundaries.len() ==> result is Err,
        result matches Ok((columns, _)) ==> valid_reduction(
            column_views(boundaries@),
            change_views(columns@),
            modulus as nat,
            limits.max_terms as nat,
        ) && forall|j: int| 0 <= j < prefix.len() ==> #[trigger] columns[j]@ == prefix[j]@,
        prefix.len() <= boundaries.len() && !(valid_change_columns(
            change_views(prefix@),
            modulus as nat,
        ) && distinct_pivots(column_views(boundaries@), change_views(prefix@), modulus as nat))
            ==> result is Err,
        prefix.len() <= boundaries.len() && valid_change_columns(change_views(prefix@), modulus as nat)
            && distinct_pivots(column_views(boundaries@), change_views(prefix@), modulus as nat)
            && triangular(boundaries.len() as nat) <= limits.max_terms ==> result is Ok,
{
    let ghost bv = column_views(boundaries@);
    let ghost p = modulus as nat;
    if prefix.len() > boundaries.len() {
        return Err(CertificateError::new(literal("reduction prefix is longer than the boundary matrix")));
    }
    proof {
        assert(bv.len() == boundaries.len());
    }
    let mut state = ReductionState::new(boundaries.len(), modulus as u64, Ghost(bv), Ghost(limits.max_terms as nat));
    let mut index: usize = 0;
    while index < prefix.len()
        invariant
            bv == column_views(boundaries@),
            p == modulus as nat,
            prefix.len() <= boundaries.len(),
            index <= prefix.len(),
            state.wf(bv, limits.max_terms as nat),
            state.processed() == index,
            state.spec_modulus() == p,
            state.built() == change_views(prefix@).take(index as int),
        decreases prefix.len() - index,
    {
        let retained = state.retain(index, &prefix[index], boundaries, limits.max_terms);
        if retained.is_err() {
            proof {
                let views = change_views(prefix@);
                assert(views[index as int] == prefix@[index as int]@);
                if valid_change_columns(views, p) && distinct_pivots(bv, views, p) {
                    assert(views.take(index as int).push(views[index as int]) =~= views.take(index as int + 1));
                    let upto = views.take(index as int + 1);
                    assert forall|j: int| 0 <= j < upto.len() implies valid_change_column(#[trigger] upto[j], j as nat, p) by {
                        assert(upto[j] == views[j]);
                    }
                    lemma_terms_total_bound(upto, p);
                    lemma_terms_total_prefix(views, index as int);
                    lemma_triangular_monotone((index + 1) as nat, boundaries.len() as nat);
                    assert forall|first: int, second: int, row: usize|
                        0 <= first < second < views.take(index as int + 1).len() implies !(#[trigger] has_pivot(
                        bv,
                        views.take(index as int + 1)[first],
                        p,
                        row,
                    ) && #[trigger] has_pivot(bv, views.take(index as int + 1)[second], p, row)) by {
                        assert(views.take(index as int + 1)[first] == views[first]);
                        assert(views.take(index as int + 1)[second] == views[second]);
                    }
                }
            }
            return Err(retained.unwrap_err());
        }
        proof {
            assert(change_views(prefix@).take(index as int + 1) =~= change_views(prefix@).take(index as int).push(prefix@[index as int]@));
        }
        index += 1;
    }
    while index < boundaries.len()
        invariant
            bv == column_views(boundaries@),
            p == modulus as nat,
            prefix.len() <= index <= boundaries.len(),
            state.wf(bv, limits.max_terms as nat),
            state.processed() == index,
            state.spec_modulus() == p,
            state.built().take(prefix.len() as int) == change_views(prefix@),
        decreases boundaries.len() - index,
    {
        let ghost before = state.built();
        proof {
            state.lemma_built_views(bv, limits.max_terms as nat);
        }
        let reduced = state.reduce(index, &boundaries[index], Ghost(bv), limits.max_terms);
        if reduced.is_err() {
            proof {
                lemma_terms_total_bound(before, p);
                lemma_triangular_monotone((index + 1) as nat, boundaries.len() as nat);
                assert(triangular((index + 1) as nat) == triangular(index as nat) + index + 1);
            }
            return Err(reduced.unwrap_err());
        }
        proof {
            assert(state.built().take(prefix.len() as int) =~= before.take(prefix.len() as int));
        }
        index += 1;
    }
    proof {
        state.lemma_built_views(bv, limits.max_terms as nat);
        assert forall|j: int| 0 <= j < state.basis.len() implies wf_column(#[trigger] state.basis[j]@, state.spec_modulus()) by {
            assert(unit_basis_column(state.basis[j]@, j as nat, p));
        }
    }
    let (columns, additions) = state.finish();
    proof {
        assert forall|j: int| 0 <= j < prefix.len() implies #[trigger] columns[j]@ == prefix[j]@ by {
            assert(change_views(columns@)[j] == columns@[j]@);
            assert(state.built().take(prefix.len() as int)[j] == state.built()[j]);
            assert(change_views(prefix@)[j] == prefix@[j]@);
        }
    }
    Ok((columns, additions))
}


/// Terms `0..=k` of a change column at `target` point no later than
/// `target` and strictly ascend.
pub open spec fn ordered_through(terms: Seq<CertificateTerm>, target: nat, k: int) -> bool {
    forall|i: int|
        0 <= i <= k ==> (#[trigger] terms[i]).index <= target && (i > 0 ==> terms[i - 1].index
            < terms[i].index)
}

/// Scanning the terms in order, the first failure met is a coefficient
/// that is not a nonzero residue.
pub open spec fn coefficient_failure(terms: Seq<CertificateTerm>, target: nat, p: nat) -> bool {
    exists|k: int|
        0 <= k < terms.len() && ordered_through(terms, target, k) && (forall|i: int|
            0 <= i < k ==> 0 < (#[trigger] terms[i]).coefficient < p) && !(0
            < #[trigger] terms[k].coefficient < p)
}

/// The first `k` candidate columns form an accepted reduction prefix:
/// valid change columns, distinct pivots, and at most `max_terms` terms.
#[verifier::opaque]
pub open spec fn accepted_prefix(
    boundaries: Seq<Seq<(usize, u64)>>,
    columns: Seq<Seq<CertificateTerm>>,
    p: nat,
    max_terms: nat,
    k: int,
) -> bool {
    &&& valid_change_columns(columns.take(k), p)
    &&& distinct_pivots(boundaries, columns.take(k), p)
    &&& terms_total(columns.take(k)) <= max_terms
}

/// Rebuild `D V` for a candidate change column `V` at `target`: `None`
/// when `V` is not filtration-compatible and unit triangular, an error
/// when a coefficient is not a nonzero residue.
fn candidate_reduction(
    target: usize,
    transform: &ChangeColumn,
    boundaries: &[SparseColumn],
    modulus: u64,
) -> (result: Result<Option<SparseColumn>, CertificateError>)
    requires
        2 <= modulus <= u32::MAX,
        target < boundaries.len(),
        wf_columns(column_views(boundaries@), modulus as nat),
    ensures
        result is Err <==> coefficient_failure(transform@, target as nat, modulus as nat),
        result matches Ok(Some(reduced)) ==> valid_change_column(
            transform@,
            target as nat,
            modulus as nat,
        ) && wf_column(reduced@, modulus as nat) && forall|row: usize|
            #[trigger] lookup(reduced@, row) == reduced_entry(
                column_views(boundaries@),
                transform@,
                modulus as nat,
                row,
            ),
        result matches Ok(None) ==> !valid_change_column(transform@, target as nat, modulus as nat),
{
    let ghost bv = column_views(boundaries@);
    let ghost terms = transform@;
    let ghost p = modulus as nat;
    let mut reduced = SparseColumn::new();
    let mut previous: Option<usize> = None;
    let mut k: usize = 0;
    proof {
        assert(term_pairs(terms.take(0)) =~= Seq::<(usize, u64)>::empty());
        assert forall|row: usize| #[trigger] lookup(reduced@, row) == combination(
            bv,
            term_pairs(terms.take(0)),
            bv.len(),
            p,
            row,
        ) by {
            assert forall|i: usize| i < bv.len() implies #[trigger] lookup(
                term_pairs(terms.take(0)),
                i,
            ) == 0 by {
            }
            lemma_combination_zero(bv, term_pairs(terms.take(0)), bv.len(), p, row);
        }
    }
    while k < transform.terms.len()
        invariant
            bv == column_views(boundaries@),
            terms == transform@,
            p == modulus as nat,
            2 <= modulus <= u32::MAX,
            target < boundaries.len(),
            wf_columns(bv, p),
            k <= terms.len(),
            k == 0 <==> previous is None,
            previous matches Some(before) ==> k > 0 && before == terms[k - 1].index,
            ordered_through(terms, target as nat, k - 1),
            forall|i: int| 0 <= i < k ==> 0 < (#[trigger] terms[i]).coefficient < p,
            wf_column(reduced@, p),
            forall|row: usize| #[trigger] lookup(reduced@, row) == combination(
                bv,
                term_pairs(terms.take(k as int)),
                bv.len(),
                p,
                row,
            ),
        decreases terms.len() - k,
    {
        let term = transform.terms[k];
        proof {
            assert(terms[k as int] == term);
        }
        let misordered = match previous {
            Some(value) => value >= term.index,
            None => false,
        };
        if term.index > target || misordered {
            proof {
                if coefficient_failure(terms, target as nat, p) {
                    let bad = choose|j: int|
                        0 <= j < terms.len() && ordered_through(terms, target as nat, j) && (forall|i: int|
                            0 <= i < j ==> 0 < (#[trigger] terms[i]).coefficient < p) && !(0
                            < #[trigger] terms[j].coefficient < p);
                    if bad >= k {
                        assert(terms[k as int].index <= target);
                        if k > 0 {
                            assert(terms[k - 1].index < terms[k as int].index);
                        }
                    }
                }
            }
            return Ok(None);
        }
        if term.coefficient == 0 || term.coefficient as u64 >= modulus {
            proof {
                assert(ordered_through(terms, target as nat, k as int));
            }
            return Err(CertificateError::new(literal("reduction repair found an invalid coefficient")));
        }
        proof {
            assert(ordered_through(terms, target as nat, k as int));
            assert forall|t: int| 0 <= t < term_pairs(terms.take(k as int)).len() implies #[trigger] term_pairs(
                terms.take(k as int),
            )[t].0 < term.index by {
                assert(term_pairs(terms.take(k as int))[t].0 == terms[t].index);
                assert(ordered_through(terms, target as nat, k as int));
                lemma_ordered_ascend(terms, target as nat, k as int, t);
            }
            assert(wf_column(bv[term.index as int], p));
            assert(term_pairs(terms.take(k as int + 1)) =~= term_pairs(terms.take(k as int)).push(
                (term.index, term.coefficient as u64),
            ));
        }
        let ghost before = reduced@;
        reduced.add_scaled(&boundaries[term.index], term.coefficient as u64, modulus);
        proof {
            assert forall|row: usize| #[trigger] lookup(reduced@, row) == combination(
                bv,
                term_pairs(terms.take(k as int + 1)),
                bv.len(),
                p,
                row,
            ) by {
                lemma_combination_push(
                    bv,
                    term_pairs(terms.take(k as int)),
                    term.index,
                    term.coefficient as u64,
                    bv.len(),
                    p,
                    row,
                );
            }
        }
        previous = Some(term.index);
        k += 1;
    }
    proof {
        assert(terms.take(terms.len() as int) =~= terms);
        if coefficient_failure(terms, target as nat, p) {
            let bad = choose|j: int|
                0 <= j < terms.len() && ordered_through(terms, target as nat, j) && (forall|i: int|
                    0 <= i < j ==> 0 < (#[trigger] terms[i]).coefficient < p) && !(0
                    < #[trigger] terms[j].coefficient < p);
            assert(0 < terms[bad].coefficient < p);
        }
        assert forall|i: int, j: int| 0 <= i < j < terms.len() implies terms[i].index < terms[j].index by {
            lemma_ordered_ascend(terms, target as nat, terms.len() - 1, i);
            lemma_ordered_ascend_pair(terms, target as nat, terms.len() - 1, i, j);
        }
    }
    let unit_diagonal = transform.terms.len() > 0 && transform.terms[transform.terms.len() - 1].index
        == target && transform.terms[transform.terms.len() - 1].coefficient == 1;
    if unit_diagonal {
        Ok(Some(reduced))
    } else {
        Ok(None)
    }
}

/// Under `ordered_through(terms, target, k)`, term `t < k` precedes term `k`.
proof fn lemma_ordered_ascend(terms: Seq<CertificateTerm>, target: nat, k: int, t: int)
    requires
        ordered_through(terms, target, k),
        0 <= t <= k,
        k < terms.len(),
    ensures
        t < k ==> terms[t].index < terms[k].index,
    decreases k - t,
{
    if t < k {
        assert(terms[k - 1].index < terms[k].index);
        if t < k - 1 {
            lemma_ordered_ascend(terms, target, k - 1, t);
        }
    }
}

proof fn lemma_ordered_ascend_pair(terms: Seq<CertificateTerm>, target: nat, k: int, i: int, j: int)
    requires
        ordered_through(terms, target, k),
        0 <= i < j <= k,
        k < terms.len(),
    ensures
        terms[i].index < terms[j].index,
{
    assert(ordered_through(terms, target, j));
    lemma_ordered_ascend(terms, target, j, i);
}


/// Length of the longest prefix of `candidates` that is still an accepted
/// reduction of `boundaries`: the scan stops at the first column that is
/// not filtration-compatible and unit triangular, or whose pivot an
/// earlier column owns. A coefficient that is not a nonzero residue, or a
/// prefix over the term budget, is an error.
pub fn valid_reduction_prefix_len(
    boundaries: &[SparseColumn],
    candidates: &[ChangeColumn],
    modulus: u32,
    limits: CertificateLimits,
) -> (result: Result<usize, CertificateError>)
    requires
        2 <= modulus,
        candidates.len() <= boundaries.len(),
        wf_columns(column_views(boundaries@), modulus as nat),
    ensures
        result matches Ok(k) ==> k <= candidates.len() && accepted_prefix(
            column_views(boundaries@),
            change_views(candidates@),
            modulus as nat,
            limits.max_terms as nat,
            k as int,
        ) && (k < candidates.len() ==> !coefficient_failure(candidates@[k as int]@, k as nat, modulus as nat)
            && !(valid_change_column(candidates@[k as int]@, k as nat, modulus as nat)
            && distinct_pivots(
            column_views(boundaries@),
            change_views(candidates@).take(k + 1),
            modulus as nat,
        ))),
        result is Err ==> exists|t: int|
            0 <= t < candidates.len() && accepted_prefix(
                column_views(boundaries@),
                change_views(candidates@),
                modulus as nat,
                limits.max_terms as nat,
                t,
            ) && (coefficient_failure(#[trigger] candidates@[t]@, t as nat, modulus as nat) || (
            valid_change_column(candidates@[t]@, t as nat, modulus as nat) && distinct_pivots(
                column_views(boundaries@),
                change_views(candidates@).take(t + 1),
                modulus as nat,
            ) && terms_total(change_views(candidates@).take(t + 1)) > limits.max_terms)),
{
    let ghost bv = column_views(boundaries@);
    let ghost views = change_views(candidates@);
    let ghost p = modulus as nat;
    let modulus64 = modulus as u64;
    let mut pivots = new_pivot_table();
    let mut total_terms: usize = 0;
    let mut target: usize = 0;
    proof {
        assert(views.take(0) =~= Seq::<Seq<CertificateTerm>>::empty());
        assert(accepted_prefix(bv, views, p, limits.max_terms as nat, 0)) by {
            reveal(accepted_prefix);
        }
        assert(owners_of(bv, views, p, 0, pivot_table(pivots))) by {
            reveal(owners_of);
        }
    }
    while target < candidates.len()
        invariant
            bv == column_views(boundaries@),
            views == change_views(candidates@),
            p == modulus as nat,
            modulus64 == modulus as u64,
            2 <= modulus64 <= u32::MAX,
            candidates.len() <= boundaries.len(),
            wf_columns(bv, p),
            target <= candidates.len(),
            accepted_prefix(bv, views, p, limits.max_terms as nat, target as int),
            total_terms == terms_total(views.take(target as int)),
            owners_of(bv, views, p, target as int, pivot_table(pivots)),
        decreases candidates.len() - target,
    {
        let transform = &candidates[target];
        proof {
            assert(views[target as int] == transform@);
            assert(views.take(target as int + 1) =~= views.take(target as int).push(transform@));
            assert(views.take(target as int + 1).drop_last() =~= views.take(target as int));
        }
        let candidate = candidate_reduction(target, transform, boundaries, modulus64);
        let reduced = match candidate {
            Err(error) => {
                proof {
                    assert(candidates@[target as int]@ == transform@);
                    assert(coefficient_failure(candidates@[target as int]@, target as nat, p));
                    assert(accepted_prefix(bv, views, p, limits.max_terms as nat, target as int));
                }
                return Err(error);
            },
            Ok(None) => {
                proof {
                    assert(candidates@[target as int]@ == transform@);
                }
                return Ok(target);
            },
            Ok(Some(reduced)) => reduced,
        };
        let ghost table = pivot_table(pivots);
        match reduced.pivot() {
            Some((pivot, _)) => {
                let previous = pivot_table_insert(&mut pivots, pivot, target);
                if previous.is_some() {
                    proof {
                        lemma_clash(bv, views, p, target as int, table, reduced@);
                    }
                    return Ok(target);
                }
            },
            None => {},
        }
        proof {
            lemma_accept_next(bv, views, p, limits.max_terms as nat, target as int, table, reduced@);
            assert(pivot_table(pivots) == if reduced@.len() > 0 {
                table.insert(reduced@.last().0, target)
            } else {
                table
            });
        }
        match total_terms.checked_add(transform.terms.len()) {
            None => {
                proof {
                    assert(terms_total(views.take(target as int + 1)) > limits.max_terms);
                    assert(step_accepted(bv, views, p, target as int));
                    assert(candidates@[target as int]@ == views[target as int]);
                    reveal(step_accepted);
                    assert(valid_change_column(candidates@[target as int]@, target as nat, p));
                }
                return Err(CertificateError::new(literal("change-of-basis term count overflows usize")));
            },
            Some(next) => {
                total_terms = next;
            },
        }
        if total_terms > limits.max_terms {
            proof {
                assert(candidates@[target as int]@ == views[target as int]);
                reveal(step_accepted);
                assert(valid_change_column(candidates@[target as int]@, target as nat, p));
                assert(terms_total(views.take(target as int + 1)) > limits.max_terms);
            }
            return Err(
                CertificateError::new(
                    with_numbers(
                        "",
                        total_terms,
                        " change-of-basis terms exceed the limit ",
                        limits.max_terms,
                        "",
                    ),
                ),
            );
        }
        target += 1;
    }
    Ok(candidates.len())
}


/// Pivot-table invariant of the prefix scan: the table maps each pivot of
/// the first `target` reduced columns to the column that has it.
#[verifier::opaque]
pub open spec fn owners_of(
    boundaries: Seq<Seq<(usize, u64)>>,
    columns: Seq<Seq<CertificateTerm>>,
    p: nat,
    target: int,
    table: Map<usize, usize>,
) -> bool {
    &&& forall|key: usize|
        #[trigger] table.contains_key(key) ==> table[key] < target && has_pivot(
            boundaries,
            columns[table[key] as int],
            p,
            key,
        )
    &&& forall|t: int, row: usize|
        0 <= t < target && #[trigger] has_pivot(boundaries, columns[t], p, row) ==> table.contains_key(
            row,
        ) && table[row] == t
}

/// A candidate whose pivot an earlier column owns breaks distinct pivots.
proof fn lemma_clash(
    boundaries: Seq<Seq<(usize, u64)>>,
    columns: Seq<Seq<CertificateTerm>>,
    p: nat,
    target: int,
    table: Map<usize, usize>,
    reduced: Seq<(usize, u64)>,
)
    requires
        0 <= target < columns.len(),
        owners_of(boundaries, columns, p, target, table),
        wf_column(reduced, p),
        forall|row: usize| #[trigger] lookup(reduced, row) == reduced_entry(boundaries, columns[target], p, row),
        reduced.len() > 0,
        table.contains_key(reduced.last().0),
    ensures
        !distinct_pivots(boundaries, columns.take(target + 1), p),
{
    reveal(owners_of);
    let pivot = reduced.last().0;
    let t = table[pivot] as int;
    lemma_pivot_of_represented(reduced, p, boundaries, columns[target]);
    assert(has_pivot(boundaries, columns[t], p, pivot));
    assert(columns.take(target + 1)[t] == columns[t]);
    assert(columns.take(target + 1)[target] == columns[target]);
    assert(has_pivot(boundaries, columns.take(target + 1)[target], p, pivot));
}

/// The candidate at `target` is a valid change column whose reduced pivot
/// no earlier column shares.
#[verifier::opaque]
pub open spec fn step_accepted(
    boundaries: Seq<Seq<(usize, u64)>>,
    columns: Seq<Seq<CertificateTerm>>,
    p: nat,
    target: int,
) -> bool {
    &&& valid_change_column(columns[target], target as nat, p)
    &&& distinct_pivots(boundaries, columns.take(target + 1), p)
}

/// Accepting a valid candidate whose pivot is free extends the pivot
/// table, and the prefix when the budget allows.
proof fn lemma_accept_next(
    boundaries: Seq<Seq<(usize, u64)>>,
    columns: Seq<Seq<CertificateTerm>>,
    p: nat,
    max_terms: nat,
    target: int,
    table: Map<usize, usize>,
    reduced: Seq<(usize, u64)>,
)
    requires
        0 <= target < columns.len(),
        target < usize::MAX,
        accepted_prefix(boundaries, columns, p, max_terms, target),
        valid_change_column(columns[target], target as nat, p),
        owners_of(boundaries, columns, p, target, table),
        wf_column(reduced, p),
        forall|row: usize| #[trigger] lookup(reduced, row) == reduced_entry(boundaries, columns[target], p, row),
        reduced.len() > 0 ==> !table.contains_key(reduced.last().0),
    ensures
        step_accepted(boundaries, columns, p, target),
        terms_total(columns.take(target + 1)) <= max_terms ==> accepted_prefix(
            boundaries,
            columns,
            p,
            max_terms,
            target + 1,
        ),
        owners_of(
            boundaries,
            columns,
            p,
            target + 1,
            if reduced.len() > 0 {
                table.insert(reduced.last().0, target as usize)
            } else {
                table
            },
        ),
{
    reveal(owners_of);
    reveal(accepted_prefix);
    reveal(step_accepted);
    lemma_pivot_of_represented(reduced, p, boundaries, columns[target]);
    let next = columns.take(target + 1);
    assert forall|first: int, second: int, row: usize|
        0 <= first < second < next.len() implies !(#[trigger] has_pivot(
        boundaries,
        next[first],
        p,
        row,
    ) && #[trigger] has_pivot(boundaries, next[second], p, row)) by {
        assert(next[first] == columns[first]);
        assert(columns.take(target)[first] == columns[first]);
        if second < target {
            assert(next[second] == columns[second]);
            assert(columns.take(target)[second] == columns[second]);
        } else {
            assert(next[second] == columns[target]);
        }
    }
    assert forall|j: int| 0 <= j < next.len() implies valid_change_column(
        #[trigger] next[j],
        j as nat,
        p,
    ) by {
        if j < target {
            assert(columns.take(target)[j] == columns[j]);
        }
    }
}

} // verus!
