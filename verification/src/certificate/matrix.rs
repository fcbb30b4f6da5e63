//! Checks of change-of-basis columns and of the reduced matrix `R = D V`.

use vstd::prelude::*;

use crate::text::{literal, with_number, with_numbers};

use super::algebra::{
    change_views, column_views, lemma_combination_below, lemma_combination_push, reduced_entry,
    term_pairs,
};
use super::model::{CertificateError, CertificateLimits, CertificateTerm, ChangeColumn};
use super::pivots::{new_pivot_table, pivot_table, pivot_table_insert, PivotTable};
use super::sparse::{
    SparseColumn, lemma_lookup_absent, lemma_lookup_push, lemma_pivot_is_last_nonzero, lookup,
    spec_pivot, wf_column,
};

verus! {

/// One term may follow `previous` in change column `column_index`: it does
/// not point forward, it follows the previous position strictly, and its
/// coefficient is a nonzero residue.
pub open spec fn valid_change_term(
    term: CertificateTerm,
    column_index: nat,
    previous: Option<usize>,
    modulus: nat,
) -> bool {
    &&& term.index <= column_index
    &&& previous matches Some(before) ==> before < term.index
    &&& 0 < term.coefficient < modulus
}

/// A filtration-compatible, unit upper-triangular change column: nonempty,
/// strictly ascending positions no later than its own, nonzero residues,
/// and a last term `(column_index, 1)`.
pub open spec fn valid_change_column(
    terms: Seq<CertificateTerm>,
    column_index: nat,
    modulus: nat,
) -> bool {
    &&& terms.len() > 0
    &&& forall|i: int|
        0 <= i < terms.len() ==> (#[trigger] terms[i]).index <= column_index && 0
            < terms[i].coefficient < modulus
    &&& forall|i: int, k: int| 0 <= i < k < terms.len() ==> terms[i].index < terms[k].index
    &&& terms.last().index == column_index
    &&& terms.last().coefficient == 1
}

/// Every column of `columns` is a valid change column at its position.
pub open spec fn valid_change_columns(columns: Seq<Seq<CertificateTerm>>, modulus: nat) -> bool {
    forall|j: int| 0 <= j < columns.len() ==> valid_change_column(#[trigger] columns[j], j as nat, modulus)
}

/// Total term count of a list of change columns.
pub open spec fn terms_total(columns: Seq<Seq<CertificateTerm>>) -> nat
    decreases columns.len(),
{
    if columns.len() == 0 {
        0
    } else {
        terms_total(columns.drop_last()) + columns.last().len()
    }
}

/// `row` is the pivot of the reduced column formed by `terms`: its entry is
/// nonzero and every later row is zero.
pub open spec fn has_pivot(
    boundaries: Seq<Seq<(usize, u64)>>,
    terms: Seq<CertificateTerm>,
    p: nat,
    row: usize,
) -> bool {
    &&& reduced_entry(boundaries, terms, p, row) != 0
    &&& forall|later: usize| later > row ==> #[trigger] reduced_entry(boundaries, terms, p, later) == 0
}

/// No two reduced columns share a pivot.
pub open spec fn distinct_pivots(
    boundaries: Seq<Seq<(usize, u64)>>,
    columns: Seq<Seq<CertificateTerm>>,
    p: nat,
) -> bool {
    forall|first: int, second: int, row: usize|
        0 <= first < second < columns.len() ==> !(#[trigger] has_pivot(
            boundaries,
            columns[first],
            p,
            row,
        ) && #[trigger] has_pivot(boundaries, columns[second], p, row))
}

/// The change columns certify a reduction of `boundaries`: one valid
/// column per boundary column, at most `max_terms` terms in all, and
/// distinct reduced pivots.
pub open spec fn valid_reduction(
    boundaries: Seq<Seq<(usize, u64)>>,
    columns: Seq<Seq<CertificateTerm>>,
    p: nat,
    max_terms: nat,
) -> bool {
    &&& columns.len() == boundaries.len()
    &&& terms_total(columns) <= max_terms
    &&& valid_change_columns(columns, p)
    &&& distinct_pivots(boundaries, columns, p)
}

/// Every boundary column is canonical over the field of `p` elements.
pub open spec fn wf_columns(columns: Seq<Seq<(usize, u64)>>, p: nat) -> bool {
    forall|i: int| 0 <= i < columns.len() ==> wf_column(#[trigger] columns[i], p)
}

pub proof fn lemma_terms_total_prefix(columns: Seq<Seq<CertificateTerm>>, j: int)
    requires
        0 <= j < columns.len(),
    ensures
        terms_total(columns.take(j + 1)) == terms_total(columns.take(j)) + columns[j].len(),
{
    assert(columns.take(j + 1).drop_last() =~= columns.take(j));
}

pub proof fn lemma_terms_total_monotone(columns: Seq<Seq<CertificateTerm>>, j: int)
    requires
        0 <= j <= columns.len(),
    ensures
        terms_total(columns.take(j)) <= terms_total(columns),
    decreases columns.len() - j,
{
    if j < columns.len() {
        lemma_terms_total_prefix(columns, j);
        lemma_terms_total_monotone(columns, j + 1);
    } else {
        assert(columns.take(j) =~= columns);
    }
}

/// `0 + 1 + ... + n`: the most terms that `n` unit triangular change
/// columns can hold.
pub open spec fn triangular(n: nat) -> nat
    decreases n,
{
    if n == 0 {
        0
    } else {
        triangular((n - 1) as nat) + n
    }
}

/// `triangular` grows with its argument.
pub proof fn lemma_triangular_monotone(m: nat, n: nat)
    requires
        m <= n,
    ensures
        triangular(m) <= triangular(n),
    decreases n,
{
    if m < n {
        lemma_triangular_monotone(m, (n - 1) as nat);
    }
}

/// A change column at `column_index` holds at most `column_index + 1`
/// terms: its positions strictly ascend to `column_index`.
pub proof fn lemma_change_column_len(terms: Seq<CertificateTerm>, column_index: nat, modulus: nat)
    requires
        valid_change_column(terms, column_index, modulus),
    ensures
        terms.len() <= column_index + 1,
{
    assert forall|i: int| 0 <= i < terms.len() implies (#[trigger] terms[i]).index >= i by {
        lemma_index_at_least(terms, i);
    }
    assert(terms[terms.len() - 1] == terms.last());
}

proof fn lemma_index_at_least(terms: Seq<CertificateTerm>, i: int)
    requires
        0 <= i < terms.len(),
        forall|a: int, k: int| 0 <= a < k < terms.len() ==> terms[a].index < terms[k].index,
    ensures
        terms[i].index >= i,
    decreases i,
{
    if i > 0 {
        lemma_index_at_least(terms, i - 1);
    }
}

/// Valid change columns hold at most `triangular(columns.len())` terms.
pub proof fn lemma_terms_total_bound(columns: Seq<Seq<CertificateTerm>>, modulus: nat)
    requires
        valid_change_columns(columns, modulus),
    ensures
        terms_total(columns) <= triangular(columns.len()),
    decreases columns.len(),
{
    if columns.len() > 0 {
        let rest = columns.drop_last();
        assert forall|j: int| 0 <= j < rest.len() implies valid_change_column(#[trigger] rest[j], j as nat, modulus) by {
            assert(rest[j] == columns[j]);
        }
        lemma_terms_total_bound(rest, modulus);
        assert(valid_change_column(columns[columns.len() - 1], (columns.len() - 1) as nat, modulus));
        lemma_change_column_len(columns[columns.len() - 1], (columns.len() - 1) as nat, modulus);
    }
}

/// A canonical column pins the pivot of every function it represents.
pub proof fn lemma_pivot_of_represented(
    column: Seq<(usize, u64)>,
    p: nat,
    boundaries: Seq<Seq<(usize, u64)>>,
    terms: Seq<CertificateTerm>,
)
    requires
        wf_column(column, p),
        forall|row: usize| #[trigger] lookup(column, row) == reduced_entry(boundaries, terms, p, row),
    ensures
        column.len() > 0 ==> has_pivot(boundaries, terms, p, column.last().0),
        forall|row: usize|
            #[trigger] has_pivot(boundaries, terms, p, row) ==> column.len() > 0 && row
                == column.last().0,
{
    if column.len() > 0 {
        lemma_pivot_is_last_nonzero(column, p);
        assert forall|later: usize| later > column.last().0 implies #[trigger] reduced_entry(
            boundaries,
            terms,
            p,
            later,
        ) == 0 by {
            assert(lookup(column, later) == 0);
        }
    }
    assert forall|row: usize| #[trigger] has_pivot(boundaries, terms, p, row) implies column.len()
        > 0 && row == column.last().0 by {
        assert(lookup(column, row) != 0);
        if column.len() == 0 {
            assert(lookup(column, row) == 0);
        } else {
            let last = column.last().0;
            if row < last {
                assert(lookup(column, last) != 0);
                assert(reduced_entry(boundaries, terms, p, last) == 0);
            } else if row > last {
                assert(lookup(column, row) == 0);
            }
        }
    }
}

/// Check one change-column term.
pub fn check_change_term(
    label: &str,
    column_index: usize,
    term_index: usize,
    term: &CertificateTerm,
    previous: Option<usize>,
    modulus: u32,
) -> (result: Result<(), CertificateError>)
    ensures
        result is Ok <==> valid_change_term(*term, column_index as nat, previous, modulus as nat),
{
    if term.index > column_index {
        let mut message = String::from_str(label);
        message.append(with_numbers(" change column ", column_index, " term ", term_index, " points forward").as_str());
        return Err(CertificateError::new(message));
    }
    match previous {
        Some(before) => {
            if before >= term.index {
                let mut message = String::from_str(label);
                message.append(with_number(" change column ", column_index, " terms are not strictly ordered").as_str());
                return Err(CertificateError::new(message));
            }
        },
        None => {},
    }
    if term.coefficient == 0 || term.coefficient >= modulus {
        let mut message = String::from_str(label);
        message.append(with_numbers(" change column ", column_index, " has invalid coefficient ", term.coefficient as usize, "").as_str());
        return Err(CertificateError::new(message));
    }
    Ok(())
}

/// Check that one change column is filtration-compatible and unit upper
/// triangular at its own position.
pub fn check_change_column(
    label: &str,
    column_index: usize,
    column: &ChangeColumn,
    modulus: u32,
) -> (result: Result<(), CertificateError>)
    ensures
        result is Ok <==> valid_change_column(column@, column_index as nat, modulus as nat),
{
    if column.terms.len() == 0 {
        let mut message = String::from_str(label);
        message.append(with_number(" change column ", column_index, " is empty").as_str());
        return Err(CertificateError::new(message));
    }
    let mut previous: Option<usize> = None;
    let mut term_index: usize = 0;
    while term_index < column.terms.len()
        invariant
            term_index <= column@.len(),
            column@.len() > 0,
            term_index == 0 <==> previous is None,
            previous matches Some(before) ==> term_index > 0 && before == column@[term_index
                - 1].index,
            forall|i: int|
                0 <= i < term_index ==> (#[trigger] column@[i]).index <= column_index && 0
                    < column@[i].coefficient < modulus,
            forall|i: int, k: int|
                0 <= i < k < term_index ==> column@[i].index < column@[k].index,
        decreases column@.len() - term_index,
    {
        let term = &column.terms[term_index];
        let checked = check_change_term(label, column_index, term_index, term, previous, modulus);
        if checked.is_err() {
            return checked;
        }
        previous = Some(term.index);
        term_index += 1;
    }
    let last = &column.terms[column.terms.len() - 1];
    if last.index != column_index || last.coefficient != 1 {
        let mut message = String::from_str(label);
        message.append(with_number(" change column ", column_index, " is not unit triangular").as_str());
        return Err(CertificateError::new(message));
    }
    Ok(())
}

/// Add `count` terms to a running total bounded by `maximum`.
pub fn add_term_count(total: &mut usize, count: usize, maximum: usize) -> (result: Result<
    (),
    CertificateError,
>)
    ensures
        result is Ok <==> *old(total) + count <= maximum,
        *old(total) + count <= usize::MAX ==> *final(total) == *old(total) + count,
        *old(total) + count > usize::MAX ==> *final(total) == *old(total),
{
    match total.checked_add(count) {
        None => {
            return Err(CertificateError::new(literal("certificate term count overflows usize")));
        },
        Some(next) => {
            *total = next;
        },
    }
    if *total > maximum {
        return Err(CertificateError::new(with_numbers("", *total, " terms exceed the limit ", maximum, "")));
    }
    Ok(())
}

/// Add `count` terms of the `label` matrix to a running total bounded by
/// `maximum`.
pub fn add_matrix_terms(total: &mut usize, count: usize, maximum: usize, label: &str) -> (result:
    Result<(), CertificateError>)
    ensures
        result is Ok <==> *old(total) + count <= maximum,
        *old(total) + count <= usize::MAX ==> *final(total) == *old(total) + count,
        *old(total) + count > usize::MAX ==> *final(total) == *old(total),
{
    match total.checked_add(count) {
        None => {
            return Err(CertificateError::new(literal("certificate term count overflows usize")));
        },
        Some(next) => {
            *total = next;
        },
    }
    if *total > maximum {
        let mut message = with_number("", *total, " ");
        message.append(label);
        message.append(with_number(" terms exceed the limit ", maximum, "").as_str());
        return Err(CertificateError::new(message));
    }
    Ok(())
}

/// Check every change column of one matrix and count their terms into
/// `total_terms`.
pub fn check_change_columns(
    label: &str,
    columns: &[ChangeColumn],
    modulus: u32,
    max_terms: usize,
    total_terms: &mut usize,
) -> (result: Result<(), CertificateError>)
    ensures
        result is Ok <==> (columns.len() == 0 || *old(total_terms) + terms_total(
            change_views(columns@),
        ) <= max_terms) && valid_change_columns(change_views(columns@), modulus as nat),
        result is Ok ==> *final(total_terms) == *old(total_terms) + terms_total(
            change_views(columns@),
        ),
{
    let ghost views = change_views(columns@);
    let ghost start = *total_terms;
    let mut column_index: usize = 0;
    proof {
        assert(views.take(0) =~= Seq::<Seq<CertificateTerm>>::empty());
    }
    while column_index < columns.len()
        invariant
            views == change_views(columns@),
            start == *old(total_terms),
            column_index <= columns.len(),
            *total_terms == start + terms_total(views.take(column_index as int)),
            column_index > 0 ==> *total_terms <= max_terms,
            forall|j: int| 0 <= j < column_index ==> valid_change_column(#[trigger] views[j], j as nat, modulus as nat),
        decreases columns.len() - column_index,
    {
        let column = &columns[column_index];
        proof {
            assert(views[column_index as int] == column@);
            lemma_terms_total_prefix(views, column_index as int);
            lemma_terms_total_monotone(views, column_index as int + 1);
        }
        let counted = add_term_count(total_terms, column.terms.len(), max_terms);
        if counted.is_err() {
            assert(start + terms_total(views) > max_terms);
            return counted;
        }
        let checked = check_change_column(label, column_index, column, modulus);
        if checked.is_err() {
            return checked;
        }
        column_index += 1;
    }
    proof {
        assert(views.take(columns.len() as int) =~= views);
        assert(views.len() == columns.len());
    }
    Ok(())
}

/// Form `D V_j` for one change column after checking it.
pub fn checked_matrix_column(
    label: &str,
    column_index: usize,
    transform: &ChangeColumn,
    boundaries: &[SparseColumn],
    modulus: u32,
    modulus64: u64,
) -> (result: Result<SparseColumn, CertificateError>)
    requires
        modulus64 == modulus as u64,
        2 <= modulus,
        column_index < boundaries.len(),
        wf_columns(column_views(boundaries@), modulus as nat),
    ensures
        result is Ok <==> valid_change_column(transform@, column_index as nat, modulus as nat),
        result matches Ok(reduced) ==> wf_column(reduced@, modulus as nat) && forall|row: usize|
            #[trigger] lookup(reduced@, row) == reduced_entry(
                column_views(boundaries@),
                transform@,
                modulus as nat,
                row,
            ),
{
    let checked = check_change_column(label, column_index, transform, modulus);
    if checked.is_err() {
        return Err(checked.unwrap_err());
    }
    let ghost bviews = column_views(boundaries@);
    let ghost terms = transform@;
    let ghost p = modulus as nat;
    let mut result = SparseColumn::new();
    let mut k: usize = 0;
    proof {
        assert(term_pairs(terms.take(0)) =~= Seq::<(usize, u64)>::empty());
        assert forall|row: usize| #[trigger] lookup(result@, row) == super::algebra::combination(
            bviews,
            term_pairs(terms.take(0)),
            bviews.len(),
            p,
            row,
        ) by {
            assert forall|i: usize| i < bviews.len() implies #[trigger] lookup(
                term_pairs(terms.take(0)),
                i,
            ) == 0 by {
            }
            super::algebra::lemma_combination_zero(
                bviews,
                term_pairs(terms.take(0)),
                bviews.len(),
                p,
                row,
            );
        }
    }
    while k < transform.terms.len()
        invariant
            bviews == column_views(boundaries@),
            terms == transform@,
            p == modulus as nat,
            modulus64 == modulus as u64,
            2 <= modulus,
            column_index < boundaries.len(),
            wf_columns(bviews, p),
            valid_change_column(terms, column_index as nat, p),
            k <= terms.len(),
            wf_column(result@, p),
            forall|row: usize| #[trigger] lookup(result@, row) == super::algebra::combination(
                bviews,
                term_pairs(terms.take(k as int)),
                bviews.len(),
                p,
                row,
            ),
        decreases terms.len() - k,
    {
        let term = transform.terms[k];
        proof {
            assert(term == terms[k as int]);
            assert(term_pairs(terms.take(k as int + 1)) =~= term_pairs(terms.take(k as int)).push(
                (term.index, term.coefficient as u64),
            ));
            assert forall|t: int| 0 <= t < term_pairs(terms.take(k as int)).len() implies #[trigger] term_pairs(
                terms.take(k as int),
            )[t].0 < term.index by {
                assert(term_pairs(terms.take(k as int))[t].0 == terms[t].index);
            }
            assert(term.index <= column_index);
            assert(bviews[term.index as int] == boundaries@[term.index as int]@);
            assert(wf_column(bviews[term.index as int], p));
        }
        let ghost before = result@;
        result.add_scaled(&boundaries[term.index], term.coefficient as u64, modulus64);
        proof {
            assert forall|row: usize| #[trigger] lookup(result@, row) == super::algebra::combination(
                bviews,
                term_pairs(terms.take(k as int + 1)),
                bviews.len(),
                p,
                row,
            ) by {
                lemma_combination_push(
                    bviews,
                    term_pairs(terms.take(k as int)),
                    term.index,
                    term.coefficient as u64,
                    bviews.len(),
                    p,
                    row,
                );
            }
        }
        k += 1;
    }
    proof {
        assert(terms.take(terms.len() as int) =~= terms);
    }
    Ok(result)
}

/// Rebuild every reduced column `D V_j` and check the reduction: equal
/// column counts, the term budget, valid change columns, and distinct
/// pivots.
pub fn check_matrix(
    label: &str,
    boundaries: &[SparseColumn],
    columns: &[ChangeColumn],
    modulus: u32,
    limits: CertificateLimits,
) -> (result: Result<Vec<SparseColumn>, CertificateError>)
    requires
        2 <= modulus,
        wf_columns(column_views(boundaries@), modulus as nat),
    ensures
        result is Ok <==> valid_reduction(
            column_views(boundaries@),
            change_views(columns@),
            modulus as nat,
            limits.max_terms as nat,
        ),
        result matches Ok(reduced) ==> reduced.len() == columns.len() && forall|j: int|
            0 <= j < reduced.len() ==> wf_column(#[trigger] reduced[j]@, modulus as nat)
                && forall|row: usize|
                #[trigger] lookup(reduced[j]@, row) == reduced_entry(
                    column_views(boundaries@),
                    change_views(columns@)[j],
                    modulus as nat,
                    row,
                ),
{
    let ghost bviews = column_views(boundaries@);
    let ghost views = change_views(columns@);
    let ghost p = modulus as nat;
    if columns.len() != boundaries.len() {
        let mut message = String::from_str(label);
        message.append(with_numbers(" matrix has ", boundaries.len(), " columns, certificate records ", columns.len(), "").as_str());
        return Err(CertificateError::new(message));
    }
    let modulus64 = modulus as u64;
    let mut total_terms: usize = 0;
    let mut reduced: Vec<SparseColumn> = Vec::new();
    let mut pivots = new_pivot_table();
    let mut column_index: usize = 0;
    proof {
        assert(views.take(0) =~= Seq::<Seq<CertificateTerm>>::empty());
    }
    while column_index < columns.len()
        invariant
            bviews == column_views(boundaries@),
            views == change_views(columns@),
            p == modulus as nat,
            modulus64 == modulus as u64,
            2 <= modulus,
            columns.len() == boundaries.len(),
            wf_columns(bviews, p),
            column_index <= columns.len(),
            reduced.len() == column_index,
            total_terms == terms_total(views.take(column_index as int)),
            total_terms <= limits.max_terms,
            forall|t: int| 0 <= t < column_index ==> valid_change_column(#[trigger] views[t], t as nat, p),
            forall|t: int|
                0 <= t < column_index ==> wf_column(#[trigger] reduced[t]@, p) && forall|row: usize|
                    #[trigger] lookup(reduced[t]@, row) == reduced_entry(bviews, views[t], p, row),
            forall|key: usize|
                #[trigger] pivot_table(pivots).contains_key(key) ==> pivot_table(pivots)[key]
                    < column_index && reduced[pivot_table(pivots)[key] as int]@.len() > 0
                    && reduced[pivot_table(pivots)[key] as int]@.last().0 == key,
            forall|t: int|
                0 <= t < column_index && (#[trigger] reduced[t]@).len() > 0 ==> pivot_table(
                    pivots,
                ).contains_key(reduced[t]@.last().0) && pivot_table(pivots)[reduced[t]@.last().0]
                    == t,
            forall|first: int, second: int, row: usize|
                0 <= first < second < column_index ==> !(#[trigger] has_pivot(
                    bviews,
                    views[first],
                    p,
                    row,
                ) && #[trigger] has_pivot(bviews, views[second], p, row)),
        decreases columns.len() - column_index,
    {
        let transform = &columns[column_index];
        proof {
            assert(views[column_index as int] == transform@);
            lemma_terms_total_prefix(views, column_index as int);
            lemma_terms_total_monotone(views, column_index as int + 1);
        }
        let counted = add_matrix_terms(&mut total_terms, transform.terms.len(), limits.max_terms, label);
        if counted.is_err() {
            return Err(counted.unwrap_err());
        }
        let checked = checked_matrix_column(
            label,
            column_index,
            transform,
            boundaries,
            modulus,
            modulus64,
        );
        let column = match checked {
            Err(error) => {
                return Err(error);
            },
            Ok(column) => column,
        };
        proof {
            lemma_pivot_of_represented(column@, p, bviews, views[column_index as int]);
        }
        match column.pivot() {
            Some((pivot, _)) => {
                let previous = pivot_table_insert(&mut pivots, pivot, column_index);
                match previous {
                    Some(previous_column) => {
                        proof {
                            let t = previous_column as int;
                            lemma_pivot_of_represented(reduced[t]@, p, bviews, views[t]);
                            assert(has_pivot(bviews, views[t], p, pivot));
                            assert(has_pivot(bviews, views[column_index as int], p, pivot));
                            assert(!distinct_pivots(bviews, views, p));
                        }
                        let mut message = String::from_str(label);
                        message.append(with_numbers(" reduced columns ", previous_column, " and ", column_index, "").as_str());
                        message.append(with_number(" share pivot ", pivot, "").as_str());
                        return Err(CertificateError::new(message));
                    },
                    None => {},
                }
                proof {
                    assert forall|t: int, row: usize|
                        0 <= t < column_index && #[trigger] has_pivot(bviews, views[t], p, row)
                            implies !has_pivot(bviews, views[column_index as int], p, row) by {
                        lemma_pivot_of_represented(reduced[t]@, p, bviews, views[t]);
                    }
                }
            },
            None => {
                proof {
                    assert forall|t: int, row: usize|
                        0 <= t < column_index && #[trigger] has_pivot(bviews, views[t], p, row)
                            implies !has_pivot(bviews, views[column_index as int], p, row) by {
                    }
                }
            },
        }
        reduced.push(column);
        column_index += 1;
        proof {
            assert forall|first: int, second: int, row: usize|
                0 <= first < second < column_index implies !(#[trigger] has_pivot(
                bviews,
                views[first],
                p,
                row,
            ) && #[trigger] has_pivot(bviews, views[second], p, row)) by {
                if second == column_index - 1 {
                    if has_pivot(bviews, views[first], p, row) {
                        assert(!has_pivot(bviews, views[second], p, row));
                    }
                }
            }
        }
    }
    proof {
        assert(views.take(columns.len() as int) =~= views);
        assert(views.len() == columns.len());
    }
    Ok(reduced)
}

} // verus!
