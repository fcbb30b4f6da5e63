//! Carrying change-of-basis columns across a change of filtration order:
//! each simplex keeps its identity, and every source and target position
//! is remapped through it.
//!
//! A simplex is identified by a key: its vertex tuple, `(u, v)` for an edge
//! and `(u, v, w)` for a triangle.

use std::collections::BTreeMap;
use vstd::laws_cmp::obeys_cmp;
use vstd::prelude::*;

use crate::text::literal;

use crate::field::spec_is_prime;

use super::algebra::{change_views, column_views};
use super::matrix::{
    distinct_pivots, lemma_terms_total_bound, lemma_triangular_monotone, terms_total, triangular,
    valid_change_column, valid_reduction, wf_columns,
};
use super::model::{CertificateError, CertificateLimits, CertificateTerm, ChangeColumn};
use super::reduction::{accepted_prefix, coefficient_failure, reduce_with_prefix, valid_reduction_prefix_len};
use super::sparse::SparseColumn;

verus! {

broadcast use vstd::std_specs::btree::group_btree_axioms;

/// The key type's comparison is a total order that agrees with equality,
/// so a `BTreeMap` keyed by it behaves as a map.
pub open spec fn ordered_keys<K: Ord>() -> bool {
    obeys_cmp::<K>()
}

/// Pairs of labels compare as a total order that agrees with equality.
pub proof fn lemma_ordered_pairs()
    ensures
        ordered_keys::<(usize, usize)>(),
{
    broadcast use vstd::laws_cmp::group_laws_cmp;

}

/// Triples of labels compare as a total order that agrees with equality.
pub proof fn lemma_ordered_triples()
    ensures
        ordered_keys::<(usize, usize, usize)>(),
{
    broadcast use vstd::laws_cmp::group_laws_cmp;

}

/// Where each simplex stands in `simplices`, the last occurrence winning.
pub open spec fn position_map<K>(simplices: Seq<K>) -> Map<K, usize>
    decreases simplices.len(),
{
    if simplices.len() == 0 {
        Map::empty()
    } else {
        position_map(simplices.drop_last()).insert(simplices.last(), (simplices.len() - 1) as usize)
    }
}

/// No simplex occurs twice.
pub open spec fn distinct_simplices<K>(simplices: Seq<K>) -> bool {
    forall|i: int, j: int| 0 <= i < j < simplices.len() ==> simplices[i] != simplices[j]
}

pub proof fn lemma_position_domain<K>(simplices: Seq<K>, key: K)
    ensures
        position_map(simplices).contains_key(key) <==> simplices.contains(key),
    decreases simplices.len(),
{
    if simplices.len() > 0 {
        let rest = simplices.drop_last();
        let last_index = simplices.len() - 1;
        lemma_position_domain(rest, key);
        assert(simplices[last_index] == simplices.last());
        if rest.contains(key) {
            let i = choose|i: int| 0 <= i < rest.len() && rest[i] == key;
            assert(simplices[i] == rest[i]);
            assert(simplices.contains(key));
        }
        if simplices.contains(key) {
            let i = choose|i: int| 0 <= i < simplices.len() && simplices[i] == key;
            if i < last_index {
                assert(rest[i] == simplices[i]);
                assert(rest.contains(key));
            }
        }
    }
}

pub proof fn lemma_position_map<K>(simplices: Seq<K>, i: int)
    requires
        distinct_simplices(simplices),
        0 <= i < simplices.len() <= usize::MAX,
    ensures
        position_map(simplices).contains_key(simplices[i]),
        position_map(simplices)[simplices[i]] == i,
    decreases simplices.len(),
{
    let rest = simplices.drop_last();
    let last_index = simplices.len() - 1;
    assert(simplices[last_index] == simplices.last());
    if i < last_index {
        assert(rest[i] == simplices[i]);
        assert(simplices[i] != simplices[last_index]);
        lemma_position_map(rest, i);
    }
}

/// Every recorded position lies inside the list and holds its simplex.
pub proof fn lemma_position_bound<K>(simplices: Seq<K>, key: K)
    requires
        position_map(simplices).contains_key(key),
        simplices.len() <= usize::MAX,
    ensures
        position_map(simplices)[key] < simplices.len(),
        simplices[position_map(simplices)[key] as int] == key,
    decreases simplices.len(),
{
    let rest = simplices.drop_last();
    if key != simplices.last() {
        lemma_position_bound(rest, key);
        assert(simplices[position_map(rest)[key] as int] == rest[position_map(rest)[key] as int]);
    } else {
        assert(simplices[simplices.len() - 1] == simplices.last());
    }
}

/// The position of each simplex, and whether no simplex occurs twice.
pub fn simplex_positions<K: Ord + Copy>(simplices: &[K]) -> (result: (BTreeMap<K, usize>, bool))
    requires
        ordered_keys::<K>(),
    ensures
        result.0@ == position_map(simplices@),
        result.1 == distinct_simplices(simplices@),
{
    let mut positions: BTreeMap<K, usize> = BTreeMap::new();
    let mut distinct = true;
    let mut index: usize = 0;
    while index < simplices.len()
        invariant
            ordered_keys::<K>(),
            index <= simplices@.len(),
            positions@ == position_map(simplices@.take(index as int)),
            distinct == distinct_simplices(simplices@.take(index as int)),
        decreases simplices@.len() - index,
    {
        let simplex = simplices[index];
        let ghost prefix = simplices@.take(index as int);
        let ghost next = simplices@.take(index + 1);
        proof {
            assert(next.drop_last() =~= prefix);
            assert(next.last() == simplex);
            lemma_position_domain(prefix, simplex);
        }
        let previous = positions.insert(simplex, index);
        if previous.is_some() {
            proof {
                let i = choose|i: int| 0 <= i < prefix.len() && prefix[i] == simplex;
                assert(next[i] == prefix[i]);
                assert(next[index as int] == simplex);
            }
            distinct = false;
        } else {
            proof {
                if distinct {
                    assert forall|i: int, j: int| 0 <= i < j < next.len() implies next[i] != next[j] by {
                        if j == index {
                            assert(prefix[i] == next[i]);
                            assert(!prefix.contains(simplex));
                        } else {
                            assert(prefix[i] == next[i] && prefix[j] == next[j]);
                        }
                    }
                } else {
                    let (i, j) = choose|i: int, j: int| 0 <= i < j < prefix.len() && prefix[i] == prefix[j];
                    assert(next[i] == next[j]);
                }
            }
        }
        index += 1;
    }
    proof {
        assert(simplices@.take(simplices@.len() as int) =~= simplices@);
    }
    (positions, distinct)
}

/// Terms in strictly increasing source position.
pub open spec fn strictly_ascending(terms: Seq<CertificateTerm>) -> bool {
    forall|i: int, j: int| 0 <= i < j < terms.len() ==> terms[i].index < terms[j].index
}

/// No two terms share a source position.
pub open spec fn distinct_indices(terms: Seq<CertificateTerm>) -> bool {
    forall|i: int, j: int| 0 <= i < j < terms.len() ==> terms[i].index != terms[j].index
}

/// `sorted` holds the terms of `terms`, one for one, in ascending position.
pub open spec fn sorted_copy(sorted: Seq<CertificateTerm>, terms: Seq<CertificateTerm>) -> bool {
    &&& sorted.len() == terms.len()
    &&& strictly_ascending(sorted)
    &&& forall|term: CertificateTerm| sorted.contains(term) <==> terms.contains(term)
}

/// The terms in ascending source position, or `None` when two share a
/// position. Each term is inserted in place into the sorted list.
pub fn sort_by_index(terms: Vec<CertificateTerm>) -> (result: Option<Vec<CertificateTerm>>)
    ensures
        result is None <==> !distinct_indices(terms@),
        result matches Some(sorted) ==> sorted_copy(sorted@, terms@),
{
    let mut sorted: Vec<CertificateTerm> = Vec::new();
    let mut i: usize = 0;
    while i < terms.len()
        invariant
            i <= terms@.len(),
            sorted@.len() == i,
            strictly_ascending(sorted@),
            distinct_indices(terms@.take(i as int)),
            forall|term: CertificateTerm| sorted@.contains(term) <==> terms@.take(i as int).contains(term),
        decreases terms@.len() - i,
    {
        let term = terms[i];
        let ghost prefix = terms@.take(i as int);
        let ghost next = terms@.take(i + 1);
        proof {
            assert(next =~= prefix.push(term));
        }
        let mut position: usize = 0;
        while position < sorted.len() && sorted[position].index < term.index
            invariant
                position <= sorted@.len(),
                forall|k: int| 0 <= k < position ==> sorted@[k].index < term.index,
            decreases sorted@.len() - position,
        {
            position += 1;
        }
        if position < sorted.len() && sorted[position].index == term.index {
            proof {
                let found = sorted@[position as int];
                assert(sorted@.contains(found));
                let j = choose|j: int| 0 <= j < prefix.len() && prefix[j] == found;
                assert(terms@[j] == prefix[j]);
                assert(terms@[i as int] == term);
            }
            return None;
        }
        let ghost before = sorted@;
        sorted.insert(position, term);
        proof {
            assert(sorted@ == before.insert(position as int, term));
            assert forall|a: int, b: int| 0 <= a < b < sorted@.len() implies sorted@[a].index < sorted@[b].index by {
                if b < position {
                } else if b == position {
                } else if a < position {
                    assert(sorted@[b] == before[b - 1]);
                    if position < before.len() {
                        assert(before[position as int].index > term.index);
                    }
                } else if a == position {
                    assert(sorted@[b] == before[b - 1]);
                    assert(before[position as int].index > term.index);
                    assert(before[position as int].index <= before[b - 1].index);
                } else {
                    assert(sorted@[a] == before[a - 1]);
                    assert(sorted@[b] == before[b - 1]);
                }
            }
            assert forall|a: int, b: int| 0 <= a < b < next.len() implies next[a].index != next[b].index by {
                if b == i {
                    assert(prefix.contains(next[a]));
                    assert(before.contains(next[a]));
                    let k = choose|k: int| 0 <= k < before.len() && before[k] == next[a];
                    if k < position {
                        assert(before[k].index < term.index);
                    } else {
                        assert(before[position as int].index > term.index);
                        assert(before[position as int].index <= before[k].index);
                    }
                } else {
                    assert(next[a] == prefix[a] && next[b] == prefix[b]);
                }
            }
            assert forall|x: CertificateTerm| sorted@.contains(x) <==> next.contains(x) by {
                if sorted@.contains(x) {
                    let k = choose|k: int| 0 <= k < sorted@.len() && sorted@[k] == x;
                    if k == position {
                        assert(next[i as int] == x);
                    } else {
                        let k0 = if k < position { k } else { k - 1 };
                        assert(before[k0] == x);
                        assert(before.contains(x));
                        let j = choose|j: int| 0 <= j < prefix.len() && prefix[j] == x;
                        assert(next[j] == x);
                    }
                }
                if next.contains(x) {
                    let j = choose|j: int| 0 <= j < next.len() && next[j] == x;
                    if j == i {
                        assert(sorted@[position as int] == x);
                    } else {
                        assert(prefix[j] == x);
                        assert(prefix.contains(x));
                        assert(before.contains(x));
                        let k = choose|k: int| 0 <= k < before.len() && before[k] == x;
                        if k < position {
                            assert(sorted@[k] == x);
                        } else {
                            assert(sorted@[k + 1] == x);
                        }
                    }
                }
            }
        }
        i += 1;
    }
    proof {
        assert(terms@.take(terms@.len() as int) =~= terms@);
    }
    Some(sorted)
}

/// `result` is an error whose text is `message`.
pub open spec fn refused_with<T>(result: Result<T, CertificateError>, message: Seq<char>) -> bool {
    match result {
        Ok(_) => false,
        Err(error) => error.spec_message() == message,
    }
}

/// A term of an old column carried to the new order: the new position of
/// its source simplex, with the same coefficient.
pub open spec fn carried_term<K>(
    old_simplices: Seq<K>,
    new_positions: Map<K, usize>,
    term: CertificateTerm,
) -> CertificateTerm {
    CertificateTerm {
        index: new_positions[old_simplices[term.index as int]],
        coefficient: term.coefficient,
    }
}

/// Every term carried to the new order.
pub open spec fn carried_terms<K>(
    old_simplices: Seq<K>,
    new_positions: Map<K, usize>,
    terms: Seq<CertificateTerm>,
) -> Seq<CertificateTerm> {
    Seq::new(terms.len(), |i: int| carried_term(old_simplices, new_positions, terms[i]))
}

/// The term's source position names an old simplex that has a new
/// position.
pub open spec fn carriable<K>(old_simplices: Seq<K>, new_positions: Map<K, usize>, term: CertificateTerm) -> bool {
    term.index < old_simplices.len() && new_positions.contains_key(old_simplices[term.index as int])
}

/// The first `count` terms are carriable and land at or before `target`.
pub open spec fn fits_until<K>(
    old_simplices: Seq<K>,
    new_positions: Map<K, usize>,
    terms: Seq<CertificateTerm>,
    target: usize,
    count: int,
) -> bool {
    forall|i: int|
        0 <= i < count ==> carriable(old_simplices, new_positions, #[trigger] terms[i]) && carried_term(
            old_simplices,
            new_positions,
            terms[i],
        ).index <= target
}

/// Carries every term of an old column to the new order, failing at the
/// first term whose source is not an old simplex with a new position, or
/// that lands after `new_target`.
fn carry_terms<K: Ord + Copy>(
    new_target: usize,
    old_simplices: &[K],
    new_positions: &BTreeMap<K, usize>,
    old_column: &ChangeColumn,
) -> (result: Result<Vec<CertificateTerm>, CertificateError>)
    requires
        ordered_keys::<K>(),
    ensures
        result is Ok <==> fits_until(old_simplices@, new_positions@, old_column@, new_target, old_column@.len() as int),
        result matches Ok(terms) ==> terms@ == carried_terms(old_simplices@, new_positions@, old_column@),
{
    let mut terms: Vec<CertificateTerm> = Vec::new();
    let mut i: usize = 0;
    while i < old_column.terms.len()
        invariant
            ordered_keys::<K>(),
            i <= old_column@.len(),
            terms@ == carried_terms(old_simplices@, new_positions@, old_column@.take(i as int)),
            fits_until(old_simplices@, new_positions@, old_column@, new_target, i as int),
        decreases old_column@.len() - i,
    {
        let term = old_column.terms[i];
        if term.index >= old_simplices.len() {
            return Err(CertificateError::new(literal("reduction reindexing found an invalid source position")));
        }
        let source = old_simplices[term.index];
        let index = match new_positions.get(&source) {
            Some(position) => *position,
            None => {
                return Err(CertificateError::new(literal("reduction reindexing found a changed simplex set")));
            },
        };
        if index > new_target {
            return Err(
                CertificateError::new(
                    literal("accepted reduction is not filtration-compatible after reindexing"),
                ),
            );
        }
        terms.push(CertificateTerm { index, coefficient: term.coefficient });
        proof {
            assert(carried_terms(old_simplices@, new_positions@, old_column@.take(i + 1)) =~= carried_terms(
                old_simplices@,
                new_positions@,
                old_column@.take(i as int),
            ).push(carried_term(old_simplices@, new_positions@, term)));
        }
        i += 1;
    }
    proof {
        assert(old_column@.take(old_column@.len() as int) =~= old_column@);
    }
    Ok(terms)
}

/// Carries an old change column to position `new_target` of the new
/// order: every source position moves with its simplex, and the terms are
/// sorted by their new positions.
pub fn reindex_column<K: Ord + Copy>(
    new_target: usize,
    old_simplices: &[K],
    new_positions: &BTreeMap<K, usize>,
    old_column: &ChangeColumn,
) -> (result: Result<ChangeColumn, CertificateError>)
    requires
        ordered_keys::<K>(),
    ensures
        result is Ok <==> fits_until(old_simplices@, new_positions@, old_column@, new_target, old_column@.len() as int)
            && distinct_indices(carried_terms(old_simplices@, new_positions@, old_column@)),
        result matches Ok(column) ==> sorted_copy(column@, carried_terms(old_simplices@, new_positions@, old_column@)),
{
    let terms = carry_terms(new_target, old_simplices, new_positions, old_column)?;
    match sort_by_index(terms) {
        Some(sorted) => Ok(ChangeColumn { terms: sorted }),
        None => Err(CertificateError::new(literal("reduction reindexing produced duplicate source positions"))),
    }
}

/// Some term lands after `target` while every term before it fits.
pub open spec fn stops_early<K>(
    old_simplices: Seq<K>,
    new_positions: Map<K, usize>,
    terms: Seq<CertificateTerm>,
    target: usize,
) -> bool {
    exists|k: int|
        0 <= k < terms.len() && fits_until(old_simplices, new_positions, terms, target, k) && carriable(
            old_simplices,
            new_positions,
            #[trigger] terms[k],
        ) && carried_term(old_simplices, new_positions, terms[k]).index > target
}

/// Some term names no old simplex while every term before it fits.
pub open spec fn bad_source<K>(
    old_simplices: Seq<K>,
    new_positions: Map<K, usize>,
    terms: Seq<CertificateTerm>,
    target: usize,
) -> bool {
    exists|k: int|
        0 <= k < terms.len() && fits_until(old_simplices, new_positions, terms, target, k) && (#[trigger] terms[k]).index
            >= old_simplices.len()
}

/// Carries an old change column toward position `new_target` of the new
/// order, as [`reindex_column`] does, but answers `None` as soon as a term
/// would land after `new_target`: the column cannot stay in the prefix.
pub fn reindexed_prefix_column<K: Ord + Copy>(
    new_target: usize,
    old_simplices: &[K],
    new_positions: &BTreeMap<K, usize>,
    old_column: &ChangeColumn,
) -> (result: Result<Option<ChangeColumn>, CertificateError>)
    requires
        ordered_keys::<K>(),
        forall|i: int| 0 <= i < old_simplices@.len() ==> new_positions@.contains_key(#[trigger] old_simplices@[i]),
    ensures
        result matches Ok(Some(column)) ==> fits_until(
            old_simplices@,
            new_positions@,
            old_column@,
            new_target,
            old_column@.len() as int,
        ) && distinct_indices(carried_terms(old_simplices@, new_positions@, old_column@)) && sorted_copy(
            column@,
            carried_terms(old_simplices@, new_positions@, old_column@),
        ),
        result matches Ok(None) ==> stops_early(old_simplices@, new_positions@, old_column@, new_target),
        result is Err ==> bad_source(old_simplices@, new_positions@, old_column@, new_target) || (fits_until(
            old_simplices@,
            new_positions@,
            old_column@,
            new_target,
            old_column@.len() as int,
        ) && !distinct_indices(carried_terms(old_simplices@, new_positions@, old_column@))),
{
    let mut terms: Vec<CertificateTerm> = Vec::new();
    let mut i: usize = 0;
    while i < old_column.terms.len()
        invariant
            ordered_keys::<K>(),
            forall|i: int| 0 <= i < old_simplices@.len() ==> new_positions@.contains_key(#[trigger] old_simplices@[i]),
            i <= old_column@.len(),
            terms@ == carried_terms(old_simplices@, new_positions@, old_column@.take(i as int)),
            fits_until(old_simplices@, new_positions@, old_column@, new_target, i as int),
        decreases old_column@.len() - i,
    {
        let term = old_column.terms[i];
        if term.index >= old_simplices.len() {
            proof {
                assert(old_column@[i as int] == term);
            }
            return Err(CertificateError::new(literal("reduction repair found an invalid source position")));
        }
        let source = old_simplices[term.index];
        proof {
            assert(new_positions@.contains_key(old_simplices@[term.index as int]));
        }
        let index = match new_positions.get(&source) {
            Some(position) => *position,
            None => 0,
        };
        if index > new_target {
            proof {
                assert(old_column@[i as int] == term);
            }
            return Ok(None);
        }
        terms.push(CertificateTerm { index, coefficient: term.coefficient });
        proof {
            assert(carried_terms(old_simplices@, new_positions@, old_column@.take(i + 1)) =~= carried_terms(
                old_simplices@,
                new_positions@,
                old_column@.take(i as int),
            ).push(carried_term(old_simplices@, new_positions@, term)));
        }
        i += 1;
    }
    proof {
        assert(old_column@.take(old_column@.len() as int) =~= old_column@);
    }
    match sort_by_index(terms) {
        Some(sorted) => Ok(Some(ChangeColumn { terms: sorted })),
        None => Err(CertificateError::new(literal("reduction repair produced duplicate source positions"))),
    }
}

/// As many new simplices as old ones, and one old column per old simplex.
pub open spec fn counts_agree<K>(old_simplices: Seq<K>, new_simplices: Seq<K>, old_columns: Seq<ChangeColumn>) -> bool {
    old_simplices.len() == new_simplices.len() && old_columns.len() == old_simplices.len()
}

/// Checks that the simplex counts and the column count agree.
fn check_simplex_counts<K>(
    old_simplices: &[K],
    new_simplices: &[K],
    old_columns: &[ChangeColumn],
    operation: &str,
) -> (result: Result<(), CertificateError>)
    ensures
        result is Ok <==> counts_agree(old_simplices@, new_simplices@, old_columns@),
        result is Err ==> refused_with(
            result,
            "reduction "@ + operation@ + " has inconsistent simplex counts"@,
        ),
{
    if old_simplices.len() != new_simplices.len() || old_columns.len() != old_simplices.len() {
        let mut message = literal("reduction ");
        message.append(operation);
        message.append(" has inconsistent simplex counts");
        return Err(CertificateError::new(message));
    }
    Ok(())
}

/// The old column that the simplex at new position `target` brings along.
pub open spec fn target_column<K>(
    old_simplices: Seq<K>,
    new_simplices: Seq<K>,
    old_columns: Seq<ChangeColumn>,
    target: int,
) -> Seq<CertificateTerm> {
    old_columns[position_map(old_simplices)[new_simplices[target]] as int]@
}

/// The column of new position `target` carries over: its simplex is an old
/// one, and its old column carries to distinct positions at or before
/// `target`.
pub open spec fn column_carries<K>(
    old_simplices: Seq<K>,
    new_simplices: Seq<K>,
    old_columns: Seq<ChangeColumn>,
    target: int,
) -> bool {
    let column = target_column(old_simplices, new_simplices, old_columns, target);
    let new_positions = position_map(new_simplices);
    &&& old_simplices.contains(new_simplices[target])
    &&& fits_until(old_simplices, new_positions, column, target as usize, column.len() as int)
    &&& distinct_indices(carried_terms(old_simplices, new_positions, column))
}

/// Every column carries over to the new order.
pub open spec fn reindexable<K>(
    old_simplices: Seq<K>,
    new_simplices: Seq<K>,
    old_columns: Seq<ChangeColumn>,
) -> bool {
    &&& counts_agree(old_simplices, new_simplices, old_columns)
    &&& distinct_simplices(old_simplices)
    &&& distinct_simplices(new_simplices)
    &&& forall|target: int|
        0 <= target < new_simplices.len() ==> #[trigger] column_carries(
            old_simplices,
            new_simplices,
            old_columns,
            target,
        )
}

/// The column at new position `target` is the carried old column, sorted.
pub open spec fn carried_column<K>(
    old_simplices: Seq<K>,
    new_simplices: Seq<K>,
    old_columns: Seq<ChangeColumn>,
    target: int,
    column: Seq<CertificateTerm>,
) -> bool {
    sorted_copy(
        column,
        carried_terms(
            old_simplices,
            position_map(new_simplices),
            target_column(old_simplices, new_simplices, old_columns, target),
        ),
    )
}

/// Reindexes every change column after the filtration order changed:
/// each simplex keeps its identity, and each target and source position
/// moves with it. The simplex sets must agree and every carried column
/// must stay filtration-compatible.
pub fn reindex_change_columns<K: Ord + Copy>(
    old_simplices: &[K],
    new_simplices: &[K],
    old_columns: &[ChangeColumn],
) -> (result: Result<Vec<ChangeColumn>, CertificateError>)
    requires
        ordered_keys::<K>(),
    ensures
        result is Ok <==> reindexable(old_simplices@, new_simplices@, old_columns@),
        result matches Ok(columns) ==> {
            &&& columns@.len() == new_simplices@.len()
            &&& forall|target: int|
                0 <= target < columns@.len() ==> carried_column(
                    old_simplices@,
                    new_simplices@,
                    old_columns@,
                    target,
                    #[trigger] columns@[target]@,
                )
        },
        !counts_agree(old_simplices@, new_simplices@, old_columns@) ==> refused_with(
            result,
            "reduction reindexing has inconsistent simplex counts"@,
        ),
        counts_agree(old_simplices@, new_simplices@, old_columns@) && !(distinct_simplices(old_simplices@)
            && distinct_simplices(new_simplices@)) ==> refused_with(
            result,
            "reduction reindexing found duplicate simplex identities"@,
        ),
{
    proof {
        reveal_strlit("reindexing");
        reveal_strlit("reduction ");
        reveal_strlit(" has inconsistent simplex counts");
        reveal_strlit("reduction reindexing has inconsistent simplex counts");
    }
    if let Err(error) = check_simplex_counts(old_simplices, new_simplices, old_columns, "reindexing") {
        proof {
            assert("reduction "@ + "reindexing"@ + " has inconsistent simplex counts"@
                =~= "reduction reindexing has inconsistent simplex counts"@);
        }
        return Err(error);
    }
    let (old_positions, old_distinct) = simplex_positions(old_simplices);
    let (new_positions, new_distinct) = simplex_positions(new_simplices);
    if !old_distinct || !new_distinct {
        return Err(CertificateError::new(literal("reduction reindexing found duplicate simplex identities")));
    }
    let mut columns: Vec<ChangeColumn> = Vec::new();
    let mut target: usize = 0;
    while target < new_simplices.len()
        invariant
            ordered_keys::<K>(),
            counts_agree(old_simplices@, new_simplices@, old_columns@),
            distinct_simplices(old_simplices@),
            distinct_simplices(new_simplices@),
            old_positions@ == position_map(old_simplices@),
            new_positions@ == position_map(new_simplices@),
            target <= new_simplices@.len(),
            columns@.len() == target,
            forall|t: int| 0 <= t < target ==> #[trigger] column_carries(old_simplices@, new_simplices@, old_columns@, t),
            forall|t: int|
                0 <= t < target ==> carried_column(
                    old_simplices@,
                    new_simplices@,
                    old_columns@,
                    t,
                    #[trigger] columns@[t]@,
                ),
        decreases new_simplices@.len() - target,
    {
        let simplex = new_simplices[target];
        proof {
            lemma_position_domain(old_simplices@, simplex);
        }
        let old_target = match old_positions.get(&simplex) {
            Some(position) => *position,
            None => {
                proof {
                    assert(!column_carries(old_simplices@, new_simplices@, old_columns@, target as int));
                }
                return Err(CertificateError::new(literal("reduction reindexing found a changed simplex set")));
            },
        };
        proof {
            let j = choose|j: int| 0 <= j < old_simplices@.len() && old_simplices@[j] == simplex;
            lemma_position_map(old_simplices@, j);
        }
        let column = match reindex_column(target, old_simplices, &new_positions, &old_columns[old_target]) {
            Ok(column) => column,
            Err(error) => {
                proof {
                    assert(!column_carries(old_simplices@, new_simplices@, old_columns@, target as int));
                }
                return Err(error);
            },
        };
        columns.push(column);
        proof {
            assert(columns@[target as int] == column);
        }
        target += 1;
    }
    Ok(columns)
}

/// Both orders hold the same simplices, each once.
pub open spec fn same_simplex_set<K>(old_simplices: Seq<K>, new_simplices: Seq<K>) -> bool {
    &&& distinct_simplices(old_simplices)
    &&& distinct_simplices(new_simplices)
    &&& forall|i: int| 0 <= i < old_simplices.len() ==> new_simplices.contains(#[trigger] old_simplices[i])
    &&& forall|t: int| 0 <= t < new_simplices.len() ==> old_simplices.contains(#[trigger] new_simplices[t])
}

/// Whether every simplex of `simplices` has a position in `positions`.
fn all_positioned<K: Ord + Copy>(simplices: &[K], positions: &BTreeMap<K, usize>) -> (all: bool)
    requires
        ordered_keys::<K>(),
    ensures
        all == forall|i: int| 0 <= i < simplices@.len() ==> positions@.contains_key(#[trigger] simplices@[i]),
{
    let mut index: usize = 0;
    while index < simplices.len()
        invariant
            ordered_keys::<K>(),
            index <= simplices@.len(),
            forall|i: int| 0 <= i < index ==> positions@.contains_key(#[trigger] simplices@[i]),
        decreases simplices@.len() - index,
    {
        let simplex = simplices[index];
        if positions.get(&simplex).is_none() {
            return false;
        }
        index += 1;
    }
    true
}

/// Checks that the two orders hold the same simplices, each once.
fn check_repair_simplex_sets<K: Ord + Copy>(
    old_simplices: &[K],
    new_simplices: &[K],
    old_positions: &BTreeMap<K, usize>,
    new_positions: &BTreeMap<K, usize>,
    old_distinct: bool,
    new_distinct: bool,
) -> (result: Result<(), CertificateError>)
    requires
        ordered_keys::<K>(),
        old_positions@ == position_map(old_simplices@),
        new_positions@ == position_map(new_simplices@),
        old_distinct == distinct_simplices(old_simplices@),
        new_distinct == distinct_simplices(new_simplices@),
    ensures
        result is Ok <==> same_simplex_set(old_simplices@, new_simplices@),
        result is Err ==> refused_with(result, "reduction repair found a changed simplex set"@),
{
    let same = old_distinct && new_distinct && all_positioned(old_simplices, new_positions) && all_positioned(
        new_simplices,
        old_positions,
    );
    proof {
        assert forall|i: int| 0 <= i < old_simplices@.len() implies (new_positions@.contains_key(
            #[trigger] old_simplices@[i],
        ) <==> new_simplices@.contains(old_simplices@[i])) by {
            lemma_position_domain(new_simplices@, old_simplices@[i]);
        }
        assert forall|t: int| 0 <= t < new_simplices@.len() implies (old_positions@.contains_key(
            #[trigger] new_simplices@[t],
        ) <==> old_simplices@.contains(new_simplices@[t])) by {
            lemma_position_domain(old_simplices@, new_simplices@[t]);
        }
    }
    if !same {
        return Err(CertificateError::new(literal("reduction repair found a changed simplex set")));
    }
    Ok(())
}

/// The column at new position `target` carries over and stays at or
/// before `target`.
pub open spec fn prefix_column_carries<K>(
    old_simplices: Seq<K>,
    new_simplices: Seq<K>,
    old_columns: Seq<ChangeColumn>,
    target: int,
) -> bool {
    let column = target_column(old_simplices, new_simplices, old_columns, target);
    let new_positions = position_map(new_simplices);
    &&& fits_until(old_simplices, new_positions, column, target as usize, column.len() as int)
    &&& distinct_indices(carried_terms(old_simplices, new_positions, column))
}

/// The column at new position `target` reaches past `target`.
pub open spec fn prefix_column_stops<K>(
    old_simplices: Seq<K>,
    new_simplices: Seq<K>,
    old_columns: Seq<ChangeColumn>,
    target: int,
) -> bool {
    stops_early(
        old_simplices,
        position_map(new_simplices),
        target_column(old_simplices, new_simplices, old_columns, target),
        target as usize,
    )
}

/// The column at new position `target` names no old simplex, or two of its
/// terms land on one position.
pub open spec fn prefix_column_fails<K>(
    old_simplices: Seq<K>,
    new_simplices: Seq<K>,
    old_columns: Seq<ChangeColumn>,
    target: int,
) -> bool {
    let column = target_column(old_simplices, new_simplices, old_columns, target);
    let new_positions = position_map(new_simplices);
    ||| bad_source(old_simplices, new_positions, column, target as usize)
    ||| (fits_until(old_simplices, new_positions, column, target as usize, column.len() as int)
        && !distinct_indices(carried_terms(old_simplices, new_positions, column)))
}

/// The reindexed change columns that can start a reduction in the new
/// order: column by column in new position order, up to the first column
/// that would reach past its own position.
pub fn reindexed_prefix_candidates<K: Ord + Copy>(
    old_simplices: &[K],
    new_simplices: &[K],
    old_columns: &[ChangeColumn],
) -> (result: Result<Vec<ChangeColumn>, CertificateError>)
    requires
        ordered_keys::<K>(),
    ensures
        !counts_agree(old_simplices@, new_simplices@, old_columns@) ==> refused_with(
            result,
            "reduction repair has inconsistent simplex counts"@,
        ),
        counts_agree(old_simplices@, new_simplices@, old_columns@) && !same_simplex_set(
            old_simplices@,
            new_simplices@,
        ) ==> refused_with(result, "reduction repair found a changed simplex set"@),
        result matches Ok(columns) ==> {
            &&& counts_agree(old_simplices@, new_simplices@, old_columns@)
            &&& same_simplex_set(old_simplices@, new_simplices@)
            &&& columns@.len() <= new_simplices@.len()
            &&& forall|target: int|
                0 <= target < columns@.len() ==> #[trigger] prefix_column_carries(
                    old_simplices@,
                    new_simplices@,
                    old_columns@,
                    target,
                ) && carried_column(old_simplices@, new_simplices@, old_columns@, target, columns@[target]@)
            &&& columns@.len() < new_simplices@.len() ==> prefix_column_stops(
                old_simplices@,
                new_simplices@,
                old_columns@,
                columns@.len() as int,
            )
        },
        result is Err && counts_agree(old_simplices@, new_simplices@, old_columns@) && same_simplex_set(
            old_simplices@,
            new_simplices@,
        ) ==> exists|target: int|
            0 <= target < new_simplices@.len() && (forall|t: int|
                0 <= t < target ==> #[trigger] prefix_column_carries(
                    old_simplices@,
                    new_simplices@,
                    old_columns@,
                    t,
                )) && #[trigger] prefix_column_fails(old_simplices@, new_simplices@, old_columns@, target),
{
    if let Err(error) = check_simplex_counts(old_simplices, new_simplices, old_columns, "repair") {
        proof {
            reveal_strlit("repair");
            reveal_strlit("reduction ");
            reveal_strlit(" has inconsistent simplex counts");
            reveal_strlit("reduction repair has inconsistent simplex counts");
            assert("reduction "@ + "repair"@ + " has inconsistent simplex counts"@
                =~= "reduction repair has inconsistent simplex counts"@);
        }
        return Err(error);
    }
    let (old_positions, old_distinct) = simplex_positions(old_simplices);
    let (new_positions, new_distinct) = simplex_positions(new_simplices);
    if let Err(error) = check_repair_simplex_sets(
        old_simplices,
        new_simplices,
        &old_positions,
        &new_positions,
        old_distinct,
        new_distinct,
    ) {
        return Err(error);
    }
    proof {
        assert forall|i: int| 0 <= i < old_simplices@.len() implies new_positions@.contains_key(
            #[trigger] old_simplices@[i],
        ) by {
            lemma_position_domain(new_simplices@, old_simplices@[i]);
        }
    }
    let mut columns: Vec<ChangeColumn> = Vec::new();
    let mut target: usize = 0;
    while target < new_simplices.len()
        invariant
            ordered_keys::<K>(),
            counts_agree(old_simplices@, new_simplices@, old_columns@),
            same_simplex_set(old_simplices@, new_simplices@),
            old_positions@ == position_map(old_simplices@),
            new_positions@ == position_map(new_simplices@),
            forall|i: int| 0 <= i < old_simplices@.len() ==> new_positions@.contains_key(#[trigger] old_simplices@[i]),
            target <= new_simplices@.len(),
            columns@.len() == target,
            forall|t: int|
                0 <= t < target ==> #[trigger] prefix_column_carries(old_simplices@, new_simplices@, old_columns@, t)
                    && carried_column(old_simplices@, new_simplices@, old_columns@, t, columns@[t]@),
        decreases new_simplices@.len() - target,
    {
        let simplex = new_simplices[target];
        proof {
            assert(old_simplices@.contains(new_simplices@[target as int]));
            let j = choose|j: int| 0 <= j < old_simplices@.len() && old_simplices@[j] == simplex;
            lemma_position_map(old_simplices@, j);
        }
        let old_target = match old_positions.get(&simplex) {
            Some(position) => *position,
            None => 0,
        };
        match reindexed_prefix_column(target, old_simplices, &new_positions, &old_columns[old_target]) {
            Ok(Some(column)) => {
                columns.push(column);
                proof {
                    assert(columns@[target as int] == column);
                }
            },
            Ok(None) => {
                proof {
                    assert(prefix_column_stops(old_simplices@, new_simplices@, old_columns@, target as int));
                }
                return Ok(columns);
            },
            Err(error) => {
                proof {
                    assert(prefix_column_fails(old_simplices@, new_simplices@, old_columns@, target as int));
                }
                return Err(error);
            },
        }
        target += 1;
    }
    Ok(columns)
}

/// One dimension of a repaired reduction: its change columns, how many
/// leading columns were carried over unchanged, and how many column
/// additions reducing the others took.
pub struct DimensionRepair {
    /// The change columns of the repaired reduction.
    pub columns: Vec<ChangeColumn>,
    /// Leading columns carried over from the old reduction.
    pub prefix: usize,
    /// Column additions spent on the remaining columns.
    pub additions: usize,
}

/// `columns` begins with the longest carried prefix: its first `prefix`
/// columns are the old columns carried to the new order, and the next
/// carried column, if there is one, does not extend the accepted prefix.
pub open spec fn retains_longest_prefix<K>(
    old_simplices: Seq<K>,
    new_simplices: Seq<K>,
    old_columns: Seq<ChangeColumn>,
    boundaries: Seq<Seq<(usize, u64)>>,
    columns: Seq<Seq<CertificateTerm>>,
    prefix: nat,
    p: nat,
) -> bool {
    &&& prefix <= new_simplices.len()
    &&& forall|target: int|
        0 <= target < prefix ==> carried_column(old_simplices, new_simplices, old_columns, target, #[trigger] columns[target])
    &&& prefix < new_simplices.len() ==> forall|column: Seq<CertificateTerm>|
        #[trigger] carried_column(old_simplices, new_simplices, old_columns, prefix as int, column)
            && prefix_column_carries(old_simplices, new_simplices, old_columns, prefix as int) ==> !(valid_change_column(
            column,
            prefix,
            p,
        ) && distinct_pivots(boundaries, columns.take(prefix as int).push(column), p))
}

/// Two strictly ascending copies of the same terms are equal.
pub proof fn lemma_sorted_copy_unique(first: Seq<CertificateTerm>, second: Seq<CertificateTerm>, terms: Seq<CertificateTerm>)
    requires
        sorted_copy(first, terms),
        sorted_copy(second, terms),
    ensures
        first == second,
{
    assert forall|i: int| 0 <= i < first.len() implies first[i] == second[i] by {
        lemma_sorted_copy_at(first, second, terms, i);
    }
    assert(first =~= second);
}

proof fn lemma_sorted_copy_at(first: Seq<CertificateTerm>, second: Seq<CertificateTerm>, terms: Seq<CertificateTerm>, i: int)
    requires
        sorted_copy(first, terms),
        sorted_copy(second, terms),
        0 <= i < first.len(),
    ensures
        first[i] == second[i],
    decreases i,
{
    assert forall|j: int| 0 <= j < i implies first[j] == second[j] by {
        lemma_sorted_copy_at(first, second, terms, j);
    }
    assert(first.contains(first[i]));
    assert(second.contains(first[i]));
    let m = choose|m: int| 0 <= m < second.len() && second[m] == first[i];
    assert(second.contains(second[i]));
    assert(first.contains(second[i]));
    let n = choose|n: int| 0 <= n < first.len() && first[n] == second[i];
    if m < i {
        assert(first[m] == second[m]);
        assert(first[m].index < first[i].index);
    }
    if n < i {
        assert(first[n] == second[n]);
        assert(second[n].index < second[i].index);
    }
    if m > i && n > i {
        assert(second[i].index < second[m].index);
        assert(first[i].index < first[n].index);
    }
    if m == i {
    } else if n == i {
    } else {
        assert(false);
    }
}

/// A column that stops early does not carry over.
proof fn lemma_stops_not_carries<K>(old_simplices: Seq<K>, new_simplices: Seq<K>, old_columns: Seq<ChangeColumn>, target: int)
    requires
        prefix_column_stops(old_simplices, new_simplices, old_columns, target),
    ensures
        !prefix_column_carries(old_simplices, new_simplices, old_columns, target),
{
    let column = target_column(old_simplices, new_simplices, old_columns, target);
    let positions = position_map(new_simplices);
    let k = choose|k: int|
        0 <= k < column.len() && fits_until(old_simplices, positions, column, target as usize, k) && carriable(
            old_simplices,
            positions,
            #[trigger] column[k],
        ) && carried_term(old_simplices, positions, column[k]).index > target as usize;
    if fits_until(old_simplices, positions, column, target as usize, column.len() as int) {
        assert(carriable(old_simplices, positions, column[k]));
    }
}

/// The reasons for which the repair of one dimension is refused: the
/// simplex and column counts disagree, the simplex sets differ, an old
/// column cannot be carried to the new order, a carried column has a
/// coefficient that is not a nonzero residue, or reducing the new order
/// could exceed the term limit.
pub open spec fn dimension_refused<K>(
    old_simplices: Seq<K>,
    new_simplices: Seq<K>,
    old_columns: Seq<ChangeColumn>,
    p: nat,
    max_terms: nat,
) -> bool {
    ||| !counts_agree(old_simplices, new_simplices, old_columns)
    ||| !same_simplex_set(old_simplices, new_simplices)
    ||| exists|target: int|
        0 <= target < new_simplices.len() && #[trigger] prefix_column_fails(
            old_simplices,
            new_simplices,
            old_columns,
            target,
        )
    ||| exists|target: int, column: Seq<CertificateTerm>|
        0 <= target < new_simplices.len() && #[trigger] carried_column(
            old_simplices,
            new_simplices,
            old_columns,
            target,
            column,
        ) && coefficient_failure(column, target as nat, p)
    ||| triangular(new_simplices.len()) > max_terms
}

/// Repairs one dimension of a reduction after the filtration order
/// changed: carries the old columns over as far as they stay compatible,
/// keeps the longest accepted prefix of them, and reduces the rest anew.
pub fn repair_dimension<K: Ord + Copy>(
    old_simplices: &[K],
    new_simplices: &[K],
    old_columns: &[ChangeColumn],
    boundaries: &[SparseColumn],
    modulus: u32,
    limits: CertificateLimits,
) -> (result: Result<DimensionRepair, CertificateError>)
    requires
        ordered_keys::<K>(),
        spec_is_prime(modulus as nat),
        wf_columns(column_views(boundaries@), modulus as nat),
        new_simplices@.len() == boundaries@.len(),
    ensures
        result matches Ok(repair) ==> {
            &&& valid_reduction(
                column_views(boundaries@),
                change_views(repair.columns@),
                modulus as nat,
                limits.max_terms as nat,
            )
            &&& retains_longest_prefix(
                old_simplices@,
                new_simplices@,
                old_columns@,
                column_views(boundaries@),
                change_views(repair.columns@),
                repair.prefix as nat,
                modulus as nat,
            )
        },
        result is Err ==> dimension_refused(
            old_simplices@,
            new_simplices@,
            old_columns@,
            modulus as nat,
            limits.max_terms as nat,
        ),
{
    let mut candidates = reindexed_prefix_candidates(old_simplices, new_simplices, old_columns)?;
    let ghost bv = column_views(boundaries@);
    let ghost p = modulus as nat;
    let ghost views = change_views(candidates@);
    let prefix = match valid_reduction_prefix_len(boundaries, candidates.as_slice(), modulus, limits) {
        Ok(prefix) => prefix,
        Err(error) => {
            proof {
                let t = choose|t: int|
                    0 <= t < candidates@.len() && accepted_prefix(bv, views, p, limits.max_terms as nat, t) && (
                    coefficient_failure(#[trigger] candidates@[t]@, t as nat, p) || (valid_change_column(
                        candidates@[t]@,
                        t as nat,
                        p,
                    ) && distinct_pivots(bv, views.take(t + 1), p) && terms_total(views.take(t + 1))
                        > limits.max_terms));
                assert(prefix_column_carries(old_simplices@, new_simplices@, old_columns@, t));
                assert(carried_column(old_simplices@, new_simplices@, old_columns@, t, candidates@[t]@));
                if !coefficient_failure(candidates@[t]@, t as nat, p) {
                    reveal(accepted_prefix);
                    let upto = views.take(t + 1);
                    assert(views[t] == candidates@[t]@);
                    assert forall|j: int| 0 <= j < upto.len() implies valid_change_column(
                        #[trigger] upto[j],
                        j as nat,
                        p,
                    ) by {
                        if j < t {
                            assert(upto[j] == views.take(t)[j]);
                        }
                    }
                    lemma_terms_total_bound(upto, p);
                    lemma_triangular_monotone((t + 1) as nat, new_simplices@.len());
                }
            }
            return Err(error);
        },
    };
    let ghost full = candidates@;
    candidates.truncate(prefix);
    proof {
        reveal(accepted_prefix);
        assert(change_views(candidates@) =~= views.take(prefix as int));
    }
    let (columns, additions) = reduce_with_prefix(boundaries, candidates.as_slice(), modulus, limits)?;
    proof {
        assert forall|target: int| 0 <= target < prefix implies carried_column(
            old_simplices@,
            new_simplices@,
            old_columns@,
            target,
            #[trigger] columns@[target]@,
        ) by {
            assert(columns@[target]@ == candidates@[target]@);
            assert(candidates@[target] == full[target]);
            assert(prefix_column_carries(old_simplices@, new_simplices@, old_columns@, target));
            assert(change_views(columns@)[target] == columns@[target]@);
        }
        assert(change_views(columns@).take(prefix as int) =~= views.take(prefix as int)) by {
            assert forall|j: int| 0 <= j < prefix implies change_views(columns@)[j] == views[j] by {
                assert(columns@[j]@ == candidates@[j]@);
                assert(candidates@[j] == full[j]);
            }
        }
        if prefix < new_simplices@.len() {
            assert forall|column: Seq<CertificateTerm>|
                #[trigger] carried_column(old_simplices@, new_simplices@, old_columns@, prefix as int, column)
                    && prefix_column_carries(old_simplices@, new_simplices@, old_columns@, prefix as int)
                    implies !(valid_change_column(column, prefix as nat, p) && distinct_pivots(
                    bv,
                    change_views(columns@).take(prefix as int).push(column),
                    p,
                )) by {
                if prefix < full.len() {
                    assert(carried_column(old_simplices@, new_simplices@, old_columns@, prefix as int, full[prefix as int]@));
                    lemma_sorted_copy_unique(
                        column,
                        full[prefix as int]@,
                        carried_terms(
                            old_simplices@,
                            position_map(new_simplices@),
                            target_column(old_simplices@, new_simplices@, old_columns@, prefix as int),
                        ),
                    );
                    assert(views[prefix as int] == full[prefix as int]@);
                    assert(views.take(prefix as int).push(views[prefix as int]) =~= views.take(prefix as int + 1));
                } else {
                    lemma_stops_not_carries(old_simplices@, new_simplices@, old_columns@, prefix as int);
                }
            }
        }
    }
    Ok(DimensionRepair { columns, prefix, additions })
}

} // verus!
