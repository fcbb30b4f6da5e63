use holos_tda::certificate::matrix::check_matrix;
use holos_tda::certificate::reduction::reduce_with_basis;
use holos_tda::certificate::repair::{
    reindex_change_columns, reindexed_prefix_candidates, repair_dimension, sort_by_index,
};
use holos_tda::certificate::sparse::SparseColumn;
use holos_tda::certificate::{CertificateLimits, CertificateTerm, ChangeColumn};

fn column(entries: &[(usize, u64)]) -> SparseColumn {
    SparseColumn { entries: entries.to_vec() }
}

fn change(terms: &[(usize, u32)]) -> ChangeColumn {
    ChangeColumn {
        terms: terms
            .iter()
            .map(|&(index, coefficient)| CertificateTerm { index, coefficient })
            .collect(),
    }
}

/// Vertex boundaries of the given edges over `p`, in the given order.
fn boundaries(edges: &[(usize, usize)], p: u64) -> Vec<SparseColumn> {
    edges.iter().map(|&(u, v)| column(&[(u, p - 1), (v, 1)])).collect()
}

const SQUARE: [(usize, usize); 4] = [(0, 1), (1, 2), (2, 3), (0, 3)];

fn square_columns() -> Vec<ChangeColumn> {
    reduce_with_basis(&boundaries(&SQUARE, 5), 5, CertificateLimits::default()).unwrap()
}

fn message<T: std::fmt::Debug>(result: Result<T, holos_tda::certificate::CertificateError>) -> String {
    result.unwrap_err().message().to_string()
}

#[test]
fn relabelled_columns_follow_their_simplices() {
    let old_columns = square_columns();
    assert_eq!(old_columns[3], change(&[(0, 4), (1, 4), (2, 4), (3, 1)]));
    let reordered = [(1, 2), (0, 1), (2, 3), (0, 3)];
    let columns = reindex_change_columns(&SQUARE, &reordered, &old_columns).unwrap();
    assert_eq!(columns[0], change(&[(0, 1)]));
    assert_eq!(columns[1], change(&[(1, 1)]));
    assert_eq!(columns[2], change(&[(2, 1)]));
    assert_eq!(columns[3], change(&[(0, 4), (1, 4), (2, 4), (3, 1)]));
    check_matrix("edge", &boundaries(&reordered, 5), &columns, 5, CertificateLimits::default())
        .unwrap();
}

#[test]
fn a_column_reaching_forward_is_refused_by_reindexing() {
    let old_columns = square_columns();
    let swapped = [(0, 1), (1, 2), (0, 3), (2, 3)];
    assert_eq!(
        message(reindex_change_columns(&SQUARE, &swapped, &old_columns)),
        "accepted reduction is not filtration-compatible after reindexing"
    );
}

#[test]
fn repair_keeps_the_compatible_prefix() {
    let old_columns = square_columns();
    let swapped = [(0, 1), (1, 2), (0, 3), (2, 3)];
    let candidates = reindexed_prefix_candidates(&SQUARE, &swapped, &old_columns).unwrap();
    assert_eq!(candidates, vec![change(&[(0, 1)]), change(&[(1, 1)])]);
    let new_boundaries = boundaries(&swapped, 5);
    let repair = repair_dimension(
        &SQUARE,
        &swapped,
        &old_columns,
        &new_boundaries,
        5,
        CertificateLimits::default(),
    )
    .unwrap();
    assert_eq!(repair.prefix, 2);
    assert_eq!(repair.columns[0], change(&[(0, 1)]));
    assert_eq!(repair.columns[1], change(&[(1, 1)]));
    check_matrix("edge", &new_boundaries, &repair.columns, 5, CertificateLimits::default())
        .unwrap();
}

#[test]
fn simplex_sets_and_counts_are_checked_first() {
    let old_columns = square_columns();
    assert_eq!(
        message(reindex_change_columns(&SQUARE, &SQUARE[..3], &old_columns)),
        "reduction reindexing has inconsistent simplex counts"
    );
    assert_eq!(
        message(reindexed_prefix_candidates(&SQUARE, &SQUARE[..3], &old_columns)),
        "reduction repair has inconsistent simplex counts"
    );
    let doubled = [(0, 1), (1, 2), (2, 3), (0, 1)];
    assert_eq!(
        message(reindex_change_columns(&SQUARE, &doubled, &old_columns)),
        "reduction reindexing found duplicate simplex identities"
    );
    assert_eq!(
        message(reindexed_prefix_candidates(&SQUARE, &doubled, &old_columns)),
        "reduction repair found a changed simplex set"
    );
    let changed = [(0, 1), (1, 2), (2, 3), (1, 3)];
    assert_eq!(
        message(reindex_change_columns(&SQUARE, &changed, &old_columns)),
        "reduction reindexing found a changed simplex set"
    );
    assert_eq!(
        message(reindexed_prefix_candidates(&SQUARE, &changed, &old_columns)),
        "reduction repair found a changed simplex set"
    );
}

#[test]
fn source_positions_must_name_old_simplices() {
    let mut old_columns = square_columns();
    old_columns[0] = change(&[(9, 1)]);
    assert_eq!(
        message(reindex_change_columns(&SQUARE, &SQUARE, &old_columns)),
        "reduction reindexing found an invalid source position"
    );
    assert_eq!(
        message(reindexed_prefix_candidates(&SQUARE, &SQUARE, &old_columns)),
        "reduction repair found an invalid source position"
    );
    old_columns[0] = change(&[(0, 1), (0, 2)]);
    assert_eq!(
        message(reindex_change_columns(&SQUARE, &SQUARE, &old_columns)),
        "reduction reindexing produced duplicate source positions"
    );
}

#[test]
fn terms_are_sorted_by_position() {
    let terms = vec![
        CertificateTerm { index: 3, coefficient: 1 },
        CertificateTerm { index: 0, coefficient: 4 },
        CertificateTerm { index: 2, coefficient: 2 },
    ];
    assert_eq!(sort_by_index(terms).unwrap(), change(&[(0, 4), (2, 2), (3, 1)]).terms);
    let doubled = vec![
        CertificateTerm { index: 1, coefficient: 1 },
        CertificateTerm { index: 1, coefficient: 2 },
    ];
    assert!(sort_by_index(doubled).is_none());
}
