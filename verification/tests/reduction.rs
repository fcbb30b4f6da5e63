use holos_tda::certificate::matrix::{check_change_column, check_matrix};
use holos_tda::certificate::reduction::{
    reduce_with_basis, reduce_with_prefix, valid_reduction_prefix_len,
};
use holos_tda::certificate::sparse::SparseColumn;
use holos_tda::certificate::{CertificateLimits, CertificateTerm, ChangeColumn};

fn column(entries: &[(usize, u64)]) -> SparseColumn {
    SparseColumn { entries: entries.to_vec() }
}

fn change(terms: &[(usize, u32)]) -> ChangeColumn {
    ChangeColumn {
        terms: terms
            .iter()
            .map(|&(index, coefficient)| CertificateTerm { index, coefficient })
            .collect(),
    }
}

/// Edge boundaries of the 4-cycle 0-1, 1-2, 2-3, 0-3 over `p`: the lower
/// vertex gets `p - 1`, the higher vertex gets `1`.
fn square_edges(p: u64) -> Vec<SparseColumn> {
    vec![
        column(&[(0, p - 1), (1, 1)]),
        column(&[(1, p - 1), (2, 1)]),
        column(&[(2, p - 1), (3, 1)]),
        column(&[(0, p - 1), (3, 1)]),
    ]
}

#[test]
fn reduction_of_a_square_is_accepted_by_the_checker() {
    for p in [2u32, 3, 5, 7, 32749] {
        let boundaries = square_edges(p as u64);
        let columns = reduce_with_basis(&boundaries, p, CertificateLimits::default()).unwrap();
        assert_eq!(columns.len(), 4);
        let reduced = check_matrix("edge", &boundaries, &columns, p, CertificateLimits::default())
            .unwrap();
        // Three edges form a spanning tree; the fourth closes the cycle.
        assert!(!reduced[0].entries.is_empty());
        assert!(!reduced[1].entries.is_empty());
        assert!(!reduced[2].entries.is_empty());
        assert!(reduced[3].entries.is_empty(), "modulus {p}");
        assert_eq!(columns[3].terms.last().unwrap(), &CertificateTerm { index: 3, coefficient: 1 });
        assert_eq!(columns[3].terms.len(), 4);
    }
}

#[test]
fn square_cycle_column_is_exact_over_five() {
    let boundaries = square_edges(5);
    let columns = reduce_with_basis(&boundaries, 5, CertificateLimits::default()).unwrap();
    assert_eq!(columns[0], change(&[(0, 1)]));
    assert_eq!(columns[1], change(&[(1, 1)]));
    assert_eq!(columns[2], change(&[(2, 1)]));
    assert_eq!(columns[3], change(&[(0, 4), (1, 4), (2, 4), (3, 1)]));
}

#[test]
fn reduction_keeps_a_valid_prefix() {
    let boundaries = square_edges(5);
    let prefix = vec![change(&[(0, 1)]), change(&[(1, 1)])];
    let (columns, additions) =
        reduce_with_prefix(&boundaries, &prefix, 5, CertificateLimits::default()).unwrap();
    assert_eq!(&columns[..2], &prefix[..]);
    assert_eq!(additions, 3);
    assert!(check_matrix("edge", &boundaries, &columns, 5, CertificateLimits::default()).is_ok());
}

#[test]
fn reduction_rejects_a_long_prefix() {
    let boundaries = square_edges(5);
    let prefix = vec![change(&[(0, 1)]); 5];
    assert!(reduce_with_prefix(&boundaries, &prefix, 5, CertificateLimits::default()).is_err());
}

#[test]
fn reduction_rejects_an_invalid_prefix() {
    let boundaries = square_edges(5);
    let not_unit = vec![change(&[(0, 2)])];
    let error = reduce_with_prefix(&boundaries, &not_unit, 5, CertificateLimits::default())
        .unwrap_err();
    assert_eq!(error.message(), "retained reduction prefix is not unit triangular");
    let zero = vec![change(&[(0, 0)])];
    let error = reduce_with_prefix(&boundaries, &zero, 5, CertificateLimits::default()).unwrap_err();
    assert_eq!(error.message(), "retained reduction prefix has an invalid coefficient");
    let shared = vec![change(&[(0, 1)]), change(&[(1, 1)]), change(&[(2, 1)]), change(&[(3, 1)])];
    let error = reduce_with_prefix(&boundaries, &shared, 5, CertificateLimits::default()).unwrap_err();
    assert_eq!(error.message(), "retained reduction prefix has duplicate pivots");
}

#[test]
fn reduction_respects_the_term_budget() {
    let boundaries = square_edges(5);
    let mut limits = CertificateLimits::default();
    limits.max_terms = 6;
    let error = reduce_with_basis(&boundaries, 5, limits).unwrap_err();
    assert_eq!(error.message(), "7 change-of-basis terms exceed the limit 6");
}

#[test]
fn checker_rejects_shared_pivots_and_bad_columns() {
    let boundaries = square_edges(5);
    let shared = vec![change(&[(0, 1)]), change(&[(1, 1)]), change(&[(2, 1)]), change(&[(3, 1)])];
    let error = check_matrix("edge", &boundaries, &shared, 5, CertificateLimits::default())
        .unwrap_err();
    assert_eq!(error.message(), "edge reduced columns 2 and 3 share pivot 3");
    let short = vec![change(&[(0, 1)])];
    let error = check_matrix("edge", &boundaries, &short, 5, CertificateLimits::default())
        .unwrap_err();
    assert_eq!(error.message(), "edge matrix has 4 columns, certificate records 1");
    assert_eq!(
        check_change_column("edge", 1, &change(&[(2, 1)]), 5).unwrap_err().message(),
        "edge change column 1 term 0 points forward"
    );
    assert_eq!(
        check_change_column("edge", 1, &change(&[(1, 1), (0, 1)]), 5).unwrap_err().message(),
        "edge change column 1 terms are not strictly ordered"
    );
    assert_eq!(
        check_change_column("edge", 2, &change(&[(1, 1), (0, 1)]), 5).unwrap_err().message(),
        "edge change column 2 terms are not strictly ordered"
    );
    assert_eq!(
        check_change_column("edge", 1, &change(&[(0, 5), (1, 1)]), 5).unwrap_err().message(),
        "edge change column 1 has invalid coefficient 5"
    );
    assert_eq!(
        check_change_column("edge", 1, &change(&[]), 5).unwrap_err().message(),
        "edge change column 1 is empty"
    );
    assert_eq!(
        check_change_column("edge", 1, &change(&[(0, 1)]), 5).unwrap_err().message(),
        "edge change column 1 is not unit triangular"
    );
}

#[test]
fn prefix_scan_stops_at_the_first_rejected_column() {
    let boundaries = square_edges(5);
    let columns = reduce_with_basis(&boundaries, 5, CertificateLimits::default()).unwrap();
    assert_eq!(
        valid_reduction_prefix_len(&boundaries, &columns, 5, CertificateLimits::default()),
        Ok(4)
    );
    let mut broken = columns.clone();
    broken[3] = change(&[(3, 1)]);
    assert_eq!(
        valid_reduction_prefix_len(&boundaries, &broken, 5, CertificateLimits::default()),
        Ok(3)
    );
    let mut forward = columns.clone();
    forward[1] = change(&[(2, 1)]);
    assert_eq!(
        valid_reduction_prefix_len(&boundaries, &forward, 5, CertificateLimits::default()),
        Ok(1)
    );
    let mut bad = columns.clone();
    bad[2] = change(&[(0, 7), (2, 1)]);
    let error = valid_reduction_prefix_len(&boundaries, &bad, 5, CertificateLimits::default())
        .unwrap_err();
    assert_eq!(error.message(), "reduction repair found an invalid coefficient");
}
