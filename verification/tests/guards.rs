use holos_tda::certificate::guards::{add_change_guards, add_pivot_guards, minimize_guards};
use holos_tda::certificate::ReductionGuardKind::{ChangeOfBasis, Pivot};
use holos_tda::certificate::sparse::SparseColumn;
use holos_tda::certificate::{
    CertificateTerm, ChangeColumn, FiltrationSimplex, ReductionGuard, ReductionGuardKind,
};

fn simplex(vertices: &[usize]) -> FiltrationSimplex {
    FiltrationSimplex::new(vertices.to_vec())
}

fn guard(kind: ReductionGuardKind, earlier: &[usize], later: &[usize]) -> ReductionGuard {
    ReductionGuard::new(kind, simplex(earlier), simplex(later))
}

fn summary(guards: &[ReductionGuard]) -> Vec<(ReductionGuardKind, Vec<usize>, Vec<usize>)> {
    guards
        .iter()
        .map(|guard| {
            (
                guard.kind(),
                guard.earlier().vertices().to_vec(),
                guard.later().vertices().to_vec(),
            )
        })
        .collect()
}

#[test]
fn transitive_comparisons_are_removed() {
    let guards = vec![
        guard(Pivot, &[0, 1], &[0, 2]),
        guard(Pivot, &[0, 2], &[1, 2]),
        guard(Pivot, &[0, 1], &[1, 2]),
    ];
    let reduced = minimize_guards(guards);
    assert_eq!(
        summary(&reduced),
        vec![
            (Pivot, vec![0, 1], vec![0, 2]),
            (Pivot, vec![0, 2], vec![1, 2]),
        ]
    );
    let _ = ChangeOfBasis;
}

#[test]
fn duplicate_comparisons_keep_the_least_kind_in_guard_order() {
    let guards = vec![
        guard(Pivot, &[2], &[3]),
        guard(Pivot, &[0], &[1]),
        guard(ChangeOfBasis, &[0], &[1]),
        guard(Pivot, &[0], &[1]),
        guard(Pivot, &[1, 2], &[3]),
    ];
    let reduced = minimize_guards(guards);
    assert_eq!(
        summary(&reduced),
        vec![
            (ChangeOfBasis, vec![0], vec![1]),
            (Pivot, vec![1, 2], vec![3]),
            (Pivot, vec![2], vec![3]),
        ]
    );
}

#[test]
fn a_comparison_with_a_single_successor_is_kept() {
    let guards = vec![
        guard(Pivot, &[2], &[0]),
        guard(Pivot, &[0], &[1]),
        guard(Pivot, &[1], &[2]),
    ];
    // No comparison has another first step, so none is implied.
    assert_eq!(
        summary(&minimize_guards(guards)),
        vec![
            (Pivot, vec![0], vec![1]),
            (Pivot, vec![1], vec![2]),
            (Pivot, vec![2], vec![0]),
        ]
    );
    assert!(minimize_guards(Vec::new()).is_empty());
}

#[test]
fn change_and_pivot_guards_follow_the_matrices() {
    let simplices = vec![simplex(&[0, 1]), simplex(&[1, 2]), simplex(&[0, 2])];
    let columns = vec![
        ChangeColumn { terms: vec![CertificateTerm { index: 0, coefficient: 1 }] },
        ChangeColumn { terms: vec![CertificateTerm { index: 1, coefficient: 1 }] },
        ChangeColumn {
            terms: vec![
                CertificateTerm { index: 0, coefficient: 1 },
                CertificateTerm { index: 1, coefficient: 1 },
                CertificateTerm { index: 2, coefficient: 1 },
            ],
        },
    ];
    let mut guards = Vec::new();
    add_change_guards(&mut guards, &columns, &simplices);
    assert_eq!(
        summary(&guards),
        vec![
            (ChangeOfBasis, vec![0, 1], vec![0, 2]),
            (ChangeOfBasis, vec![1, 2], vec![0, 2]),
        ]
    );
    let rows = vec![simplex(&[0]), simplex(&[1]), simplex(&[2])];
    let reduced = vec![
        SparseColumn { entries: vec![(0, 4), (1, 1)] },
        SparseColumn { entries: vec![] },
        SparseColumn { entries: vec![(1, 4), (2, 1)] },
    ];
    add_pivot_guards(&mut guards, &reduced, &rows);
    assert_eq!(guards.len(), 4);
    assert_eq!(
        summary(&guards[2..]),
        vec![(Pivot, vec![0], vec![1]), (Pivot, vec![1], vec![2])]
    );
}
