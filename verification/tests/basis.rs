use holos_tda::classes::basis::canonical_space_basis;
use holos_tda::classes::{Cocycle, CocycleTerm};

fn bits(value: f64) -> u64 {
    value.to_bits()
}

/// Two disjoint squares 0-1-2-3 and 4-5-6-7 with unit sides.
fn two_squares() -> Vec<(usize, usize, u64)> {
    let one = bits(1.0);
    vec![(0, 1, one), (0, 3, one), (1, 2, one), (2, 3, one), (4, 5, one), (4, 7, one), (5, 6, one), (6, 7, one)]
}

fn cocycle(modulus: u32, terms: Vec<CocycleTerm>) -> Cocycle {
    Cocycle { modulus, scale: bits(1.0), terms }
}

fn term(u: usize, v: usize, coefficient: u32) -> CocycleTerm {
    CocycleTerm { u, v, coefficient }
}

#[test]
fn class_space_basis_is_canonical_for_any_seed_order() {
    let graph = two_squares();
    let first = term(2, 3, 1);
    let second = term(6, 7, 1);
    let seeds = [cocycle(2, vec![second]), cocycle(2, vec![first, second])];
    let expected = vec![cocycle(2, vec![first]), cocycle(2, vec![second])];
    let basis = canonical_space_basis(8, &graph, 2, &seeds).unwrap();
    assert_eq!(basis, expected);
    assert_eq!(canonical_space_basis(8, &graph, 2, &basis).unwrap(), basis);
}

#[test]
fn the_gauge_moves_each_class_off_its_spanning_forest() {
    let graph = two_squares();
    let seeds = [cocycle(5, vec![term(0, 1, 2)])];
    let basis = canonical_space_basis(8, &graph, 5, &seeds).unwrap();
    assert_eq!(basis, vec![cocycle(5, vec![term(2, 3, 1)])]);
}

#[test]
fn reordered_and_rescaled_seeds_give_the_same_basis() {
    let graph = two_squares();
    let a = cocycle(3, vec![term(2, 3, 1)]);
    let b = cocycle(3, vec![term(6, 7, 2)]);
    let mixed = cocycle(3, vec![term(2, 3, 2), term(6, 7, 1)]);
    let one = canonical_space_basis(8, &graph, 3, &[a.clone(), b.clone()]).unwrap();
    let two = canonical_space_basis(8, &graph, 3, &[mixed, a]).unwrap();
    assert_eq!(one, two);
    assert_eq!(one, vec![cocycle(3, vec![term(2, 3, 1)]), cocycle(3, vec![term(6, 7, 1)])]);
}

#[test]
fn dependent_and_mismatched_seeds_are_refused() {
    let graph = two_squares();
    let a = cocycle(2, vec![term(2, 3, 1)]);
    assert_eq!(
        canonical_space_basis(8, &graph, 2, &[a.clone(), a.clone()]).unwrap_err().message(),
        "class-space basis contains a coboundary"
    );
    assert_eq!(
        canonical_space_basis(8, &graph, 2, &[cocycle(2, vec![term(0, 1, 1), term(0, 3, 1)])]).unwrap_err().message(),
        "class-space basis contains a coboundary"
    );
    let mut other_scale = a.clone();
    other_scale.scale = bits(2.0);
    assert_eq!(
        canonical_space_basis(8, &graph, 2, &[a.clone(), other_scale]).unwrap_err().message(),
        "class-space cocycles do not share a field and scale"
    );
    assert_eq!(
        canonical_space_basis(8, &graph, 3, &[a]).unwrap_err().message(),
        "class-space cocycles do not share a field and scale"
    );
    assert!(canonical_space_basis(8, &graph, 2, &[]).unwrap().is_empty());
}
