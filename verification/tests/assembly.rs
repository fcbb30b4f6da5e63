use holos_tda::classes::assembly::canonical_spaces;
use holos_tda::classes::basis::canonical_space_basis;
use holos_tda::classes::canonical::{basis_class_id, group_id};
use holos_tda::classes::provenance::source_graph_digest;
use holos_tda::classes::{BasisClassId, Cocycle, CocycleTerm, CriticalPair, CriticalSimplex, IntervalGroupId};
use holos_tda::diagram::{Bar, INFINITY_BITS};

fn bits(value: f64) -> u64 {
    value.to_bits()
}

fn two_squares() -> Vec<(usize, usize, u64)> {
    let one = bits(1.0);
    vec![(0, 1, one), (0, 3, one), (1, 2, one), (2, 3, one), (4, 5, one), (4, 7, one), (5, 6, one), (6, 7, one)]
}

fn cocycle(modulus: u32, terms: Vec<CocycleTerm>) -> Cocycle {
    Cocycle { modulus, scale: bits(1.0), terms }
}

fn term(u: usize, v: usize, coefficient: u32) -> CocycleTerm {
    CocycleTerm { u, v, coefficient }
}

fn bar(birth: f64) -> Bar {
    Bar { dim: 1, birth: bits(birth), death: INFINITY_BITS }
}

fn pair(u: usize, v: usize) -> CriticalPair {
    CriticalPair { birth: CriticalSimplex { vertices: vec![u, v], value: bits(1.0) }, death: None }
}

#[test]
fn class_spaces_come_in_interval_order_with_canonical_bases() {
    let graph = two_squares();
    let late = bar(1.0);
    let early = bar(0.5);
    let seeds = vec![
        (late, cocycle(2, vec![term(6, 7, 1)]), pair(6, 7)),
        (early, cocycle(2, vec![term(2, 3, 1)]), pair(2, 3)),
        (late, cocycle(2, vec![term(2, 3, 1), term(6, 7, 1)]), pair(2, 3)),
    ];
    let spaces = canonical_spaces(8, &graph, 2, &seeds).unwrap();
    assert_eq!(spaces.len(), 2);
    assert_eq!(spaces[0].interval, early);
    assert_eq!(spaces[1].interval, late);
    let expected = vec![cocycle(2, vec![term(2, 3, 1)]), cocycle(2, vec![term(6, 7, 1)])];
    let cocycles: Vec<Cocycle> = spaces[1].basis.iter().map(|class| class.cocycle.clone()).collect();
    assert_eq!(cocycles, expected);
    assert_eq!(spaces[1].id, group_id(late, 2, &expected));
    assert_eq!(spaces[1].critical_pairs.len(), 2);
    assert_eq!(spaces[0].basis.len() + spaces[1].basis.len(), seeds.len());
    for space in &spaces {
        for (index, class) in space.basis.iter().enumerate() {
            assert_eq!(class.basis_index, index);
            assert_eq!(class.group_id, space.id);
            assert_eq!(class.interval, space.interval);
            assert_eq!(class.id, basis_class_id(space.id, index, &class.cocycle));
            let provenance = class.provenance.unwrap();
            assert_eq!(provenance.class_digest(), class.id.as_bytes());
            assert_eq!(*provenance.source_graph_digest(), source_graph_digest(8, &graph, class.cocycle.scale));
        }
    }
}

#[test]
fn class_spaces_refuse_invalid_and_dependent_seeds() {
    let graph = two_squares();
    let late = bar(1.0);
    let repeated = vec![
        (late, cocycle(2, vec![term(2, 3, 1)]), pair(2, 3)),
        (late, cocycle(2, vec![term(2, 3, 1)]), pair(2, 3)),
    ];
    assert_eq!(
        canonical_spaces(8, &graph, 2, &repeated).unwrap_err().message(),
        "class-space basis contains a coboundary"
    );
    let coboundary = vec![(late, cocycle(2, vec![term(0, 1, 1), term(0, 3, 1)]), pair(0, 1))];
    assert_eq!(
        canonical_spaces(8, &graph, 2, &coboundary).unwrap_err().message(),
        "cocycle is a vertex coboundary at its scale"
    );
    assert!(canonical_spaces(8, &graph, 2, &[]).unwrap().is_empty());
}

#[test]
fn a_seed_from_another_field_is_refused() {
    let graph = two_squares();
    let seeds = [cocycle(5, vec![term(2, 3, 4)])];
    assert_eq!(
        canonical_space_basis(8, &graph, 3, &seeds).unwrap_err().message(),
        "class-space cocycles do not share a field and scale"
    );
}

#[test]
fn identifiers_order_by_their_bytes() {
    let low = BasisClassId::from_bytes([0; 32]);
    let mut high_bytes = [0; 32];
    high_bytes[0] = 1;
    let high = BasisClassId::from_bytes(high_bytes);
    assert!(low < high);
    assert_eq!(BasisClassId::from_bytes(*high.as_bytes()), high);
    assert!(IntervalGroupId::from_bytes([1; 32]) > IntervalGroupId::from_bytes([0; 32]));
}
