use holos_tda::certificate::verify::graph_digest;
use holos_tda::classes::canonical::{basis_class_id, group_id};
use holos_tda::classes::provenance::source_graph_digest;
use holos_tda::classes::{Cocycle, CocycleTerm, IntervalGroupId};
use holos_tda::diagram::Bar;
use holos_tda::graph::{active_edges, at_most};
use sha2::{Digest, Sha256};

fn square() -> Vec<(usize, usize, u64)> {
    vec![
        (0, 1, 1.0f64.to_bits()),
        (1, 2, 1.0f64.to_bits()),
        (2, 3, 1.0f64.to_bits()),
        (0, 3, 1.0f64.to_bits()),
        (0, 2, 2.0f64.to_bits()),
        (1, 3, 2.0f64.to_bits()),
    ]
}

/// The binding hashed incrementally, update by update.
fn incremental_graph_digest(tag: &[u8], vertices: usize, scale: Option<f64>, threshold: f64) -> [u8; 32] {
    let edges: Vec<_> = square()
        .into_iter()
        .filter(|&(_, _, bits)| f64::from_bits(bits) <= threshold)
        .collect();
    let mut hash = Sha256::new();
    hash.update(tag);
    hash.update((vertices as u64).to_be_bytes());
    if let Some(scale) = scale {
        hash.update(scale.to_bits().to_be_bytes());
    }
    hash.update((edges.len() as u64).to_be_bytes());
    for (u, v, bits) in edges {
        hash.update((u as u64).to_be_bytes());
        hash.update((v as u64).to_be_bytes());
        hash.update(bits.to_be_bytes());
    }
    hash.finalize().into()
}

#[test]
fn graph_binding_hashes_the_thresholded_edges() {
    for threshold in [0.5f64, 1.0, 1.5, 2.0, f64::INFINITY] {
        assert_eq!(
            graph_digest(4, &square(), threshold.to_bits()),
            incremental_graph_digest(b"holos-certified-graph-v1", 4, None, threshold)
        );
    }
    assert_ne!(
        graph_digest(4, &square(), 1.0f64.to_bits()),
        graph_digest(4, &square(), 2.0f64.to_bits())
    );
}

#[test]
fn source_binding_hashes_the_scale_too() {
    for scale in [1.0f64, 2.0] {
        assert_eq!(
            source_graph_digest(4, &square(), scale.to_bits()),
            incremental_graph_digest(b"holos-persistent-class-source-v1", 4, Some(scale), scale)
        );
    }
}

#[test]
fn active_edges_compare_lengths_as_doubles() {
    assert_eq!(active_edges(&square(), 1.0f64.to_bits()), vec![(0, 1), (1, 2), (2, 3), (0, 3)]);
    assert_eq!(active_edges(&square(), 0.5f64.to_bits()), vec![]);
    assert_eq!(active_edges(&square(), f64::NAN.to_bits()), vec![]);
    let values = [-2.0, -0.0, 0.0, 1e-300, 1.0, 2.0, f64::INFINITY, f64::NAN];
    for &left in &values {
        for &right in &values {
            assert_eq!(at_most(left.to_bits(), right.to_bits()), left <= right, "{left} <= {right}");
        }
    }
}

fn cocycle(scale: f64, terms: &[(usize, usize, u32)]) -> Cocycle {
    Cocycle {
        modulus: 5,
        scale: scale.to_bits(),
        terms: terms
            .iter()
            .map(|&(u, v, coefficient)| CocycleTerm { u, v, coefficient })
            .collect(),
    }
}

#[test]
fn class_identifiers_hash_the_canonical_layout() {
    let interval = Bar { dim: 1, birth: 1.0f64.to_bits(), death: 2.0f64.to_bits() };
    let basis = vec![cocycle(1.0, &[(0, 1, 1), (1, 2, 4)])];
    let mut hash = Sha256::new();
    hash.update(b"holos-h1-class-space-v1");
    hash.update(1u64.to_be_bytes());
    hash.update(1.0f64.to_bits().to_be_bytes());
    hash.update(2.0f64.to_bits().to_be_bytes());
    hash.update(5u32.to_be_bytes());
    hash.update(1u64.to_be_bytes());
    hash.update(1.0f64.to_bits().to_be_bytes());
    hash.update(2u64.to_be_bytes());
    for (u, v, c) in [(0u64, 1u64, 1u32), (1, 2, 4)] {
        hash.update(u.to_be_bytes());
        hash.update(v.to_be_bytes());
        hash.update(c.to_be_bytes());
    }
    let expected: [u8; 32] = hash.finalize().into();
    let group = group_id(interval, 5, &basis);
    assert_eq!(group, IntervalGroupId::from_bytes(expected));

    let mut hash = Sha256::new();
    hash.update(b"holos-h1-basis-class-v1");
    hash.update(group.as_bytes());
    hash.update(0u64.to_be_bytes());
    hash.update(1.0f64.to_bits().to_be_bytes());
    for (u, v, c) in [(0u64, 1u64, 1u32), (1, 2, 4)] {
        hash.update(u.to_be_bytes());
        hash.update(v.to_be_bytes());
        hash.update(c.to_be_bytes());
    }
    let expected: [u8; 32] = hash.finalize().into();
    assert_eq!(basis_class_id(group, 0, &basis[0]).as_bytes(), &expected);
    assert_ne!(basis_class_id(group, 1, &basis[0]), basis_class_id(group, 0, &basis[0]));
}
