use holos_tda::certificate::checked::check_reductions;
use holos_tda::certificate::complex::FilteredComplex;
use holos_tda::certificate::reduction::reduce_with_basis;
use holos_tda::certificate::verify::graph_digest;
use holos_tda::certificate::{CertificateLimits, ChangeColumn, ReductionCertificate, ReductionRepairMode};
use holos_tda::diagram::{Bar, INFINITY_BITS};

fn put(out: &mut Vec<u8>, value: u64, width: usize) {
    for shift in (0..width).rev() {
        out.push((value >> (8 * shift)) as u8);
    }
}

fn bits(value: f64) -> u64 {
    value.to_bits()
}

fn graph(values: [f64; 6]) -> Vec<(usize, usize, u64)> {
    let pairs = [(0, 1), (0, 2), (0, 3), (1, 2), (1, 3), (2, 3)];
    pairs.iter().zip(values.iter()).map(|(&(u, v), &value)| (u, v, bits(value))).collect()
}

/// The square 0-1-2-3 with unit sides and diagonals of length two, in
/// listed order.
fn square() -> Vec<(usize, usize, u64)> {
    graph([1.0, 2.0, 1.0, 1.0, 2.0, 1.0])
}

fn envelope(
    modulus: u32,
    vertex_count: usize,
    threshold: Option<f64>,
    digest: [u8; 32],
    edges: &[ChangeColumn],
    triangles: &[ChangeColumn],
    bars: &[Bar],
) -> Vec<u8> {
    let mut out = b"HOLOSRED".to_vec();
    put(&mut out, 1, 2);
    out.push(1);
    put(&mut out, modulus as u64, 4);
    put(&mut out, vertex_count as u64, 8);
    match threshold {
        Some(value) => {
            out.push(1);
            put(&mut out, value.to_bits(), 8);
        }
        None => out.push(0),
    }
    put(&mut out, edges.len() as u64, 8);
    put(&mut out, triangles.len() as u64, 8);
    put(&mut out, bars.len() as u64, 8);
    out.extend_from_slice(&digest);
    for column in edges.iter().chain(triangles.iter()) {
        put(&mut out, column.terms.len() as u64, 8);
        for term in &column.terms {
            put(&mut out, term.index as u64, 8);
            put(&mut out, term.coefficient as u64, 4);
        }
    }
    for bar in bars {
        put(&mut out, bar.dim as u64, 8);
        put(&mut out, bar.birth, 8);
        put(&mut out, bar.death, 8);
    }
    out
}

/// A fresh checked reduction of `edges` on four vertices.
fn reduce(edges: &[(usize, usize, u64)], modulus: u32, threshold: Option<f64>) -> (Vec<ChangeColumn>, Vec<ChangeColumn>, Vec<Bar>) {
    let limits = CertificateLimits::default();
    let bound = threshold.map_or(INFINITY_BITS, bits);
    let complex = FilteredComplex::build(4, edges, bound, limits).unwrap();
    let edge_columns = reduce_with_basis(&complex.edge_boundaries(modulus), modulus, limits).unwrap();
    let triangle_columns = reduce_with_basis(&complex.triangle_boundaries(modulus), modulus, limits).unwrap();
    let checked = check_reductions(&complex, modulus, &edge_columns, &triangle_columns, limits).unwrap();
    (edge_columns, triangle_columns, checked.diagram.bars)
}

fn certificate_for(edges: &[(usize, usize, u64)], modulus: u32, threshold: Option<f64>) -> ReductionCertificate {
    let (edge_columns, triangle_columns, bars) = reduce(edges, modulus, threshold);
    let digest = graph_digest(4, edges, threshold.map_or(INFINITY_BITS, bits));
    let bytes = envelope(modulus, 4, threshold, digest, &edge_columns, &triangle_columns, &bars);
    ReductionCertificate::decode(&bytes, CertificateLimits::default()).unwrap()
}

#[test]
fn repair_retains_the_stable_reduction_prefix() {
    let limits = CertificateLimits::default();
    let current = graph([1.0, 2.0, 3.0, 4.0, 5.0, 6.0]);
    let updated = graph([1.0, 2.0, 3.0, 4.0, 6.5, 6.0]);
    for modulus in [2, 3, 5] {
        let certificate = certificate_for(&current, modulus, None);
        let repair = certificate.repair(4, &current, 4, &updated, limits).unwrap();
        assert_eq!(repair.mode(), ReductionRepairMode::SuffixRepaired);
        assert_eq!(repair.work().edge_columns_reused, 6);
        assert_eq!(repair.work().edge_columns_reduced, 0);
        assert!(repair.work().triangle_columns_reused > 0);
        assert!(repair.work().triangle_columns_reduced > 0);
        let actual = repair.certificate().verify(4, &updated, limits).unwrap();
        let (_, _, expected) = reduce(&updated, modulus, None);
        assert_eq!(actual.bars, expected);
    }
}

#[test]
fn repair_rejects_topology_and_threshold_changes() {
    let limits = CertificateLimits::default();
    let current = square();
    let certificate = certificate_for(&current, 2, Some(1.5));
    let mut topology = square();
    topology.remove(4);
    assert_eq!(
        certificate.repair(4, &current, 4, &topology, limits).err().unwrap().message(),
        "reduction repair requires an unchanged listed edge set"
    );
    let crossing = graph([1.0, 2.0, 2.0, 1.0, 2.0, 1.0]);
    assert_eq!(
        certificate.repair(4, &current, 4, &crossing, limits).err().unwrap().message(),
        "reduction repair requires unchanged threshold membership"
    );
    assert_eq!(
        certificate.repair(4, &current, 5, &current, limits).err().unwrap().message(),
        "reduction repair requires an unchanged vertex set"
    );
}

#[test]
fn an_unchanged_order_reuses_every_column() {
    let limits = CertificateLimits::default();
    let current = graph([1.0, 2.0, 3.0, 4.0, 5.0, 6.0]);
    let shifted = graph([1.5, 2.5, 3.5, 4.5, 5.5, 6.5]);
    let repair = certificate_for(&current, 3, None).repair(4, &current, 4, &shifted, limits).unwrap();
    assert_eq!(repair.mode(), ReductionRepairMode::Reused);
    assert_eq!(repair.work().columns_reduced(), 0);
    assert_eq!(repair.work().columns(), repair.work().columns_reused());
    let certificate = repair.into_certificate();
    assert_eq!(certificate.vertex_count(), 4);
    assert_eq!(certificate.threshold(), None);
    let (_, _, expected) = reduce(&shifted, 3, None);
    assert_eq!(certificate.verify(4, &shifted, limits).unwrap().bars, expected);
}

#[test]
fn a_repair_of_a_different_graph_is_refused() {
    let limits = CertificateLimits::default();
    let current = graph([1.0, 2.0, 3.0, 4.0, 5.0, 6.0]);
    let certificate = certificate_for(&current, 3, None);
    let other = graph([1.0, 2.0, 3.0, 4.0, 5.0, 7.0]);
    assert_eq!(
        certificate.repair(4, &other, 4, &current, limits).err().unwrap().message(),
        "thresholded graph binding does not match"
    );
}

#[test]
fn reindexing_carries_a_reduction_whose_guards_hold() {
    let limits = CertificateLimits::default();
    let current = square();
    let certificate = certificate_for(&current, 5, Some(2.5));
    let updated = graph([1.5, 2.0, 1.5, 1.5, 2.0, 1.5]);
    let region = certificate.compile_region(4, &current, limits).unwrap();
    assert!(region.violations(4, &updated).is_empty());
    let reindexed = certificate.reindex(4, &current, 4, &updated, limits).unwrap();
    assert_eq!(reindexed.edge_columns().len(), certificate.edge_columns().len());
    let (_, _, expected) = reduce(&updated, 5, Some(2.5));
    assert_eq!(reindexed.verify(4, &updated, limits).unwrap().bars, expected);
}

#[test]
fn reindexing_refuses_changed_topology_and_membership() {
    let limits = CertificateLimits::default();
    let current = square();
    let certificate = certificate_for(&current, 5, Some(1.5));
    assert_eq!(
        certificate.reindex(4, &current, 3, &current, limits).err().unwrap().message(),
        "reduction reindexing requires an unchanged vertex set"
    );
    let mut fewer = square();
    fewer.remove(0);
    assert_eq!(
        certificate.reindex(4, &current, 4, &fewer, limits).err().unwrap().message(),
        "reduction reindexing requires an unchanged listed edge set"
    );
    let crossing = graph([1.0, 1.25, 1.0, 1.0, 2.0, 1.0]);
    assert_eq!(
        certificate.reindex(4, &current, 4, &crossing, limits).err().unwrap().message(),
        "reduction reindexing requires unchanged threshold membership"
    );
}

#[test]
fn built_certificates_verify_and_print_their_errors() {
    let limits = CertificateLimits::default();
    let current = graph([1.0, 2.0, 3.0, 4.0, 5.0, 6.0]);
    for modulus in [2, 3, 5] {
        let certificate = ReductionCertificate::build(4, &current, None, modulus, limits).unwrap();
        let (_, _, expected) = reduce(&current, modulus, None);
        assert_eq!(certificate.verify(4, &current, limits).unwrap().bars, expected);
    }
    assert!(ReductionCertificate::build(4, &current, None, 4, limits).is_err());
    let certificate = ReductionCertificate::build(4, &current, None, 2, limits).unwrap();
    let error = certificate.repair(4, &current, 5, &current, limits).err().unwrap();
    assert_eq!(error.to_string(), "reduction certificate: reduction repair requires an unchanged vertex set");
}

#[test]
fn a_compiled_region_holds_on_its_own_graph() {
    let limits = CertificateLimits::default();
    for edges in [square(), graph([1.0, 2.0, 3.0, 4.0, 5.0, 6.0])] {
        for threshold in [None, Some(1.5), Some(2.5)] {
            let certificate = certificate_for(&edges, 3, threshold);
            let region = certificate.compile_region(4, &edges, limits).unwrap();
            assert!(region.violations(4, &edges).is_empty());
        }
    }
}

#[test]
fn square_certificate_verifies_over_several_fields() {
    let limits = CertificateLimits::default();
    let input = square();
    for modulus in [2, 3, 5, 7] {
        let certificate = ReductionCertificate::build(4, &input, None, modulus, limits).unwrap();
        let bytes = certificate.encode().unwrap();
        let certificate = ReductionCertificate::decode(&bytes, limits).unwrap();
        assert_eq!(certificate.encode().unwrap(), bytes);
        let diagram = certificate.verify(4, &input, limits).unwrap();
        let (_, _, expected) = reduce(&input, modulus, None);
        assert_eq!(diagram.bars, expected);
    }
}

#[test]
fn changed_basis_term_and_graph_are_rejected() {
    let limits = CertificateLimits::default();
    let input = square();
    let (edge_columns, mut triangle_columns, bars) = reduce(&input, 3, None);
    triangle_columns[0].terms[0].coefficient = 0;
    let digest = graph_digest(4, &input, INFINITY_BITS);
    let bytes = envelope(3, 4, None, digest, &edge_columns, &triangle_columns, &bars);
    match ReductionCertificate::decode(&bytes, limits) {
        Ok(certificate) => assert!(certificate.verify(4, &input, limits).is_err()),
        Err(_) => {}
    }
    let other = vec![(0, 1, bits(1.0)), (1, 2, bits(1.0)), (2, 3, bits(1.0))];
    let certificate = ReductionCertificate::build(4, &input, None, 3, limits).unwrap();
    assert!(certificate.verify(4, &other, limits).is_err());
}

#[test]
fn dependency_frontier_repairs_random_edge_swaps_over_prime_fields() {
    let limits = CertificateLimits::default();
    let mut state = 0x71f3_2c85_9a40_b6d1u64;
    let mut next = || {
        state ^= state << 13;
        state ^= state >> 7;
        state ^= state << 17;
        state
    };
    let mut saw_reuse = false;
    for case in 0..24 {
        let n = 5 + next() as usize % 4;
        let mut endpoints = Vec::new();
        for u in 0..n {
            for v in u + 1..n {
                endpoints.push((u, v));
            }
        }
        let mut order: Vec<_> = (0..endpoints.len()).map(|index| (next(), index)).collect();
        order.sort_unstable();
        let mut rank = vec![0usize; endpoints.len()];
        for (position, &(_, index)) in order.iter().enumerate() {
            rank[index] = position;
        }
        let triplets: Vec<(usize, usize, u64)> = endpoints
            .iter()
            .enumerate()
            .map(|(index, &(u, v))| (u, v, bits(1.0 + rank[index] as f64)))
            .collect();
        let left = endpoints.len() - 2 - next() as usize % 3.min(endpoints.len() - 1);
        let right = left + 1;
        let mut changed = triplets.clone();
        changed[left].2 = triplets[right].2;
        changed[right].2 = triplets[left].2;
        for modulus in [2, 3, 5] {
            let certificate = ReductionCertificate::build(n, &triplets, None, modulus, limits)
                .unwrap_or_else(|error| panic!("case {case}, Z/{modulus}: {}", error.message()));
            let repair = certificate
                .repair(n, &triplets, n, &changed, limits)
                .unwrap_or_else(|error| panic!("case {case}, Z/{modulus}: {}", error.message()));
            saw_reuse |= repair.work().columns_reused() > 0;
            let actual = repair.certificate().verify(n, &changed, limits).unwrap();
            let complex = FilteredComplex::build(n, &changed, INFINITY_BITS, limits).unwrap();
            let edge_columns = reduce_with_basis(&complex.edge_boundaries(modulus), modulus, limits).unwrap();
            let triangle_columns = reduce_with_basis(&complex.triangle_boundaries(modulus), modulus, limits).unwrap();
            let expected = check_reductions(&complex, modulus, &edge_columns, &triangle_columns, limits).unwrap();
            assert_eq!(actual.bars, expected.diagram.bars);
        }
    }
    assert!(saw_reuse);
}

#[test]
fn a_compiled_region_evaluates_to_its_certified_diagram() {
    let limits = CertificateLimits::default();
    for edges in [square(), graph([1.0, 2.0, 3.0, 4.0, 5.0, 6.0])] {
        for modulus in [2, 3, 5] {
            let certificate = ReductionCertificate::build(4, &edges, None, modulus, limits).unwrap();
            let region = certificate.compile_region(4, &edges, limits).unwrap();
            let evaluation = region.evaluate(4, &edges).unwrap();
            let certified = certificate.verify(4, &edges, limits).unwrap();
            assert_eq!(evaluation.diagram().bars, certified.bars);
        }
    }
}

#[test]
fn an_order_keeping_reweighting_evaluates_to_a_fresh_certified_diagram() {
    let limits = CertificateLimits::default();
    let original = graph([1.0, 2.0, 3.0, 4.0, 5.0, 6.0]);
    let doubled = graph([2.0, 4.0, 6.0, 8.0, 10.0, 12.0]);
    for modulus in [2, 3, 5] {
        let certificate = ReductionCertificate::build(4, &original, None, modulus, limits).unwrap();
        let region = certificate.compile_region(4, &original, limits).unwrap();
        assert!(region.violations(4, &doubled).is_empty());
        let evaluation = region.evaluate(4, &doubled).unwrap();
        let fresh = ReductionCertificate::build(4, &doubled, None, modulus, limits).unwrap();
        let certified = fresh.verify(4, &doubled, limits).unwrap();
        assert_eq!(evaluation.diagram().bars, certified.bars);
        assert_ne!(evaluation.diagram().bars, certificate.verify(4, &original, limits).unwrap().bars);
    }
}

#[test]
fn two_certificates_of_one_graph_record_one_diagram() {
    let limits = CertificateLimits::default();
    let current = graph([1.0, 2.0, 3.0, 4.0, 5.0, 6.0]);
    let updated = graph([1.0, 2.0, 3.0, 4.0, 6.5, 6.0]);
    for modulus in [2, 3, 5] {
        let repaired = certificate_for(&current, modulus, None)
            .repair(4, &current, 4, &updated, limits)
            .unwrap()
            .into_certificate();
        let fresh = certificate_for(&updated, modulus, None);
        let from_repair = repaired.verify(4, &updated, limits).unwrap();
        let from_fresh = fresh.verify(4, &updated, limits).unwrap();
        assert_eq!(from_repair.bars, from_fresh.bars);
    }
}

#[test]
fn random_accepted_reweightings_match_exact_reduction() {
    let mut state = 0xa314_56f0_7c2d_98ebu64;
    let mut next = || {
        state ^= state << 13;
        state ^= state >> 7;
        state ^= state << 17;
        state
    };
    let limits = CertificateLimits::default();
    let mut accepted = 0usize;
    for case in 0..48 {
        let n = 5 + next() as usize % 6;
        let mut triplets = Vec::new();
        for u in 0..n {
            for v in u + 1..n {
                if next() % 5 < 3 {
                    triplets.push((u, v, (1 + next() % 20) as f64));
                }
            }
        }
        let input: Vec<(usize, usize, u64)> = triplets.iter().map(|&(u, v, value)| (u, v, bits(value))).collect();
        for modulus in [2, 3, 5] {
            let certificate = ReductionCertificate::build(n, &input, None, modulus, limits).unwrap();
            let region = certificate.compile_region(n, &input, limits).unwrap();
            for attempt in 0..8 {
                let updated: Vec<(usize, usize, u64)> = triplets
                    .iter()
                    .map(|&(u, v, value)| {
                        let delta = (next() % 7) as f64 * 0.01 * (attempt + 1) as f64;
                        (u, v, bits(value + delta))
                    })
                    .collect();
                if region.violations(n, &updated).is_empty() {
                    accepted += 1;
                    let actual = region.evaluate(n, &updated).unwrap();
                    let fresh = ReductionCertificate::build(n, &updated, None, modulus, limits).unwrap();
                    let expected = fresh.verify(n, &updated, limits).unwrap();
                    assert!(
                        actual.diagram().bars == expected.bars,
                        "case {case}, modulus {modulus}, attempt {attempt}"
                    );
                }
            }
        }
    }
    assert!(accepted > 100);
}
