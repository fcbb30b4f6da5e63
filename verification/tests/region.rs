use holos_tda::certificate::checked::check_reductions;
use holos_tda::certificate::complex::FilteredComplex;
use holos_tda::certificate::reduction::reduce_with_basis;
use holos_tda::certificate::verify::graph_digest;
use holos_tda::certificate::{CertificateLimits, ChangeColumn, ReductionCertificate, RegionViolationKind};
use holos_tda::diagram::{Bar, INFINITY_BITS};

fn put(out: &mut Vec<u8>, value: u64, width: usize) {
    for shift in (0..width).rev() {
        out.push((value >> (8 * shift)) as u8);
    }
}

fn bits(value: f64) -> u64 {
    value.to_bits()
}

/// The square 0-1-2-3 with sides `side` and diagonals of length two.
fn square_with(side: f64) -> Vec<(usize, usize, u64)> {
    let s = bits(side);
    let two = bits(2.0);
    vec![(0, 1, s), (0, 2, two), (0, 3, s), (1, 2, s), (1, 3, two), (2, 3, s)]
}

fn envelope(
    modulus: u32,
    vertex_count: usize,
    threshold: f64,
    digest: [u8; 32],
    edges: &[ChangeColumn],
    triangles: &[ChangeColumn],
    bars: &[Bar],
) -> Vec<u8> {
    let mut out = b"HOLOSRED".to_vec();
    put(&mut out, 1, 2);
    out.push(1);
    put(&mut out, modulus as u64, 4);
    put(&mut out, vertex_count as u64, 8);
    out.push(1);
    put(&mut out, threshold.to_bits(), 8);
    put(&mut out, edges.len() as u64, 8);
    put(&mut out, triangles.len() as u64, 8);
    put(&mut out, bars.len() as u64, 8);
    out.extend_from_slice(&digest);
    for column in edges.iter().chain(triangles.iter()) {
        put(&mut out, column.terms.len() as u64, 8);
        for term in &column.terms {
            put(&mut out, term.index as u64, 8);
            put(&mut out, term.coefficient as u64, 4);
        }
    }
    for bar in bars {
        put(&mut out, bar.dim as u64, 8);
        put(&mut out, bar.birth, 8);
        put(&mut out, bar.death, 8);
    }
    out
}

/// The diagram of a fresh checked reduction of `edges` on four vertices.
fn reduce(edges: &[(usize, usize, u64)], modulus: u32, threshold: f64) -> (Vec<ChangeColumn>, Vec<ChangeColumn>, Vec<Bar>) {
    let limits = CertificateLimits::default();
    let complex = FilteredComplex::build(4, edges, threshold.to_bits(), limits).unwrap();
    let edge_columns = reduce_with_basis(&complex.edge_boundaries(modulus), modulus, limits).unwrap();
    let triangle_columns = reduce_with_basis(&complex.triangle_boundaries(modulus), modulus, limits).unwrap();
    let checked = check_reductions(&complex, modulus, &edge_columns, &triangle_columns, limits).unwrap();
    (edge_columns, triangle_columns, checked.diagram.bars)
}

fn square_certificate(modulus: u32) -> ReductionCertificate {
    let threshold = 2.5;
    let edges = square_with(1.0);
    let (edge_columns, triangle_columns, bars) = reduce(&edges, modulus, threshold);
    let digest = graph_digest(4, &edges, bits(threshold));
    let bytes = envelope(modulus, 4, threshold, digest, &edge_columns, &triangle_columns, &bars);
    ReductionCertificate::decode(&bytes, CertificateLimits::default()).unwrap()
}

#[test]
fn a_compiled_region_fixes_the_graph_and_reduces_its_guards() {
    let limits = CertificateLimits::default();
    let region = square_certificate(5).compile_region(4, &square_with(1.0), limits).unwrap();
    assert_eq!(region.vertex_count(), 4);
    assert_eq!(region.threshold(), Some(bits(2.5)));
    assert!(!region.guards().is_empty());
    assert!(region.guards().len() <= region.complete_guards().len());
    for guard in region.guards() {
        assert!(region.complete_guards().iter().any(|other| other.earlier() == guard.earlier() && other.later() == guard.later()));
    }
    let mut sorted = region.complete_guards().to_vec();
    sorted.sort();
    sorted.dedup();
    assert_eq!(sorted.len(), region.complete_guards().len());
}

#[test]
fn compiling_against_another_graph_is_refused() {
    let limits = CertificateLimits::default();
    let certificate = square_certificate(5);
    let moved = square_with(1.25);
    assert_eq!(
        certificate.compile_region(4, &moved, limits).err().unwrap().message(),
        "thresholded graph binding does not match"
    );
    assert!(certificate.compile_region(5, &square_with(1.0), limits).is_err());
}

#[test]
fn the_certified_graph_evaluates_to_its_own_diagram() {
    let limits = CertificateLimits::default();
    let region = square_certificate(5).compile_region(4, &square_with(1.0), limits).unwrap();
    assert!(region.violations(4, &square_with(1.0)).is_empty());
    let evaluation = region.evaluate(4, &square_with(1.0)).unwrap();
    let one = bits(1.0);
    let two = bits(2.0);
    assert_eq!(
        evaluation.diagram().bars,
        vec![
            Bar { dim: 0, birth: 0, death: one },
            Bar { dim: 0, birth: 0, death: one },
            Bar { dim: 0, birth: 0, death: one },
            Bar { dim: 0, birth: 0, death: INFINITY_BITS },
            Bar { dim: 1, birth: one, death: two },
        ]
    );
    assert_eq!(evaluation.guards_checked(), region.guards().len());
    let pairs = evaluation.h1_critical_pairs();
    assert_eq!(pairs.len(), 1);
    assert_eq!(pairs[0].0, Bar { dim: 1, birth: one, death: two });
    assert_eq!(pairs[0].1.birth.vertices, vec![0, 1]);
    assert_eq!(pairs[0].1.birth.value, one);
    let death = pairs[0].1.death.as_ref().unwrap();
    assert_eq!(death.vertices.len(), 3);
    assert_eq!(death.value, two);
}

#[test]
fn accepted_reweighting_matches_a_fresh_reduction() {
    let limits = CertificateLimits::default();
    for modulus in [2u32, 3, 5, 7] {
        let region = square_certificate(modulus).compile_region(4, &square_with(1.0), limits).unwrap();
        for side in [0.5, 1.1, 1.5, 1.9] {
            let updated = square_with(side);
            assert!(region.violations(4, &updated).is_empty(), "modulus {modulus}, side {side}");
            let evaluation = region.evaluate(4, &updated).unwrap();
            let (_, _, expected) = reduce(&updated, modulus, 2.5);
            assert_eq!(evaluation.diagram().bars, expected, "modulus {modulus}, side {side}");
        }
    }
}

#[test]
fn a_changed_vertex_count_ends_the_region() {
    let limits = CertificateLimits::default();
    let region = square_certificate(3).compile_region(4, &square_with(1.0), limits).unwrap();
    let violations = region.violations(5, &square_with(1.0));
    assert_eq!(violations.len(), 1);
    assert_eq!(violations[0].kind(), RegionViolationKind::VertexSetChanged);
    assert!(violations[0].first().is_none());
    assert_eq!(
        region.evaluate(5, &square_with(1.0)).err().unwrap().message(),
        "certified region ended at VertexSetChanged"
    );
}

#[test]
fn a_changed_edge_list_names_the_missing_edge() {
    let limits = CertificateLimits::default();
    let region = square_certificate(3).compile_region(4, &square_with(1.0), limits).unwrap();
    let mut fewer = square_with(1.0);
    fewer.remove(1);
    let violations = region.violations(4, &fewer);
    assert_eq!(violations.len(), 1);
    assert_eq!(violations[0].kind(), RegionViolationKind::EdgeSetChanged);
    assert_eq!(violations[0].first().unwrap().vertices(), &[0, 2]);
    assert_eq!(
        region.evaluate(4, &fewer).err().unwrap().message(),
        "certified region ended at EdgeSetChanged"
    );
}

#[test]
fn an_edge_crossing_the_threshold_is_reported() {
    let limits = CertificateLimits::default();
    let region = square_certificate(3).compile_region(4, &square_with(1.0), limits).unwrap();
    let mut crossed = square_with(1.0);
    crossed[4].2 = bits(3.0);
    let violations = region.violations(4, &crossed);
    assert_eq!(violations.len(), 1);
    assert_eq!(violations[0].kind(), RegionViolationKind::ThresholdCrossing);
    assert_eq!(violations[0].first().unwrap().vertices(), &[1, 3]);
    assert_eq!(
        region.evaluate(4, &crossed).err().unwrap().message(),
        "certified region ended at ThresholdCrossing"
    );
}

#[test]
fn a_reversed_comparison_fails_its_guard() {
    let limits = CertificateLimits::default();
    let region = square_certificate(3).compile_region(4, &square_with(1.0), limits).unwrap();
    let mut reordered = square_with(1.0);
    reordered[2].2 = bits(2.25);
    let violations = region.violations(4, &reordered);
    assert_eq!(violations.len(), 4);
    for violation in &violations {
        assert_eq!(violation.kind(), RegionViolationKind::GuardFailed);
        let index = violation.guard_index().unwrap();
        let guard = &region.guards()[index];
        assert_eq!(violation.first().unwrap(), guard.earlier());
        assert_eq!(violation.second().unwrap(), guard.later());
    }
    assert_eq!(
        region.evaluate(4, &reordered).err().unwrap().message(),
        "certified region ended at GuardFailed"
    );
}

#[test]
fn indexed_h1_evaluation_reads_through_positions() {
    let limits = CertificateLimits::default();
    let region = square_certificate(5).compile_region(4, &square_with(1.0), limits).unwrap();
    let lengths: Vec<u64> = square_with(1.5).iter().map(|edge| edge.2).collect();
    let mut shuffled = lengths.clone();
    shuffled.reverse();
    let positions: Vec<usize> = (0..lengths.len()).map(|index| lengths.len() - 1 - index).collect();
    assert_eq!(
        region.evaluate_h1_indexed(&shuffled, &positions).unwrap(),
        vec![Bar { dim: 1, birth: bits(1.5), death: bits(2.0) }]
    );
    let mut reordered = lengths.clone();
    reordered[2] = bits(2.25);
    let identity: Vec<usize> = (0..lengths.len()).collect();
    assert_eq!(
        region.evaluate_h1_indexed(&reordered, &identity).err().unwrap().message(),
        "certified region ended at GuardFailed"
    );
}

#[test]
fn every_accepted_single_edge_change_matches_a_fresh_reduction() {
    let limits = CertificateLimits::default();
    let mut accepted = 0usize;
    let mut refused = 0usize;
    for modulus in [2u32, 3, 5] {
        let region = square_certificate(modulus).compile_region(4, &square_with(1.0), limits).unwrap();
        for edge in 0..6 {
            for value in [0.25, 0.5, 1.5, 2.0, 2.25] {
                let mut updated = square_with(1.0);
                updated[edge].2 = bits(value);
                if region.violations(4, &updated).is_empty() {
                    accepted += 1;
                    let evaluation = region.evaluate(4, &updated).unwrap();
                    let (_, _, expected) = reduce(&updated, modulus, 2.5);
                    assert_eq!(evaluation.diagram().bars, expected, "modulus {modulus}, edge {edge}, value {value}");
                } else {
                    refused += 1;
                    assert!(region.evaluate(4, &updated).is_err());
                }
            }
        }
    }
    assert!(accepted > 0 && refused > 0);
}
