use holos_tda::certificate::checked::check_reductions;
use holos_tda::certificate::complex::{filtered_edges, FilteredComplex};
use holos_tda::certificate::reduction::reduce_with_basis;
use holos_tda::certificate::verify::graph_digest;
use holos_tda::certificate::{CertificateLimits, ChangeColumn, ReductionCertificate};
use holos_tda::diagram::{Bar, INFINITY_BITS};

fn put(out: &mut Vec<u8>, value: u64, width: usize) {
    for shift in (0..width).rev() {
        out.push((value >> (8 * shift)) as u8);
    }
}

/// The square 0-1-2-3 with unit sides and diagonals of length two.
fn square() -> Vec<(usize, usize, u64)> {
    let one = 1.0f64.to_bits();
    let two = 2.0f64.to_bits();
    vec![(0, 1, one), (0, 2, two), (0, 3, one), (1, 2, one), (1, 3, two), (2, 3, one)]
}

fn envelope(
    modulus: u32,
    vertex_count: usize,
    threshold: f64,
    digest: [u8; 32],
    edges: &[ChangeColumn],
    triangles: &[ChangeColumn],
    bars: &[Bar],
) -> Vec<u8> {
    let mut out = b"HOLOSRED".to_vec();
    put(&mut out, 1, 2);
    out.push(1);
    put(&mut out, modulus as u64, 4);
    put(&mut out, vertex_count as u64, 8);
    out.push(1);
    put(&mut out, threshold.to_bits(), 8);
    put(&mut out, edges.len() as u64, 8);
    put(&mut out, triangles.len() as u64, 8);
    put(&mut out, bars.len() as u64, 8);
    out.extend_from_slice(&digest);
    for column in edges.iter().chain(triangles.iter()) {
        put(&mut out, column.terms.len() as u64, 8);
        for term in &column.terms {
            put(&mut out, term.index as u64, 8);
            put(&mut out, term.coefficient as u64, 4);
        }
    }
    for bar in bars {
        put(&mut out, bar.dim as u64, 8);
        put(&mut out, bar.birth, 8);
        put(&mut out, bar.death, 8);
    }
    out
}

fn expected_square_bars() -> Vec<Bar> {
    let one = 1.0f64.to_bits();
    let two = 2.0f64.to_bits();
    vec![
        Bar { dim: 0, birth: 0, death: one },
        Bar { dim: 0, birth: 0, death: one },
        Bar { dim: 0, birth: 0, death: one },
        Bar { dim: 0, birth: 0, death: INFINITY_BITS },
        Bar { dim: 1, birth: one, death: two },
    ]
}

struct Certified {
    edges: Vec<ChangeColumn>,
    triangles: Vec<ChangeColumn>,
    bars: Vec<Bar>,
}

fn certify(modulus: u32, threshold: f64) -> Certified {
    let limits = CertificateLimits::default();
    let complex = FilteredComplex::build(4, &square(), threshold.to_bits(), limits).unwrap();
    let edges = reduce_with_basis(&complex.edge_boundaries(modulus), modulus, limits).unwrap();
    let triangles = reduce_with_basis(&complex.triangle_boundaries(modulus), modulus, limits).unwrap();
    let checked = check_reductions(&complex, modulus, &edges, &triangles, limits).unwrap();
    Certified { edges, triangles, bars: checked.diagram.bars }
}

#[test]
fn edges_are_ordered_by_length_then_reverse_rank() {
    let edges = filtered_edges(&square(), 2.0f64.to_bits(), 10).unwrap();
    let order: Vec<_> = edges.iter().map(|edge| edge.vertices).collect();
    assert_eq!(order, vec![(2, 3), (0, 3), (1, 2), (0, 1), (1, 3), (0, 2)]);
    let short = filtered_edges(&square(), 1.0f64.to_bits(), 10).unwrap();
    assert_eq!(short.len(), 4);
    assert_eq!(
        filtered_edges(&square(), 2.0f64.to_bits(), 5).unwrap_err().message(),
        "6 filtered edges exceed the limit 5"
    );
}

#[test]
fn the_square_has_four_triangles_at_its_diagonals() {
    let limits = CertificateLimits::default();
    let complex = FilteredComplex::build(4, &square(), 2.0f64.to_bits(), limits).unwrap();
    let mut triangles: Vec<_> = complex.triangles.iter().map(|t| t.vertices).collect();
    assert!(complex.triangles.iter().all(|t| t.value == 2.0f64.to_bits()));
    triangles.sort();
    assert_eq!(triangles, vec![(0, 1, 2), (0, 1, 3), (0, 2, 3), (1, 2, 3)]);
    let mut tight = limits;
    tight.max_triangles = 3;
    assert_eq!(
        FilteredComplex::build(4, &square(), 2.0f64.to_bits(), tight).err().unwrap().message(),
        "triangle count exceeds the limit 3"
    );
    let open = FilteredComplex::build(4, &square(), 1.5f64.to_bits(), limits).unwrap();
    assert!(open.triangles.is_empty());
}

#[test]
fn the_square_diagram_is_one_loop_filled_at_the_diagonals() {
    for modulus in [2u32, 3, 5, 7] {
        assert_eq!(certify(modulus, 2.5).bars, expected_square_bars(), "modulus {modulus}");
    }
    let open = certify(5, 1.5);
    let one = 1.0f64.to_bits();
    assert_eq!(open.bars.last().unwrap(), &Bar { dim: 1, birth: one, death: INFINITY_BITS });
}

#[test]
fn a_sound_certificate_verifies_and_tampering_is_refused() {
    let limits = CertificateLimits::default();
    let threshold = 2.5f64;
    let certified = certify(5, threshold);
    let digest = graph_digest(4, &square(), threshold.to_bits());
    let bytes = envelope(5, 4, threshold, digest, &certified.edges, &certified.triangles, &certified.bars);
    let certificate = ReductionCertificate::decode(&bytes, limits).unwrap();
    assert_eq!(certificate.verify(4, &square(), limits).unwrap().bars, expected_square_bars());

    let mut moved = square();
    moved[0].2 = 1.25f64.to_bits();
    assert_eq!(
        certificate.verify(4, &moved, limits).unwrap_err().message(),
        "thresholded graph binding does not match"
    );
    assert_eq!(
        certificate.verify(5, &square(), limits).unwrap_err().message(),
        "input has 5 vertices, certificate records 4"
    );

    let mut wrong_bars = certified.bars.clone();
    wrong_bars[4].death = 3.0f64.to_bits();
    let bytes = envelope(5, 4, threshold, digest, &certified.edges, &certified.triangles, &wrong_bars);
    let certificate = ReductionCertificate::decode(&bytes, limits).unwrap();
    assert_eq!(
        certificate.verify(4, &square(), limits).unwrap_err().message(),
        "recorded diagram differs from the checked reduction"
    );

    let mut wrong_columns = certified.edges.clone();
    wrong_columns.swap(0, 1);
    let bytes = envelope(5, 4, threshold, digest, &wrong_columns, &certified.triangles, &certified.bars);
    if let Ok(certificate) = ReductionCertificate::decode(&bytes, limits) {
        assert!(certificate.verify(4, &square(), limits).is_err());
    }
}
