use holos_tda::certificate::verify::checked_threshold;
use holos_tda::certificate::wire::check_bars;
use holos_tda::certificate::{CertificateLimits, CertificateTerm, ReductionCertificate};
use holos_tda::diagram::{Bar, Diagram, INFINITY_BITS};

fn put(out: &mut Vec<u8>, value: u64, width: usize) {
    for shift in (0..width).rev() {
        out.push((value >> (8 * shift)) as u8);
    }
}

struct Envelope {
    version: u16,
    codec: u8,
    modulus: u32,
    vertex_count: u64,
    threshold_tag: u8,
    threshold: u64,
    edges: Vec<Vec<(u64, u32)>>,
    triangles: Vec<Vec<(u64, u32)>>,
    bars: Vec<(u64, u64, u64)>,
    digest: [u8; 32],
}

fn sample() -> Envelope {
    let one = 1.0f64.to_bits();
    Envelope {
        version: 1,
        codec: 1,
        modulus: 3,
        vertex_count: 4,
        threshold_tag: 1,
        threshold: 2.5f64.to_bits(),
        edges: vec![
            vec![(0, 1)],
            vec![(1, 1)],
            vec![(2, 1)],
            vec![(0, 2), (1, 2), (2, 2), (3, 1)],
        ],
        triangles: vec![],
        bars: vec![
            (0, 0, one),
            (0, 0, one),
            (0, 0, one),
            (0, 0, INFINITY_BITS),
            (1, one, INFINITY_BITS),
        ],
        digest: [7u8; 32],
    }
}

fn bytes_of(envelope: &Envelope) -> Vec<u8> {
    let mut out = b"HOLOSRED".to_vec();
    put(&mut out, envelope.version as u64, 2);
    out.push(envelope.codec);
    put(&mut out, envelope.modulus as u64, 4);
    put(&mut out, envelope.vertex_count, 8);
    out.push(envelope.threshold_tag);
    if envelope.threshold_tag == 1 {
        put(&mut out, envelope.threshold, 8);
    }
    put(&mut out, envelope.edges.len() as u64, 8);
    put(&mut out, envelope.triangles.len() as u64, 8);
    put(&mut out, envelope.bars.len() as u64, 8);
    out.extend_from_slice(&envelope.digest);
    for column in envelope.edges.iter().chain(envelope.triangles.iter()) {
        put(&mut out, column.len() as u64, 8);
        for &(index, coefficient) in column {
            put(&mut out, index, 8);
            put(&mut out, coefficient as u64, 4);
        }
    }
    for &(dim, birth, death) in &envelope.bars {
        put(&mut out, dim, 8);
        put(&mut out, birth, 8);
        put(&mut out, death, 8);
    }
    out
}

fn decode_error(envelope: &Envelope) -> String {
    ReductionCertificate::decode(&bytes_of(envelope), CertificateLimits::default())
        .unwrap_err()
        .message()
        .to_string()
}

#[test]
fn decoded_certificate_encodes_to_the_same_bytes() {
    let bytes = bytes_of(&sample());
    let certificate = ReductionCertificate::decode(&bytes, CertificateLimits::default()).unwrap();
    assert_eq!(certificate.encode().unwrap(), bytes);
    assert_eq!(certificate.vertex_count(), 4);
    assert_eq!(certificate.modulus(), 3);
    assert_eq!(certificate.threshold(), Some(2.5f64.to_bits()));
    assert_eq!(certificate.graph_digest(), &[7u8; 32]);
    assert_eq!(certificate.edge_columns().len(), 4);
    assert_eq!(
        certificate.edge_columns()[3].terms[3],
        CertificateTerm { index: 3, coefficient: 1 }
    );
    assert!(certificate.triangle_columns().is_empty());
    assert_eq!(certificate.diagram().bars.len(), 5);
    let again = ReductionCertificate::decode(&certificate.encode().unwrap(), CertificateLimits::default())
        .unwrap();
    assert_eq!(again.encode().unwrap(), bytes);
}

#[test]
fn certificate_without_threshold_round_trips() {
    let mut envelope = sample();
    envelope.threshold_tag = 0;
    let bytes = bytes_of(&envelope);
    let certificate = ReductionCertificate::decode(&bytes, CertificateLimits::default()).unwrap();
    assert_eq!(certificate.threshold(), None);
    assert_eq!(certificate.encode().unwrap(), bytes);
}

#[test]
fn header_errors_are_reported() {
    let mut bytes = bytes_of(&sample());
    bytes[0] = b'X';
    let error = ReductionCertificate::decode(&bytes, CertificateLimits::default()).unwrap_err();
    assert_eq!(error.message(), "wrong magic bytes");

    let mut envelope = sample();
    envelope.version = 2;
    assert_eq!(decode_error(&envelope), "unsupported wire version 2");

    let mut envelope = sample();
    envelope.codec = 0;
    assert_eq!(decode_error(&envelope), "unsupported scalar codec 0");

    let mut envelope = sample();
    envelope.threshold_tag = 2;
    assert_eq!(decode_error(&envelope), "unknown optional-float tag 2");

    let mut envelope = sample();
    envelope.modulus = 4;
    assert_eq!(decode_error(&envelope), "modulus must be a prime below 32768, got 4");

    let mut envelope = sample();
    envelope.threshold = (-1.0f64).to_bits();
    assert_eq!(decode_error(&envelope), "threshold must be non-negative");

    let mut envelope = sample();
    envelope.threshold = f64::NAN.to_bits();
    assert_eq!(decode_error(&envelope), "threshold must be non-negative");
}

#[test]
fn negative_zero_threshold_is_accepted() {
    assert_eq!(checked_threshold(Some((-0.0f64).to_bits())), Ok((-0.0f64).to_bits()));
    assert_eq!(checked_threshold(None), Ok(INFINITY_BITS));
    assert!(checked_threshold(Some(f64::NEG_INFINITY.to_bits())).is_err());
}

#[test]
fn limits_are_enforced_while_decoding() {
    let bytes = bytes_of(&sample());
    let mut limits = CertificateLimits::default();
    limits.max_bytes = 10;
    let error = ReductionCertificate::decode(&bytes, limits).unwrap_err();
    assert_eq!(error.message(), format!("{} bytes exceed the limit 10", bytes.len()));

    let mut limits = CertificateLimits::default();
    limits.max_vertices = 3;
    let error = ReductionCertificate::decode(&bytes, limits).unwrap_err();
    assert_eq!(error.message(), "vertex count 4 exceeds the limit 3");

    let mut limits = CertificateLimits::default();
    limits.max_terms = 6;
    let error = ReductionCertificate::decode(&bytes, limits).unwrap_err();
    assert_eq!(error.message(), "7 terms exceed the limit 6");
}

#[test]
fn truncated_and_padded_envelopes_are_rejected() {
    let mut bytes = bytes_of(&sample());
    bytes.push(0);
    let error = ReductionCertificate::decode(&bytes, CertificateLimits::default()).unwrap_err();
    assert_eq!(error.message(), "1 trailing bytes after the envelope");
    bytes.truncate(bytes.len() - 2);
    let error = ReductionCertificate::decode(&bytes, CertificateLimits::default()).unwrap_err();
    assert!(error.message().starts_with("truncated at byte"), "{}", error.message());

    let mut envelope = sample();
    envelope.edges.clear();
    let mut bytes = bytes_of(&envelope);
    // Claim a thousand edge columns that the envelope does not hold.
    let count_offset = 8 + 2 + 1 + 4 + 8 + 9;
    bytes[count_offset + 6] = 0x03;
    bytes[count_offset + 7] = 0xe8;
    let error = ReductionCertificate::decode(&bytes, CertificateLimits::default()).unwrap_err();
    assert!(error.message().starts_with("record counts need at least 20"), "{}", error.message());
}

#[test]
fn decoded_columns_must_be_valid() {
    let mut envelope = sample();
    envelope.edges[1] = vec![(0, 1)];
    assert_eq!(decode_error(&envelope), "decoded change column 1 is not unit triangular");
    let mut envelope = sample();
    envelope.edges[3][0].1 = 3;
    assert_eq!(decode_error(&envelope), "decoded change column 3 has invalid coefficient 3");
}

#[test]
fn bars_must_be_canonical_and_ordered() {
    let one = 1.0f64.to_bits();
    let mut envelope = sample();
    envelope.bars.swap(0, 4);
    assert_eq!(decode_error(&envelope), "bars are not in canonical order");
    let mut envelope = sample();
    envelope.bars[1] = (2, 0, one);
    assert_eq!(decode_error(&envelope), "bar 1 is not canonical");
    let mut envelope = sample();
    envelope.bars[0] = (0, one, one);
    assert_eq!(decode_error(&envelope), "bar 0 is not canonical");
    let diagram = Diagram {
        bars: vec![Bar { dim: 0, birth: (-0.0f64).to_bits(), death: one }],
    };
    assert_eq!(check_bars(&diagram, 10).unwrap_err().message(), "bar 0 is not canonical");
    let diagram = Diagram {
        bars: vec![Bar { dim: 0, birth: 0, death: one }; 3],
    };
    assert_eq!(check_bars(&diagram, 2).unwrap_err().message(), "3 bars exceed the limit 2");
    assert!(check_bars(&diagram, 3).is_ok());
}

#[test]
fn short_random_envelopes_are_rejected_without_panic() {
    let mut state = 0x2545_f491_4f6c_dd1du64;
    for length in 0..300usize {
        let mut bytes = Vec::with_capacity(length);
        for _ in 0..length {
            state ^= state << 13;
            state ^= state >> 7;
            state ^= state << 17;
            bytes.push(state as u8);
        }
        assert!(ReductionCertificate::decode(&bytes, CertificateLimits::default()).is_err());
    }
}
