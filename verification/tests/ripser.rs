use holos_tda::circular::ripser::cocycle_from_ripser_terms;

fn bits(value: f64) -> u64 {
    value.to_bits()
}

fn graph() -> Vec<(usize, usize, u64)> {
    vec![(0, 2, bits(2.0)), (0, 3, bits(1.0)), (1, 2, bits(1.0))]
}

#[test]
fn ripser_terms_normalize_orientation_and_scale() {
    let cocycle = cocycle_from_ripser_terms(4, &graph(), 5, bits(1.0), &[(3, 0, 2), (1, 2, 4), (0, 2, 3)]).unwrap();
    assert_eq!(cocycle.terms[0].coefficient, 1);
    assert_eq!((cocycle.terms[0].u, cocycle.terms[0].v), (0, 3));
    assert_eq!(cocycle.terms.len(), 2);
}

#[test]
fn reversed_terms_change_sign_before_normalizing() {
    let cocycle = cocycle_from_ripser_terms(4, &graph(), 5, bits(1.0), &[(3, 0, 2), (1, 2, 4), (0, 2, 3)]).unwrap();
    assert_eq!(cocycle.modulus, 5);
    assert_eq!(cocycle.scale, bits(1.0));
    assert_eq!((cocycle.terms[1].u, cocycle.terms[1].v, cocycle.terms[1].coefficient), (1, 2, 3));
}

#[test]
fn repeated_terms_add_and_unlisted_pairs_drop() {
    let cocycle =
        cocycle_from_ripser_terms(4, &graph(), 7, bits(2.0), &[(1, 2, 3), (2, 1, 1), (0, 1, 5), (0, 2, 4)]).unwrap();
    assert_eq!(cocycle.terms.len(), 2);
    assert_eq!((cocycle.terms[0].u, cocycle.terms[0].v, cocycle.terms[0].coefficient), (0, 2, 1));
    assert_eq!((cocycle.terms[1].u, cocycle.terms[1].v, cocycle.terms[1].coefficient), (1, 2, 4));
}

#[test]
fn cancelled_and_filtered_terms_are_zero() {
    assert_eq!(
        cocycle_from_ripser_terms(4, &graph(), 5, bits(1.0), &[(0, 3, 2), (3, 0, 2)]).unwrap_err().message(),
        "Ripser cocycle is zero"
    );
    assert_eq!(
        cocycle_from_ripser_terms(4, &graph(), 5, bits(1.0), &[(0, 2, 1)]).unwrap_err().message(),
        "Ripser cocycle is zero"
    );
}

#[test]
fn invalid_fields_scales_and_terms_are_refused() {
    assert_eq!(
        cocycle_from_ripser_terms(4, &graph(), 4, bits(1.0), &[(0, 3, 1)]).unwrap_err().message(),
        "circular cocycle modulus must be a supported prime"
    );
    assert_eq!(
        cocycle_from_ripser_terms(4, &graph(), 32771, bits(1.0), &[(0, 3, 1)]).unwrap_err().message(),
        "circular cocycle modulus must be a supported prime"
    );
    for scale in [-1.0, f64::INFINITY, f64::NAN] {
        assert_eq!(
            cocycle_from_ripser_terms(4, &graph(), 5, bits(scale), &[(0, 3, 1)]).unwrap_err().message(),
            "circular cocycle scale must be finite and non-negative"
        );
    }
    assert_eq!(
        cocycle_from_ripser_terms(4, &graph(), 5, bits(-0.0), &[(0, 3, 1)]).unwrap_err().message(),
        "Ripser cocycle is zero"
    );
    for term in [(1, 1, 1), (0, 4, 1), (0, 3, 5)] {
        assert_eq!(
            cocycle_from_ripser_terms(4, &graph(), 5, bits(1.0), &[(0, 3, 1), term]).unwrap_err().message(),
            "Ripser cocycle term is not a valid oriented edge coefficient"
        );
    }
}
