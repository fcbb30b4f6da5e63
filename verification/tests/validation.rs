use holos_tda::classes::validation::{check_cocycle_header, validate_h1_cocycle};
use holos_tda::classes::CocycleTerm;

fn term(u: usize, v: usize, coefficient: u32) -> CocycleTerm {
    CocycleTerm { u, v, coefficient }
}

fn unit_scale() -> u64 {
    1.0f64.to_bits()
}

fn refusal(
    vertex_count: usize,
    active: &[(usize, usize)],
    modulus: u32,
    scale_bits: u64,
    terms: &[CocycleTerm],
) -> String {
    validate_h1_cocycle(vertex_count, active, modulus, scale_bits, terms)
        .unwrap_err()
        .message()
        .to_string()
}

#[test]
fn validator_rejects_a_triangle_defect_and_a_coboundary() {
    let triangle = [(0, 1), (0, 2), (1, 2)];
    let defect = [term(0, 1, 1)];
    assert!(refusal(3, &triangle, 2, unit_scale(), &defect).contains("not closed"));

    let path = [(0, 1), (1, 2)];
    let coboundary = [term(0, 1, 1)];
    assert!(refusal(3, &path, 2, unit_scale(), &coboundary).contains("vertex coboundary"));
}

#[test]
fn square_cycle_class_is_valid_over_several_fields() {
    let square = [(0, 1), (1, 2), (2, 3), (0, 3)];
    for modulus in [2, 3, 5] {
        assert!(validate_h1_cocycle(4, &square, modulus, unit_scale(), &[term(0, 1, 1)]).is_ok());
    }
    let both = [term(0, 1, 1), term(1, 2, 1)];
    assert!(validate_h1_cocycle(4, &square, 5, unit_scale(), &both).is_ok());
}

#[test]
fn filled_triangle_coboundary_is_rejected_modulo_a_large_prime() {
    let triangle = [(0, 1), (1, 2), (0, 2)];
    let cocycle = [term(0, 1, 1), term(0, 2, 1)];
    assert_eq!(
        refusal(3, &triangle, 47, unit_scale(), &cocycle),
        "cocycle is a vertex coboundary at its scale"
    );
}

#[test]
fn open_triangle_is_named_in_the_refusal() {
    let triangle = [(0, 1), (1, 2), (0, 2)];
    assert_eq!(
        refusal(3, &triangle, 5, unit_scale(), &[term(0, 1, 1), term(1, 2, 1)]),
        "cocycle is not closed on triangle (0, 1, 2)"
    );
}

#[test]
fn header_rules_are_checked_in_order() {
    let terms = [term(0, 1, 1)];
    assert_eq!(
        check_cocycle_header(4, unit_scale(), &terms).unwrap_err().message(),
        "modulus must be a prime below 32768, got 4"
    );
    assert_eq!(
        check_cocycle_header(32771, unit_scale(), &terms).unwrap_err().message(),
        "modulus must be a prime below 32768, got 32771"
    );
    for scale in [f64::NAN, f64::INFINITY, -1.0] {
        assert_eq!(
            check_cocycle_header(5, scale.to_bits(), &terms).unwrap_err().message(),
            "cocycle scale must be finite and non-negative"
        );
    }
    assert!(check_cocycle_header(5, (-0.0f64).to_bits(), &terms).is_ok());
    assert_eq!(
        check_cocycle_header(5, unit_scale(), &[]).unwrap_err().message(),
        "cocycle has no terms"
    );
    assert_eq!(
        check_cocycle_header(5, unit_scale(), &[term(0, 1, 2)]).unwrap_err().message(),
        "cocycle first coefficient must be one"
    );
}

#[test]
fn term_rules_name_the_offending_term() {
    let square = [(0, 1), (1, 2), (2, 3), (0, 3)];
    let scale = unit_scale();
    assert_eq!(
        refusal(4, &square, 5, scale, &[term(0, 1, 1), term(2, 2, 1)]),
        "cocycle term 1 has invalid edge (2, 2)"
    );
    assert_eq!(
        refusal(4, &square, 5, scale, &[term(0, 1, 1), term(1, 4, 1)]),
        "cocycle term 1 has invalid edge (1, 4)"
    );
    assert_eq!(
        refusal(4, &square, 5, scale, &[term(0, 1, 1), term(1, 2, 5)]),
        "cocycle term 1 has coefficient 5 outside 1..5"
    );
    assert_eq!(
        refusal(4, &square, 5, scale, &[term(1, 2, 1), term(0, 1, 1)]),
        "cocycle terms are not in strict endpoint order"
    );
    assert_eq!(
        refusal(4, &square, 5, scale, &[term(0, 1, 1), term(0, 1, 1)]),
        "cocycle terms are not in strict endpoint order"
    );
    assert_eq!(
        refusal(4, &square, 5, scale, &[term(0, 1, 1), term(0, 2, 1)]),
        "cocycle term (0, 2) is absent at its scale"
    );
}
