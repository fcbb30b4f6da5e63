use holos_tda::circular::lift::{centered_integral_lift, check_integral_lift, infer_field_multiplier};
use holos_tda::circular::{
    check_integer_triangle_closure, coefficient, integral_coefficient, IntegralCocycleTerm,
};
use holos_tda::graph::{active_adjacency, contains_sorted};
use holos_tda::classes::CocycleTerm;

fn cycle_edges(vertices: usize) -> Vec<(usize, usize)> {
    let mut edges: Vec<(usize, usize)> = (0..vertices - 1).map(|u| (u, u + 1)).collect();
    edges.push((0, vertices - 1));
    edges
}

fn triangle_edges() -> Vec<(usize, usize)> {
    vec![(0, 1), (0, 2), (1, 2)]
}

fn integral(u: usize, v: usize, coefficient: i64) -> IntegralCocycleTerm {
    IntegralCocycleTerm { u, v, coefficient }
}

fn field(u: usize, v: usize, coefficient: u32) -> CocycleTerm {
    CocycleTerm { u, v, coefficient }
}

fn message(result: Result<(), holos_tda::error::Error>) -> String {
    result.unwrap_err().message().to_string()
}

#[test]
fn adjacency_lists_are_sorted_and_symmetric() {
    let adjacency = active_adjacency(4, &[(2, 3), (0, 3), (1, 2), (0, 1)]);
    assert_eq!(adjacency, vec![vec![1, 3], vec![0, 2], vec![1, 3], vec![0, 2]]);
    assert!(contains_sorted(&adjacency[0], 3));
    assert!(!contains_sorted(&adjacency[0], 2));
}

#[test]
fn oriented_coefficients_flip_sign() {
    let terms = [integral(0, 1, 3), integral(1, 2, -2)];
    assert_eq!(integral_coefficient(&terms, 1, 2), -2);
    assert_eq!(integral_coefficient(&terms, 0, 2), 0);
    assert_eq!(coefficient(&terms, 1, 0), -3);
    assert_eq!(coefficient(&terms, 2, 1), 2);
}

#[test]
fn closed_and_open_triangles_are_told_apart() {
    let closed = [integral(0, 1, 1), integral(0, 2, 1)];
    assert!(check_integer_triangle_closure(3, &triangle_edges(), &closed).is_ok());
    let open = [integral(0, 1, 1)];
    assert_eq!(
        message(check_integer_triangle_closure(3, &triangle_edges(), &open)),
        "integral cocycle is not closed on triangle (0, 1, 2)"
    );
    assert!(check_integer_triangle_closure(8, &cycle_edges(8), &open).is_ok());
}

#[test]
fn supplied_nonclosed_lift_is_refused() {
    let source = [field(0, 1, 1)];
    let lift = [integral(0, 1, 1)];
    let error = message(check_integral_lift(3, &triangle_edges(), 5, &source, 1, &lift));
    assert!(error.starts_with("integral cocycle is not closed on triangle ("));
}

#[test]
fn integral_lift_errors_come_in_rule_order() {
    let edges = cycle_edges(4);
    let source = [field(0, 1, 1)];
    assert_eq!(
        message(check_integral_lift(4, &edges, 5, &source, 0, &[integral(0, 1, 1)])),
        "circular field multiplier must be nonzero and below the modulus"
    );
    assert_eq!(
        message(check_integral_lift(4, &edges, 5, &source, 5, &[integral(0, 1, 1)])),
        "circular field multiplier must be nonzero and below the modulus"
    );
    assert_eq!(
        message(check_integral_lift(4, &edges, 5, &source, 1, &[])),
        "integral cocycle terms are empty or not canonical"
    );
    assert_eq!(
        message(check_integral_lift(
            4,
            &edges,
            5,
            &source,
            1,
            &[integral(1, 2, 1), integral(0, 1, 1)]
        )),
        "integral cocycle terms are empty or not canonical"
    );
    assert_eq!(
        message(check_integral_lift(4, &edges, 5, &source, 1, &[integral(0, 2, 1)])),
        "integral cocycle has an invalid active-edge term"
    );
    assert_eq!(
        message(check_integral_lift(
            4,
            &edges,
            5,
            &source,
            1,
            &[integral(0, 1, (1i64 << 31) + 1)]
        )),
        "integral cocycle has an invalid active-edge term"
    );
    assert_eq!(
        message(check_integral_lift(4, &edges, 5, &source, 2, &[integral(0, 1, 1)])),
        "integral cocycle does not reduce to the multiplied field cocycle"
    );
    assert!(check_integral_lift(4, &edges, 5, &source, 2, &[integral(0, 1, -3)]).is_ok());
    assert!(check_integral_lift(4, &edges, 5, &source, 1, &[integral(0, 1, 6)]).is_ok());
}

#[test]
fn field_multiplier_is_inferred_from_the_first_source_edge() {
    let source = [field(0, 1, 3), field(1, 2, 1)];
    // 4 = 3 * 3 mod 5, so the multiplier is 3.
    assert_eq!(infer_field_multiplier(5, &source, &[integral(0, 1, 4)]).unwrap(), 3);
    assert_eq!(infer_field_multiplier(5, &source, &[integral(0, 1, -1)]).unwrap(), 3);
    assert_eq!(
        infer_field_multiplier(5, &source, &[integral(1, 2, 4)]).unwrap_err().message(),
        "integral cocycle has no nonzero field multiplier"
    );
    assert!(infer_field_multiplier(5, &source, &[integral(0, 1, 10)]).is_err());
}

#[test]
fn centered_lift_of_a_cycle_uses_the_unit_multiplier() {
    let source = [field(0, 1, 1)];
    let (multiplier, terms) = centered_integral_lift(8, &cycle_edges(8), 47, &source).unwrap();
    assert_eq!(multiplier, 1);
    assert_eq!(terms, vec![integral(0, 1, 1)]);
}

#[test]
fn centered_values_wrap_above_half_the_modulus() {
    let source = [field(0, 1, 1), field(1, 2, 4)];
    let (multiplier, terms) = centered_integral_lift(4, &cycle_edges(4), 5, &source).unwrap();
    assert_eq!(multiplier, 1);
    assert_eq!(terms, vec![integral(0, 1, 1), integral(1, 2, -1)]);
}

#[test]
fn an_open_triangle_has_no_centered_lift() {
    let source = [field(0, 1, 1)];
    let error = centered_integral_lift(3, &triangle_edges(), 5, &source).unwrap_err();
    assert_eq!(
        error.message(),
        "no centered scalar integral lift is closed; supply a checked integral lift"
    );
}
