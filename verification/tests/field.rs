use holos_tda::field::{gcd, inverse_mod, is_prime, MODULUS_LIMIT};

#[test]
fn primes_below_fifty_are_recognized() {
    let primes: Vec<u64> = (0..50).filter(|&n| is_prime(n)).collect();
    assert_eq!(primes, vec![2, 3, 5, 7, 11, 13, 17, 19, 23, 29, 31, 37, 41, 43, 47]);
}

#[test]
fn largest_supported_prime_is_prime() {
    assert!(is_prime(32749));
    assert!(!is_prime(32767));
    assert!(32749 < MODULUS_LIMIT);
}

#[test]
fn inverse_mod_inverts_every_unit_of_small_prime_fields() {
    for p in [2u64, 3, 5, 7, 11, 13, 101, 32749] {
        let upper = if p > 200 { 200 } else { p };
        for value in 1..upper {
            let inverse = inverse_mod(value, p);
            assert!(inverse < p);
            assert_eq!(value * inverse % p, 1, "value {value} modulo {p}");
        }
    }
}

#[test]
fn inverse_mod_exact_values() {
    assert_eq!(inverse_mod(3, 7), 5);
    assert_eq!(inverse_mod(2, 5), 3);
    assert_eq!(inverse_mod(1, 2), 1);
}

#[test]
fn gcd_exact_values() {
    assert_eq!(gcd(12, 18), 6);
    assert_eq!(gcd(0, 9), 9);
    assert_eq!(gcd(9, 0), 9);
    assert_eq!(gcd(17, 5), 1);
}
