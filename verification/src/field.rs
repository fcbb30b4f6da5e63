//! Prime-field arithmetic shared by the reductions and the cocycle checks.

use vstd::arithmetic::div_mod::*;
use vstd::arithmetic::mul::*;
use vstd::arithmetic::power::*;
use vstd::prelude::*;

mod fermat;

pub use fermat::{lemma_fermat, lemma_prime_divides_product};

verus! {

/// Every accepted coefficient modulus is a prime below this bound.
pub const MODULUS_LIMIT: u64 = 32768;

/// `n` is a prime number.
pub open spec fn spec_is_prime(n: nat) -> bool {
    &&& n >= 2
    &&& forall|d: nat| 2 <= d < n ==> #[trigger] (n % d) != 0
}

/// `p` is an accepted coefficient modulus: a prime below [`MODULUS_LIMIT`].
pub open spec fn supported_modulus(p: nat) -> bool {
    spec_is_prime(p) && p < MODULUS_LIMIT
}

/// Modular power by squaring: `value^(modulus - 2) mod modulus`.
pub open spec fn spec_inverse_mod(value: nat, modulus: nat) -> nat {
    (pow(value as int, (modulus - 2) as nat) % (modulus as int)) as nat
}

/// Greatest common divisor by Euclid's recursion.
pub open spec fn spec_gcd(a: nat, b: nat) -> nat
    decreases b,
{
    if b == 0 {
        a
    } else {
        spec_gcd(b, a % b)
    }
}

proof fn lemma_divisor_pair(n: nat, x: nat, d: nat)
    requires
        2 <= x < n,
        n % x == 0,
        x >= d,
        d >= 2,
        d * d > n,
    ensures
        ({
            let y = n / x;
            &&& 2 <= y < d
            &&& n % y == 0
        }),
{
    let y = n / x;
    lemma_fundamental_div_mod(n as int, x as int);
    assert(n == x * y);
    assert(y >= 2) by (nonlinear_arith)
        requires
            n == x * y,
            x < n,
            x >= 2,
    ;
    assert(y < d) by (nonlinear_arith)
        requires
            n == x * y,
            x >= d,
            d * d > n,
            d >= 2,
    ;
    lemma_mod_multiples_basic(x as int, y as int);
    assert(x * y == y * x) by (nonlinear_arith);
}

/// Decide whether `n` is prime by trial division up to its square root.
pub fn is_prime(n: u64) -> (prime: bool)
    ensures
        prime == spec_is_prime(n as nat),
{
    if n < 2 {
        return false;
    }
    let mut d: u64 = 2;
    while d <= n / d
        invariant
            2 <= d <= n,
            n >= 2,
            forall|e: nat| 2 <= e < d ==> #[trigger] ((n as nat) % e) != 0,
        decreases n - d,
    {
        if n % d == 0 {
            assert(!spec_is_prime(n as nat)) by {
                assert(d < n) by (nonlinear_arith)
                    requires
                        d <= n / d,
                        d >= 2,
                        n >= 2,
                ;
                assert((n as nat) % (d as nat) == 0);
            }
            return false;
        }
        assert(d + 1 <= n) by (nonlinear_arith)
            requires
                d <= n / d,
                d >= 2,
        ;
        d = d + 1;
    }
    assert forall|x: nat| 2 <= x < n implies #[trigger] ((n as nat) % x) != 0 by {
        if x >= d && (n as nat) % x == 0 {
            assert((d as nat) * (d as nat) > n as nat) by (nonlinear_arith)
                requires
                    d > n / d,
                    d >= 2,
            ;
            lemma_divisor_pair(n as nat, x, d as nat);
        }
    }
    true
}

proof fn lemma_square_step(r: int, b: int, e: nat, m: int)
    requires
        m > 0,
    ensures
        (((r * pow(b, e % 2)) % m) * pow((b * b) % m, e / 2)) % m == (r * pow(b, e)) % m,
{
    let h = e / 2;
    let o = e % 2;
    assert(e == 2 * h + o);
    lemma_pow_adds(b, 2 * h, o);
    lemma_pow_multiplies(b, 2, h);
    lemma_square_is_pow2(b);
    assert(pow(b, 2) == b * b) by {
        reveal(pow);
        lemma_pow1(b);
    }
    assert(2 * h == h * 2) by (nonlinear_arith);
    lemma_pow_mod_noop(b * b, h, m);
    let x = r * pow(b, o);
    let y = pow(b * b, h);
    lemma_mul_mod_noop_left(x, pow((b * b) % m, h), m);
    lemma_mul_mod_noop_right(x % m, pow((b * b) % m, h), m);
    lemma_mul_mod_noop_right(x % m, y, m);
    lemma_mul_mod_noop_left(x, y, m);
    assert(r * pow(b, e) == x * y) by {
        assert(pow(b, e) == pow(b, 2 * h) * pow(b, o));
        assert(pow(b, 2 * h) == y);
        lemma_mul_is_associative(r, pow(b, o), y);
        lemma_mul_is_commutative(pow(b, 2 * h), pow(b, o));
    }
}

/// Multiplicative inverse candidate `value^(modulus - 2) mod modulus`,
/// computed by square-and-multiply.
pub fn inverse_mod(value: u64, modulus: u64) -> (inverse: u64)
    requires
        2 <= modulus <= u32::MAX,
        value < modulus,
    ensures
        inverse == spec_inverse_mod(value as nat, modulus as nat),
        inverse < modulus,
{
    let mut result: u64 = 1;
    let mut base = value;
    let mut exponent = modulus - 2;
    proof {
        lemma_pow0(base as int);
        lemma_small_mod(1, modulus as nat);
    }
    while exponent > 0
        invariant
            2 <= modulus <= u32::MAX,
            base < modulus,
            result < modulus,
            ((result as int) * pow(base as int, exponent as nat)) % (modulus as int) == pow(
                value as int,
                (modulus - 2) as nat,
            ) % (modulus as int),
        decreases exponent,
    {
        proof {
            lemma_square_step(result as int, base as int, exponent as nat, modulus as int);
        }
        let bit = exponent & 1;
        assert(bit == exponent % 2) by (bit_vector)
            requires
                bit == exponent & 1,
        ;
        if bit == 1 {
            assert((result as int) * (base as int) < 0x1_0000_0000_0000_0000) by (nonlinear_arith)
                requires
                    result < modulus,
                    base < modulus,
                    modulus <= u32::MAX,
            ;
            proof {
                lemma_pow1(base as int);
            }
            result = result * base % modulus;
        } else {
            proof {
                lemma_pow0(base as int);
                lemma_small_mod(result as nat, modulus as nat);
            }
        }
        assert((base as int) * (base as int) < 0x1_0000_0000_0000_0000) by (nonlinear_arith)
            requires
                base < modulus,
                modulus <= u32::MAX,
        ;
        base = base * base % modulus;
        let next = exponent >> 1;
        assert(next == exponent / 2) by (bit_vector)
            requires
                next == exponent >> 1,
        ;
        exponent = next;
    }
    proof {
        lemma_pow0(base as int);
        lemma_small_mod(result as nat, modulus as nat);
    }
    result
}

/// Greatest common divisor by Euclid's remainder loop.
pub fn gcd(a: u64, b: u64) -> (divisor: u64)
    ensures
        divisor == spec_gcd(a as nat, b as nat),
{
    let ghost start = spec_gcd(a as nat, b as nat);
    let mut a = a;
    let mut b = b;
    while b != 0
        invariant
            spec_gcd(a as nat, b as nat) == start,
        decreases b,
    {
        let remainder = a % b;
        a = b;
        b = remainder;
    }
    a
}

/// Fermat's little theorem in the form the reductions use: for a prime
/// modulus, `inverse_mod` returns the multiplicative inverse.
pub proof fn lemma_inverse_mod_is_inverse(value: nat, modulus: nat)
    requires
        spec_is_prime(modulus),
        0 < value < modulus,
    ensures
        (value * spec_inverse_mod(value, modulus)) % modulus == 1,
{
    let m = modulus as int;
    lemma_small_mod(value, modulus);
    lemma_fermat(value as int, modulus);
    lemma_mul_mod_noop_right(value as int, pow(value as int, (modulus - 2) as nat), m);
    reveal(pow);
    assert(pow(value as int, (modulus - 1) as nat) == value * pow(value as int, (modulus - 2) as nat));
}

} // verus!
