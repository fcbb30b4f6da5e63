//! Fermat's little theorem, by the permutation argument: multiplying
//! `1, ..., p - 1` by a unit permutes them modulo `p`.

use vstd::arithmetic::div_mod::*;
use vstd::arithmetic::power::*;
use vstd::multiset::*;
use vstd::prelude::*;
use vstd::seq_lib::*;
use vstd::set_lib::*;

use super::{spec_gcd, spec_is_prime};

verus! {

/// Integer Bezout coefficients `(x, y)` with `a * x + b * y == gcd(a, b)`.
proof fn bezout(a: nat, b: nat) -> (r: (int, int))
    ensures
        a * r.0 + b * r.1 == spec_gcd(a, b),
    decreases b,
{
    if b == 0 {
        (1, 0)
    } else {
        let r = a % b;
        let q = a / b;
        let (x, y) = bezout(b, r);
        lemma_fundamental_div_mod(a as int, b as int);
        let g = spec_gcd(a, b);
        assert(a * y + b * (x - q * y) == g) by (nonlinear_arith)
            requires
                b * x + r * y == g,
                a == b * q + r,
        ;
        (y, x - q * y)
    }
}

/// The greatest common divisor divides both arguments.
proof fn lemma_gcd_divides(a: nat, b: nat)
    requires
        a > 0 || b > 0,
    ensures
        spec_gcd(a, b) > 0,
        a % spec_gcd(a, b) == 0,
        b % spec_gcd(a, b) == 0,
    decreases b,
{
    if b == 0 {
        lemma_mod_self_0(a as int);
        lemma_small_mod(0, a);
    } else {
        let r = a % b;
        let q = a / b;
        lemma_gcd_divides(b, r);
        let g = spec_gcd(a, b);
        lemma_fundamental_div_mod(a as int, b as int);
        lemma_fundamental_div_mod(b as int, g as int);
        lemma_fundamental_div_mod(r as int, g as int);
        let k1 = b / g;
        let k2 = r / g;
        assert(a == (k1 * q + k2) * g) by (nonlinear_arith)
            requires
                a == b * q + r,
                b == g * k1,
                r == g * k2,
        ;
        lemma_mod_multiples_basic((k1 * q + k2) as int, g as int);
    }
}

/// A nonzero residue is coprime to a prime modulus.
proof fn lemma_coprime(a: nat, p: nat)
    requires
        spec_is_prime(p),
        0 < a < p,
    ensures
        spec_gcd(a, p) == 1,
{
    lemma_gcd_divides(a, p);
    let g = spec_gcd(a, p);
    lemma_fundamental_div_mod(a as int, g as int);
    let k = a / g;
    assert(g <= a) by (nonlinear_arith)
        requires
            a == g * k,
            a > 0,
            g > 0,
    ;
    if g >= 2 {
        assert(p % g != 0);
    }
}

/// A multiple of `y` by a unit is divisible by the prime `p` only when `y`
/// is.
pub proof fn lemma_prime_divides_product(p: nat, x: int, y: int)
    requires
        spec_is_prime(p),
        (x * y) % (p as int) == 0,
        x % (p as int) != 0,
    ensures
        y % (p as int) == 0,
{
    let m = p as int;
    let r = x % m;
    lemma_mod_bound(x, m);
    lemma_coprime(r as nat, p);
    let (u, v) = bezout(r as nat, p);
    lemma_fundamental_div_mod(x, m);
    lemma_fundamental_div_mod(x * y, m);
    let qx = x / m;
    let qxy = (x * y) / m;
    assert(y == (qxy * u - qx * y * u + y * v) * m) by (nonlinear_arith)
        requires
            r * u + m * v == 1,
            x == m * qx + r,
            x * y == m * qxy,
    ;
    lemma_mod_multiples_basic(qxy * u - qx * y * u + y * v, m);
}

/// Multiplication, as the step of a running product.
spec fn times() -> spec_fn(int, int) -> int {
    |acc: int, x: int| acc * x
}

/// Product of a sequence of integers.
spec fn product(s: Seq<int>) -> int {
    s.fold_left(1, times())
}

/// `1, 2, ..., n`.
spec fn first_integers(n: nat) -> Seq<int> {
    Seq::new(n, |i: int| i + 1)
}

/// `a * 1, a * 2, ..., a * n`, each reduced modulo `p`.
spec fn scaled_residues(a: int, n: nat, p: int) -> Seq<int> {
    Seq::new(n, |i: int| (a * (i + 1)) % p)
}

proof fn lemma_product_step(s: Seq<int>, k: int)
    requires
        0 <= k < s.len(),
    ensures
        product(s.take(k + 1)) == product(s.take(k)) * s[k],
{
    assert(s.take(k + 1).drop_last() =~= s.take(k));
}

/// No factor of `(p - 1)!` is divisible by `p`, so neither is the product.
proof fn lemma_factorial_unit(p: nat, k: nat)
    requires
        spec_is_prime(p),
        k <= p - 1,
    ensures
        product(first_integers((p - 1) as nat).take(k as int)) % (p as int) != 0,
    decreases k,
{
    let s = first_integers((p - 1) as nat);
    if k == 0 {
        assert(s.take(0).len() == 0);
        lemma_small_mod(1, p);
    } else {
        lemma_factorial_unit(p, (k - 1) as nat);
        lemma_product_step(s, k - 1);
        lemma_small_mod(k, p);
        if product(s.take(k as int)) % (p as int) == 0 {
            lemma_prime_divides_product(p, product(s.take(k - 1)), k as int);
        }
    }
}

/// Modulo `p`, the product of the scaled residues is `a^k` times `k!`.
proof fn lemma_scaled_product(a: int, p: nat, k: nat)
    requires
        p >= 2,
        k <= p - 1,
    ensures
        product(scaled_residues(a, (p - 1) as nat, p as int).take(k as int)) % (p as int) == (pow(a, k)
            * product(first_integers((p - 1) as nat).take(k as int))) % (p as int),
    decreases k,
{
    let m = p as int;
    let s = scaled_residues(a, (p - 1) as nat, m);
    let t = first_integers((p - 1) as nat);
    if k == 0 {
        reveal(pow);
        assert(s.take(0).len() == 0);
        assert(t.take(0).len() == 0);
    } else {
        let j = (k - 1) as nat;
        lemma_scaled_product(a, p, j);
        lemma_product_step(s, j as int);
        lemma_product_step(t, j as int);
        let x = product(s.take(j as int));
        let y = pow(a, j) * product(t.take(j as int));
        let step = a * (j + 1);
        assert(s[j as int] == step % m);
        assert(t[j as int] == j + 1);
        lemma_mul_mod_noop_general(x, step % m, m);
        lemma_mul_mod_noop_general(x, step, m);
        lemma_mul_mod_noop_general(y, step, m);
        lemma_mod_twice(step, m);
        reveal(pow);
        assert(pow(a, k) == a * pow(a, j));
        assert(y * step == pow(a, k) * (product(t.take(j as int)) * (j + 1))) by (nonlinear_arith)
            requires
                y == pow(a, j) * product(t.take(j as int)),
                step == a * (j + 1),
                pow(a, k) == a * pow(a, j),
        ;
    }
}

/// Two multiples of a unit that agree modulo `p` have factors that agree.
proof fn lemma_cancel_unit(a: int, p: nat, i: int, j: int)
    requires
        spec_is_prime(p),
        a % (p as int) != 0,
        0 <= i < j < p,
    ensures
        (a * i) % (p as int) != (a * j) % (p as int),
{
    let m = p as int;
    if (a * i) % m == (a * j) % m {
        lemma_fundamental_div_mod(a * i, m);
        lemma_fundamental_div_mod(a * j, m);
        let qi = (a * i) / m;
        let qj = (a * j) / m;
        assert(a * (j - i) == (qj - qi) * m) by (nonlinear_arith)
            requires
                a * i == m * qi + (a * i) % m,
                a * j == m * qj + (a * j) % m,
                (a * i) % m == (a * j) % m,
        ;
        lemma_mod_multiples_basic(qj - qi, m);
        lemma_prime_divides_product(p, a, j - i);
        lemma_small_mod((j - i) as nat, p);
    }
}

/// The scaled residues are `1, ..., p - 1` in another order.
proof fn lemma_scaled_permutation(a: int, p: nat)
    requires
        spec_is_prime(p),
        a % (p as int) != 0,
    ensures
        scaled_residues(a, (p - 1) as nat, p as int).to_multiset() =~= first_integers(
            (p - 1) as nat,
        ).to_multiset(),
{
    broadcast use to_multiset_contains;

    let m = p as int;
    let n = (p - 1) as nat;
    let s = scaled_residues(a, n, m);
    let t = first_integers(n);
    let range = set_int_range(1, m);
    assert forall|i: int| 0 <= i < n implies 1 <= #[trigger] s[i] < m by {
        lemma_mod_bound(a * (i + 1), m);
        if s[i] == 0 {
            lemma_small_mod((i + 1) as nat, p);
            lemma_prime_divides_product(p, a, i + 1);
        }
    }
    assert(s.no_duplicates()) by {
        assert forall|i: int, j: int| 0 <= i < s.len() && 0 <= j < s.len() && i != j implies s[i]
            != s[j] by {
            if s[i] == s[j] {
                if i < j {
                    lemma_cancel_unit(a, p, i + 1, j + 1);
                } else {
                    lemma_cancel_unit(a, p, j + 1, i + 1);
                }
            }
        }
    }
    assert(t.no_duplicates());
    lemma_int_range(1, m);
    s.unique_seq_to_set();
    assert(s.to_set().subset_of(range)) by {
        assert forall|x: int| s.to_set().contains(x) implies range.contains(x) by {
            let i = choose|i: int| 0 <= i < s.len() && s[i] == x;
        }
    }
    lemma_subset_equality(s.to_set(), range);
    assert(t.to_set() =~= range) by {
        assert forall|x: int| range.contains(x) implies t.to_set().contains(x) by {
            assert(t[x - 1] == x);
        }
    }
    s.lemma_multiset_has_no_duplicates();
    t.lemma_multiset_has_no_duplicates();
    assert forall|x: int| s.to_multiset().count(x) == t.to_multiset().count(x) by {
        assert(s.to_set().contains(x) == s.contains(x));
        assert(t.to_set().contains(x) == t.contains(x));
        if s.contains(x) {
            assert(s.to_multiset().contains(x));
            assert(t.to_multiset().contains(x));
        } else {
            assert(!t.contains(x));
        }
    }
}

/// Fermat's little theorem: `a^(p - 1) = 1` modulo a prime `p` that does
/// not divide `a`.
pub proof fn lemma_fermat(a: int, p: nat)
    requires
        spec_is_prime(p),
        a % (p as int) != 0,
    ensures
        pow(a, (p - 1) as nat) % (p as int) == 1,
{
    let m = p as int;
    let n = (p - 1) as nat;
    let s = scaled_residues(a, n, m);
    let t = first_integers(n);
    lemma_scaled_permutation(a, p);
    assert(commutative_foldl(times())) by {
        assert forall|x: int, y: int, v: int| #[trigger] times()(times()(v, x), y) == times()(
            times()(v, y),
            x,
        ) by {
            assert((v * x) * y == (v * y) * x) by (nonlinear_arith);
        }
    }
    lemma_fold_left_permutation(s, t, times(), 1);
    lemma_scaled_product(a, p, n);
    assert(s.take(n as int) =~= s);
    assert(t.take(n as int) =~= t);
    lemma_factorial_unit(p, n);
    let f = product(t);
    let e = pow(a, n);
    // f * e = f modulo p, so p divides f * (e - 1).
    lemma_fundamental_div_mod(f, m);
    lemma_fundamental_div_mod(e * f, m);
    let q1 = f / m;
    let q2 = (e * f) / m;
    assert(f * (e - 1) == (q2 - q1) * m) by (nonlinear_arith)
        requires
            f == m * q1 + f % m,
            e * f == m * q2 + (e * f) % m,
            (e * f) % m == f % m,
    ;
    lemma_mod_multiples_basic(q2 - q1, m);
    lemma_prime_divides_product(p, f, e - 1);
    lemma_fundamental_div_mod(e - 1, m);
    let q3 = (e - 1) / m;
    assert(e == m * q3 + 1) by (nonlinear_arith)
        requires
            e - 1 == m * q3 + (e - 1) % m,
            (e - 1) % m == 0,
    ;
    lemma_mod_multiples_vanish(q3, 1, m);
    lemma_small_mod(1, p);
}

} // verus!
