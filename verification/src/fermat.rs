//! Arithmetic modulo a prime: Euclid's lemma, inverses, and Fermat's little theorem.

use crate::residues::is_prime;
use vstd::arithmetic::div_mod::*;
use vstd::arithmetic::power::*;
use vstd::prelude::*;

verus! {

/// A prime divides no product of two positive numbers below it.
pub proof fn lemma_prime_product_nonzero(a: int, b: int, p: int)
    requires
        is_prime(p),
        0 < a < p,
        0 < b < p,
    ensures
        (a * b) % p != 0,
    decreases a,
{
    if a == 1 {
        assert(a * b == b);
        lemma_small_mod(b as nat, p as nat);
    } else {
        let q = p / a;
        let r = p % a;
        lemma_fundamental_div_mod(p, a);
        lemma_mod_bound(p, a);
        assert(r != 0);
        lemma_prime_product_nonzero(r, b, p);
        if (a * b) % p == 0 {
            assert(r * b == p * b - q * (a * b)) by (nonlinear_arith)
                requires
                    p == a * q + r,
            ;
            lemma_mod_multiples_basic(b, p);
            assert(p * b == b * p) by (nonlinear_arith);
            lemma_mul_mod_noop_right(q, a * b, p);
            assert(q * 0 == 0);
            lemma_small_mod(0, p as nat);
            lemma_sub_mod_noop(p * b, q * (a * b), p);
            assert((r * b) % p == 0);
        }
    }
}

/// Euclid's lemma: a prime that divides a product divides one of the factors.
pub proof fn lemma_euclid(a: int, b: int, p: int)
    requires
        is_prime(p),
        (a * b) % p == 0,
    ensures
        a % p == 0 || b % p == 0,
{
    lemma_mul_mod_noop_general(a, b, p);
    lemma_mod_bound(a, p);
    lemma_mod_bound(b, p);
    if a % p != 0 && b % p != 0 {
        lemma_prime_product_nonzero(a % p, b % p, p);
    }
}

/// A common factor that the prime does not divide can be cancelled from a congruence.
pub proof fn lemma_cancel(a: int, b: int, c: int, p: int)
    requires
        is_prime(p),
        (a * c) % p == (b * c) % p,
        c % p != 0,
    ensures
        a % p == b % p,
{
    lemma_mod_equivalence(a * c, b * c, p);
    assert(a * c - b * c == (a - b) * c) by (nonlinear_arith);
    lemma_euclid(a - b, c, p);
    lemma_mod_equivalence(a, b, p);
}

/// Every positive number below a prime has an inverse modulo the prime.
pub proof fn lemma_inverse_exists(a: int, p: int) -> (x: int)
    requires
        is_prime(p),
        0 < a < p,
    ensures
        0 < x < p,
        (a * x) % p == 1,
    decreases a,
{
    lemma_small_mod(1, p as nat);
    lemma_small_mod(0, p as nat);
    if a == 1 {
        assert(a * 1 == 1);
        1
    } else {
        let q = p / a;
        let r = p % a;
        lemma_fundamental_div_mod(p, a);
        lemma_mod_bound(p, a);
        assert(r != 0);
        let y = lemma_inverse_exists(r, p);
        let x = (-(q * y)) % p;
        assert(a * (-(q * y)) == p * (-y) + r * y) by (nonlinear_arith)
            requires
                p == a * q + r,
        ;
        lemma_mod_multiples_vanish(-y, r * y, p);
        lemma_mul_mod_noop_right(a, -(q * y), p);
        lemma_mod_bound(-(q * y), p);
        if x == 0 {
            assert(a * 0 == 0);
        }
        x
    }
}

/// The product of the numbers from 1 to `n`.
pub open spec fn factorial(n: nat) -> int
    decreases n,
{
    if n == 0 {
        1
    } else {
        n * factorial((n - 1) as nat)
    }
}

/// The product of `f(1)` to `f(n)`.
pub open spec fn product(f: spec_fn(int) -> int, n: nat) -> int
    decreases n,
{
    if n == 0 {
        1
    } else {
        f(n as int) * product(f, (n - 1) as nat)
    }
}

/// Multiplication by `a` modulo `p`.
pub open spec fn scale(a: int, p: int) -> spec_fn(int) -> int {
    |k: int| (a * k) % p
}

/// Two maps that agree from 1 to `n` have the same product.
pub proof fn lemma_product_agrees(f: spec_fn(int) -> int, g: spec_fn(int) -> int, n: nat)
    requires
        forall|k: int| 1 <= k <= n ==> #[trigger] f(k) == g(k),
    ensures
        product(f, n) == product(g, n),
    decreases n,
{
    if n > 0 {
        lemma_product_agrees(f, g, (n - 1) as nat);
    }
}

/// Two maps that agree from 1 to `n` except at `j` have products in the ratio
/// of their values at `j`.
pub proof fn lemma_product_replace(
    f: spec_fn(int) -> int,
    g: spec_fn(int) -> int,
    n: nat,
    j: int,
)
    requires
        1 <= j <= n,
        forall|k: int| 1 <= k <= n && k != j ==> #[trigger] f(k) == g(k),
    ensures
        product(f, n) * g(j) == product(g, n) * f(j),
    decreases n,
{
    let m = (n - 1) as nat;
    if n == j {
        lemma_product_agrees(f, g, m);
        let c = product(f, m);
        assert((f(j) * c) * g(j) == (g(j) * c) * f(j)) by (nonlinear_arith);
    } else {
        lemma_product_replace(f, g, m, j);
        let c = f(n as int);
        let x = product(f, m);
        let y = product(g, m);
        assert((c * x) * g(j) == (c * y) * f(j)) by (nonlinear_arith)
            requires
                x * g(j) == y * f(j),
        ;
    }
}

/// The product of a permutation of the numbers from 1 to `n` is their factorial.
/// The permutation is given by a map and its inverse.
pub proof fn lemma_permutation_product(f: spec_fn(int) -> int, g: spec_fn(int) -> int, n: nat)
    requires
        forall|k: int| 1 <= k <= n ==> 1 <= #[trigger] f(k) <= n && g(f(k)) == k,
        forall|k: int| 1 <= k <= n ==> 1 <= #[trigger] g(k) <= n && f(g(k)) == k,
    ensures
        product(f, n) == factorial(n),
    decreases n,
{
    if n > 0 {
        let m = (n - 1) as nat;
        let j = g(n as int);
        let c = f(n as int);
        assert(f(j) == n);
        if j == n {
            assert forall|k: int| 1 <= k <= m implies 1 <= #[trigger] f(k) <= m && g(f(k)) == k by {
                if f(k) == n {
                    assert(g(f(k)) == k);
                }
            }
            assert forall|k: int| 1 <= k <= m implies 1 <= #[trigger] g(k) <= m && f(g(k)) == k by {
                if g(k) == n {
                    assert(f(g(k)) == k);
                }
            }
            lemma_permutation_product(f, g, m);
        } else {
            assert(g(c) == n);
            let f2 = |k: int|
                if k == j {
                    c
                } else {
                    f(k)
                };
            let g2 = |k: int|
                if k == c {
                    j
                } else {
                    g(k)
                };
            assert forall|k: int| 1 <= k <= m implies 1 <= #[trigger] f2(k) <= m && g2(f2(k))
                == k by {
                if k != j {
                    assert(g(f(k)) == k);
                }
            }
            assert forall|k: int| 1 <= k <= m implies 1 <= #[trigger] g2(k) <= m && f2(g2(k))
                == k by {
                if k != c {
                    assert(f(g(k)) == k);
                }
            }
            lemma_permutation_product(f2, g2, m);
            lemma_product_replace(f, f2, m, j);
            let x = product(f, m);
            let y = factorial(m);
            assert(c * x == n * y) by (nonlinear_arith)
                requires
                    x * c == y * n,
            ;
        }
    }
}

/// The product of the first `n` multiples of `a`, each reduced modulo `p`, is
/// congruent to `a^n` times the factorial of `n`.
pub proof fn lemma_scaled_product(a: int, n: nat, p: int)
    requires
        p > 0,
    ensures
        product(scale(a, p), n) % p == (pow(a, n) * factorial(n)) % p,
    decreases n,
{
    reveal(pow);
    if n == 0 {
        assert(pow(a, 0) * factorial(0) == 1);
    } else {
        let m = (n - 1) as nat;
        lemma_scaled_product(a, m, p);
        let x = product(scale(a, p), m);
        let y = pow(a, m) * factorial(m);
        assert(scale(a, p)(n as int) == (a * n) % p);
        lemma_mul_mod_noop_general(a * n, x, p);
        lemma_mul_mod_noop_general(a * n, y, p);
        assert((a * n) * y == pow(a, n) * factorial(n)) by (nonlinear_arith)
            requires
                y == pow(a, m) * factorial(m),
                pow(a, n) == a * pow(a, m),
                factorial(n) == n * factorial(m),
        ;
    }
}

/// A prime does not divide the factorial of a smaller number.
pub proof fn lemma_factorial_nonzero(n: nat, p: int)
    requires
        is_prime(p),
        n < p,
    ensures
        factorial(n) % p != 0,
    decreases n,
{
    if n == 0 {
        lemma_small_mod(1, p as nat);
    } else {
        lemma_factorial_nonzero((n - 1) as nat, p);
        lemma_small_mod(n, p as nat);
        if factorial(n) % p == 0 {
            lemma_euclid(n as int, factorial((n - 1) as nat), p);
        }
    }
}

/// Fermat's little theorem: a number that a prime `p` does not divide, raised
/// to the power `p - 1`, leaves 1 on division by `p`.
pub proof fn lemma_fermat_little(a: int, p: int)
    requires
        is_prime(p),
        a % p != 0,
    ensures
        pow(a, (p - 1) as nat) % p == 1,
{
    let r = a % p;
    let n = (p - 1) as nat;
    lemma_mod_bound(a, p);
    let inv = lemma_inverse_exists(r, p);
    let f = scale(r, p);
    let g = scale(inv, p);
    assert forall|k: int| 1 <= k <= n implies 1 <= #[trigger] f(k) <= n && g(f(k)) == k by {
        lemma_prime_product_nonzero(r, k, p);
        lemma_mod_bound(r * k, p);
        lemma_mul_mod_noop_right(inv, r * k, p);
        assert(inv * (r * k) == (r * inv) * k) by (nonlinear_arith);
        lemma_mul_mod_noop_left(r * inv, k, p);
        assert(1 * k == k);
        lemma_small_mod(k as nat, p as nat);
    }
    assert forall|k: int| 1 <= k <= n implies 1 <= #[trigger] g(k) <= n && f(g(k)) == k by {
        lemma_prime_product_nonzero(inv, k, p);
        lemma_mod_bound(inv * k, p);
        lemma_mul_mod_noop_right(r, inv * k, p);
        assert(r * (inv * k) == (r * inv) * k) by (nonlinear_arith);
        lemma_mul_mod_noop_left(r * inv, k, p);
        assert(1 * k == k);
        lemma_small_mod(k as nat, p as nat);
    }
    lemma_permutation_product(f, g, n);
    lemma_scaled_product(r, n, p);
    lemma_factorial_nonzero(n, p);
    assert(1 * factorial(n) == factorial(n));
    lemma_cancel(pow(r, n), 1, factorial(n), p);
    lemma_small_mod(1, p as nat);
    lemma_pow_mod_noop(a, n, p);
}

} // verus!
