//! Primes, quadratic residues and the Jacobi symbol, as mathematics.

use crate::fermat::{lemma_euclid, lemma_fermat_little};
use vstd::arithmetic::div_mod::{
    lemma_div_by_self, lemma_div_decreases, lemma_mod_add_multiples_vanish, lemma_mod_bound,
    lemma_mod_equivalence, lemma_mod_self_0, lemma_mul_mod_noop_general, lemma_small_mod,
    lemma_sub_mod_noop,
};
use vstd::arithmetic::power::{
    lemma0_pow, lemma_pow1, lemma_pow_adds, lemma_pow_distributes, lemma_pow_mod_noop,
    lemma_pow_multiplies, lemma_square_is_pow2, pow,
};
use vstd::prelude::*;

verus! {

/// `n` is a prime number.
pub open spec fn is_prime(n: int) -> bool {
    n >= 2 && forall|d: int| 1 < d < n ==> #[trigger] (n % d) != 0
}

/// `a` is a square modulo `p` and not a multiple of `p`.
pub open spec fn is_quadratic_residue(a: int, p: int) -> bool {
    a % p != 0 && exists|b: int| 0 < b < p && #[trigger] ((b * b) % p) == a % p
}

/// The Legendre symbol `(a/p)` of `a` over a prime `p`: 0 for a multiple of `p`,
/// 1 for a quadratic residue, -1 for a non-residue.
pub open spec fn legendre_symbol(a: int, p: int) -> int {
    if a % p == 0 {
        0
    } else if is_quadratic_residue(a, p) {
        1
    } else {
        -1
    }
}

/// The product of the Legendre symbols of `a` over the prime factors of `n`
/// that are at least `d`, each taken as often as it divides `n`.
/// `n` is expected to have no factor between 2 and `d`.
pub open spec fn jacobi_product(a: int, n: int, d: int) -> int
    decreases n, n - d,
    when d >= 2
    via jacobi_product_decreases
{
    if n <= 1 || d > n {
        1
    } else if n % d == 0 {
        legendre_symbol(a, d) * jacobi_product(a, n / d, d)
    } else {
        jacobi_product(a, n, d + 1)
    }
}

#[via_fn]
proof fn jacobi_product_decreases(a: int, n: int, d: int) {
    if !(n <= 1 || d > n) {
        if n % d == 0 {
            lemma_div_decreases(n, d);
        } else if d == n {
            lemma_mod_self_0(n);
        }
    }
}

/// The Jacobi symbol `(a/n)` of `a` over an odd positive `n`: the product of the
/// Legendre symbols of `a` over the prime factors of `n`, counted with multiplicity.
pub open spec fn jacobi_symbol(a: int, n: int) -> int {
    jacobi_product(a, n, 2)
}

/// Half of `p - 1`: the exponent of Euler's criterion.
pub open spec fn half_order(p: int) -> nat {
    ((p - 1) / 2) as nat
}

/// Over a prime, the Jacobi symbol is the Legendre symbol.
pub proof fn lemma_jacobi_of_prime(a: int, p: int)
    requires
        is_prime(p),
    ensures
        jacobi_symbol(a, p) == legendre_symbol(a, p),
{
    lemma_jacobi_product_of_prime(a, p, 2);
}

proof fn lemma_jacobi_product_of_prime(a: int, p: int, d: int)
    requires
        is_prime(p),
        2 <= d <= p,
    ensures
        jacobi_product(a, p, d) == legendre_symbol(a, p),
    decreases p - d,
{
    if d == p {
        lemma_mod_self_0(p);
        lemma_div_by_self(p);
        assert(jacobi_product(a, 1, p) == 1);
        assert(legendre_symbol(a, p) * 1 == legendre_symbol(a, p));
    } else {
        assert(p % d != 0);
        lemma_jacobi_product_of_prime(a, p, d + 1);
    }
}

/// One direction of Euler's criterion: a quadratic residue of an odd prime `p`,
/// raised to the power `(p - 1) / 2`, leaves 1.
pub proof fn lemma_residue_half_power(x: int, p: int)
    requires
        is_prime(p),
        p % 2 == 1,
        is_quadratic_residue(x, p),
    ensures
        pow(x, half_order(p)) % p == 1,
{
    let h = half_order(p);
    let b = choose|b: int| 0 < b < p && #[trigger] ((b * b) % p) == x % p;
    lemma_pow_mod_noop(x, h, p);
    lemma_pow_mod_noop(b * b, h, p);
    lemma_square_is_pow2(b);
    lemma_pow_multiplies(b, 2, h);
    assert(2 * h == p - 1);
    lemma_small_mod(b as nat, p as nat);
    lemma_fermat_little(b, p);
}

/// A number that an odd prime `p` does not divide, raised to the power
/// `(p - 1) / 2`, leaves 1 or `p - 1`.
pub proof fn lemma_half_power_is_sign(x: int, p: int)
    requires
        is_prime(p),
        p % 2 == 1,
        x % p != 0,
    ensures
        pow(x, half_order(p)) % p == 1 || pow(x, half_order(p)) % p == p - 1,
{
    let h = half_order(p);
    let w = pow(x, h);
    let z = w % p;
    lemma_mod_bound(w, p);
    lemma_mul_mod_noop_general(w, w, p);
    lemma_pow_adds(x, h, h);
    assert(h + h == p - 1);
    lemma_fermat_little(x, p);
    assert((z * z) % p == 1);
    lemma_small_mod(1, p as nat);
    lemma_small_mod(0, p as nat);
    lemma_mod_equivalence(z * z, 1, p);
    assert(z * z - 1 == (z - 1) * (z + 1)) by (nonlinear_arith);
    lemma_euclid(z - 1, z + 1, p);
    if z == 0 {
        assert(z * z == 0);
    }
    if (z - 1) % p == 0 {
        lemma_small_mod((z - 1) as nat, p as nat);
    } else {
        if z + 1 < p {
            lemma_small_mod((z + 1) as nat, p as nat);
        }
    }
}

/// Modulo a prime `p` with `p % 4 == 3`, a number whose power `(p - 1) / 2`
/// leaves 1 has its power `(p + 1) / 4` as a square root.
pub proof fn lemma_square_root(x: int, p: int)
    requires
        is_prime(p),
        p % 4 == 3,
        pow(x, half_order(p)) % p == 1,
    ensures
        ({
            let y = pow(x, ((p + 1) / 4) as nat) % p;
            0 < y < p && (y * y) % p == x % p
        }),
        x % p != 0,
{
    let h = half_order(p);
    let e = ((p + 1) / 4) as nat;
    let w = pow(x, e);
    let y = w % p;
    lemma_mod_bound(w, p);
    lemma_mul_mod_noop_general(w, w, p);
    lemma_pow_adds(x, e, e);
    assert(e + e == h + 1);
    lemma_pow_adds(x, h, 1);
    lemma_pow1(x);
    lemma_mul_mod_noop_general(pow(x, h), x, p);
    assert(1 * (x % p) == x % p);
    lemma_mod_bound(x, p);
    lemma_small_mod((x % p) as nat, p as nat);
    assert((y * y) % p == x % p);
    lemma_small_mod(0, p as nat);
    lemma_small_mod(1, p as nat);
    if x % p == 0 {
        lemma_pow_mod_noop(x, h, p);
        lemma0_pow(h);
    }
    if y == 0 {
        assert(y * y == 0);
    }
}

/// Euler's criterion modulo a prime `p` with `p % 4 == 3`: the power
/// `(p - 1) / 2` of a number that `p` does not divide leaves 1 for a quadratic
/// residue and `p - 1` for any other.
pub proof fn lemma_euler_criterion(x: int, p: int)
    requires
        is_prime(p),
        p % 4 == 3,
        x % p != 0,
    ensures
        legendre_symbol(x, p) == 1 <==> pow(x, half_order(p)) % p == 1,
        legendre_symbol(x, p) == -1 <==> pow(x, half_order(p)) % p == p - 1,
{
    lemma_half_power_is_sign(x, p);
    if is_quadratic_residue(x, p) {
        lemma_residue_half_power(x, p);
    }
    if pow(x, half_order(p)) % p == 1 {
        lemma_square_root(x, p);
        let y = pow(x, ((p + 1) / 4) as nat) % p;
        assert(0 < y < p && ((y * y) % p) == x % p);
    }
}

/// Minus one to an odd power is minus one.
pub proof fn lemma_minus_one_odd_power(h: nat)
    requires
        h % 2 == 1,
    ensures
        pow(-1, h) == -1,
    decreases h,
{
    reveal(pow);
    if h == 1 {
        lemma_pow1(-1);
    } else {
        lemma_minus_one_odd_power((h - 2) as nat);
        assert(pow(-1, h) == -1 * pow(-1, (h - 1) as nat));
        assert(pow(-1, (h - 1) as nat) == -1 * pow(-1, (h - 2) as nat));
    }
}

/// Modulo a prime `p` with `p % 4 == 3`, negation flips the power `(p - 1) / 2`
/// between 1 and `p - 1`.
pub proof fn lemma_negation_half_power(x: int, p: int)
    requires
        is_prime(p),
        p % 4 == 3,
        x % p != 0,
    ensures
        pow(x, half_order(p)) % p == 1 ==> pow(p - x, half_order(p)) % p == p - 1,
        pow(x, half_order(p)) % p == p - 1 ==> pow(p - x, half_order(p)) % p == 1,
        (p - x) % p != 0,
{
    let h = half_order(p);
    let w = pow(x, h);
    assert(h % 2 == 1);
    lemma_mod_add_multiples_vanish(-x, p);
    lemma_pow_mod_noop(p - x, h, p);
    lemma_pow_mod_noop(-x, h, p);
    lemma_pow_distributes(-1, x, h);
    lemma_minus_one_odd_power(h);
    assert(-1 * x == -x);
    assert(pow(-1 * x, h) == pow(-1, h) * w);
    assert(pow(-1, h) * w == -w) by (nonlinear_arith)
        requires
            pow(-1, h) == -1,
    ;
    assert(pow(-x, h) == -w);
    lemma_small_mod(0, p as nat);
    lemma_small_mod(1, p as nat);
    lemma_small_mod((p - 1) as nat, p as nat);
    lemma_sub_mod_noop(0, w, p);
    lemma_mod_add_multiples_vanish(-1, p);
    lemma_mod_add_multiples_vanish(1 - p, p);
    lemma_sub_mod_noop(0, x, p);
    lemma_mod_bound(x, p);
    if (p - x) % p == 0 {
        lemma_mod_add_multiples_vanish(-(x % p), p);
        lemma_small_mod((p - x % p) as nat, p as nat);
    }
}

} // verus!
