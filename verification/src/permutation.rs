//! The square-root permutation of a prime field and its inverse.

use crate::fermat::{lemma_euclid, lemma_fermat_little, lemma_prime_product_nonzero};
use crate::residues::{
    half_order, is_prime, jacobi_symbol, legendre_symbol, lemma_euler_criterion,
    lemma_jacobi_of_prime, lemma_negation_half_power, lemma_square_root,
};
use vstd::arithmetic::div_mod::{
    lemma_mod_add_multiples_vanish, lemma_mod_bound, lemma_mod_equivalence,
    lemma_mod_multiples_vanish, lemma_mod_self_0, lemma_small_mod,
};
use vstd::arithmetic::power::{
    lemma0_pow, lemma_pow_mod_noop, lemma_pow_multiplies, lemma_square_is_pow2, pow,
};
use vstd::prelude::*;

verus! {

/// The exponent `(p + 1) / 4`, which takes a quadratic residue modulo a prime
/// `p` with `p % 4 == 3` to one of its square roots.
pub open spec fn sqrt_exponent(p: nat) -> nat {
    (p + 1) / 4
}

/// The slow direction: a square root of `x` or of `p - x` modulo `p`, whichever
/// has one, with the parity of the result telling which it was. A residue goes
/// to its even root, anything else to the odd root of its negation.
pub open spec fn sqrt_permutation(x: nat, p: nat) -> nat {
    let e = sqrt_exponent(p);
    if jacobi_symbol(x as int, p as int) == 1 {
        let y = pow(x as int, e) % (p as int);
        if y % 2 == 1 {
            (p - y) as nat
        } else {
            y as nat
        }
    } else {
        let y = pow(p - x, e) % (p as int);
        if y % 2 == 0 {
            (p - y) as nat
        } else {
            y as nat
        }
    }
}

/// The fast direction: the square of `y` modulo `p`, negated where `y` is odd.
pub open spec fn inverse_sqrt(y: nat, p: nat) -> nat {
    let s = pow(y as int, 2) % (p as int);
    if y % 2 == 1 {
        (p - s) as nat
    } else {
        s as nat
    }
}

/// The fast direction never gives more than `p`.
pub proof fn lemma_inverse_sqrt_bound(y: nat, p: nat)
    requires
        p > 0,
    ensures
        inverse_sqrt(y, p) <= p,
{
    lemma_mod_bound(pow(y as int, 2), p as int);
}

/// The slow direction never gives more than `p`.
pub proof fn lemma_sqrt_permutation_bound(x: nat, p: nat)
    requires
        p > 0,
        x <= p,
    ensures
        sqrt_permutation(x, p) <= p,
{
    let e = sqrt_exponent(p);
    lemma_mod_bound(pow(x as int, e), p as int);
    lemma_mod_bound(pow(p - x, e), p as int);
}

/// The square of `p - y` is congruent to the square of `y`.
proof fn lemma_negated_square(y: int, p: int)
    requires
        p > 0,
    ensures
        pow(p - y, 2) % p == pow(y, 2) % p,
{
    lemma_square_is_pow2(p - y);
    lemma_square_is_pow2(y);
    assert((p - y) * (p - y) == p * (p - 2 * y) + y * y) by (nonlinear_arith);
    lemma_mod_multiples_vanish(p - 2 * y, y * y, p);
}

/// Two positive numbers below a prime with congruent squares are equal or add
/// up to the prime.
proof fn lemma_square_roots_agree(a: int, b: int, p: int)
    requires
        is_prime(p),
        0 < a < p,
        0 < b < p,
        (a * a) % p == (b * b) % p,
    ensures
        a == b || a == p - b,
{
    lemma_mod_equivalence(a * a, b * b, p);
    assert(a * a - b * b == (a - b) * (a + b)) by (nonlinear_arith);
    lemma_euclid(a - b, a + b, p);
    if (a - b) % p == 0 {
        if a > b {
            lemma_small_mod((a - b) as nat, p as nat);
        } else if a < b {
            lemma_mod_add_multiples_vanish(a - b, p);
            lemma_small_mod((p + a - b) as nat, p as nat);
        }
    } else {
        if a + b < p {
            lemma_small_mod((a + b) as nat, p as nat);
        } else if a + b > p {
            lemma_mod_add_multiples_vanish(a + b - p, p);
            lemma_small_mod((a + b - p) as nat, p as nat);
        }
    }
}

/// In the field of a prime `p` with `p % 4 == 3`, the fast direction undoes the
/// slow one on every block from 1 to `p - 1`, and the slow direction keeps such
/// a block in that range.
pub proof fn lemma_inverse_undoes_sqrt(x: nat, p: nat)
    requires
        is_prime(p as int),
        p % 4 == 3,
        0 < x < p,
    ensures
        inverse_sqrt(sqrt_permutation(x, p), p) == x,
        0 < sqrt_permutation(x, p) < p,
{
    let pi = p as int;
    let xi = x as int;
    let e = sqrt_exponent(p);
    lemma_small_mod(x, p);
    lemma_jacobi_of_prime(xi, pi);
    lemma_euler_criterion(xi, pi);
    if jacobi_symbol(xi, pi) == 1 {
        lemma_square_root(xi, pi);
        let y0 = pow(xi, e) % pi;
        if y0 % 2 == 1 {
            lemma_negated_square(y0, pi);
        }
        lemma_square_is_pow2(y0);
    } else {
        assert(legendre_symbol(xi, pi) == -1);
        lemma_negation_half_power(xi, pi);
        lemma_square_root(pi - xi, pi);
        lemma_small_mod((p - x) as nat, p);
        let y0 = pow(pi - xi, e) % pi;
        if y0 % 2 == 0 {
            lemma_negated_square(y0, pi);
        }
        lemma_square_is_pow2(y0);
    }
}

/// In the field of a prime `p` with `p % 4 == 3`, the slow direction undoes the
/// fast one on every block from 1 to `p - 1`, and the fast direction keeps such
/// a block in that range.
pub proof fn lemma_sqrt_undoes_inverse(y: nat, p: nat)
    requires
        is_prime(p as int),
        p % 4 == 3,
        0 < y < p,
    ensures
        sqrt_permutation(inverse_sqrt(y, p), p) == y,
        0 < inverse_sqrt(y, p) < p,
{
    let pi = p as int;
    let yi = y as int;
    let e = sqrt_exponent(p);
    let h = half_order(pi);
    let s = pow(yi, 2) % pi;
    lemma_square_is_pow2(yi);
    lemma_prime_product_nonzero(yi, yi, pi);
    lemma_mod_bound(yi * yi, pi);
    lemma_small_mod(s as nat, p);
    // the square of `y` is a residue: its half power leaves 1
    lemma_pow_mod_noop(yi * yi, h, pi);
    lemma_pow_multiplies(yi, 2, h);
    assert(2 * h == p - 1);
    lemma_small_mod(y, p);
    lemma_fermat_little(yi, pi);
    assert(pow(s, h) % pi == 1);
    // so its power `e` is a square root, which is `y` or `p - y`
    lemma_square_root(s, pi);
    let y0 = pow(s, e) % pi;
    lemma_square_roots_agree(y0, yi, pi);
    if y % 2 == 0 {
        lemma_jacobi_of_prime(s, pi);
        lemma_euler_criterion(s, pi);
        assert(jacobi_symbol(s, pi) == 1);
    } else {
        let x = pi - s;
        lemma_negation_half_power(s, pi);
        lemma_small_mod(x as nat, p);
        lemma_jacobi_of_prime(x, pi);
        lemma_euler_criterion(x, pi);
        assert(jacobi_symbol(x, pi) != 1);
        assert(pi - x == s);
    }
}

/// The slow direction takes zero to `p` itself, which the fast direction does
/// not take back: zero is the one block below `p` that the chain cannot
/// recover.
pub proof fn lemma_sqrt_of_zero(p: nat)
    requires
        is_prime(p as int),
        p % 4 == 3,
    ensures
        sqrt_permutation(0, p) == p,
        inverse_sqrt(p, p) == p,
{
    let pi = p as int;
    let e = sqrt_exponent(p);
    lemma_small_mod(0, p);
    lemma_jacobi_of_prime(0, pi);
    lemma_mod_self_0(pi);
    lemma_pow_mod_noop(pi, e, pi);
    lemma0_pow(e);
    lemma_pow_mod_noop(pi, 2, pi);
    lemma0_pow(2);
}

} // verus!
