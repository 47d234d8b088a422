//! Bitwise exclusive or on natural numbers.

use crate::digits::{lemma_radix_pow_is_power_of_two, radix_pow};
use vstd::arithmetic::power::*;
use vstd::prelude::*;

verus! {

/// The number whose binary digits are the exclusive or of those of `a` and `b`.
pub open spec fn xor_nat(a: nat, b: nat) -> nat
    decreases a + b,
{
    if a == 0 && b == 0 {
        0
    } else {
        ((a % 2 + b % 2) % 2) + 2 * xor_nat(a / 2, b / 2)
    }
}

/// The defining equation of `xor_nat`, which also holds at zero.
pub proof fn lemma_xor_unfold(a: nat, b: nat)
    ensures
        xor_nat(a, b) == ((a % 2 + b % 2) % 2) + 2 * xor_nat(a / 2, b / 2),
        xor_nat(a, b) % 2 == (a % 2 + b % 2) % 2,
        xor_nat(a, b) / 2 == xor_nat(a / 2, b / 2),
{
    if a == 0 && b == 0 {
        assert(xor_nat(0, 0) == 0);
    }
}

pub proof fn lemma_xor_commutative(a: nat, b: nat)
    ensures
        xor_nat(a, b) == xor_nat(b, a),
    decreases a + b,
{
    if a == 0 && b == 0 {
    } else {
        lemma_xor_commutative(a / 2, b / 2);
    }
}

/// Zero masks nothing.
pub proof fn lemma_xor_zero(a: nat)
    ensures
        xor_nat(a, 0) == a,
        xor_nat(0, a) == a,
    decreases a,
{
    if a != 0 {
        lemma_xor_zero(a / 2);
    }
}

/// Applying the same mask twice gives the number back.
pub proof fn lemma_xor_involution(a: nat, b: nat)
    ensures
        xor_nat(xor_nat(a, b), b) == a,
    decreases a + b,
{
    let c = xor_nat(a, b);
    lemma_xor_unfold(a, b);
    lemma_xor_unfold(c, b);
    if a == 0 && b == 0 {
    } else {
        lemma_xor_involution(a / 2, b / 2);
    }
}

/// Two different masks give two different results.
pub proof fn lemma_xor_injective(a: nat, b: nat, c: nat)
    requires
        xor_nat(a, b) == xor_nat(a, c),
    ensures
        b == c,
{
    lemma_xor_commutative(a, b);
    lemma_xor_commutative(a, c);
    lemma_xor_involution(b, a);
    lemma_xor_involution(c, a);
}

/// Only a number itself masks it to zero, and only zero leaves it as it is.
pub proof fn lemma_xor_fixed_points(a: nat, b: nat)
    ensures
        xor_nat(a, b) == 0 ==> a == b,
        xor_nat(a, b) == b ==> a == 0,
{
    lemma_xor_involution(a, b);
    lemma_xor_zero(b);
    lemma_xor_commutative(a, b);
    lemma_xor_commutative(0, b);
    if xor_nat(a, b) == b {
        lemma_xor_injective(b, a, 0);
    }
}

/// The exclusive or of two numbers below `2^k` is below `2^k`.
pub proof fn lemma_xor_bound_pow2(a: nat, b: nat, k: nat)
    requires
        a < pow(2, k),
        b < pow(2, k),
    ensures
        xor_nat(a, b) < pow(2, k),
    decreases k,
{
    reveal(pow);
    if k == 0 {
        assert(pow(2, 0) == 1);
    } else {
        assert(pow(2, k) == 2 * pow(2, (k - 1) as nat));
        lemma_xor_unfold(a, b);
        lemma_xor_bound_pow2(a / 2, b / 2, (k - 1) as nat);
    }
}

/// The exclusive or of two numbers that fit in `n` bytes fits in `n` bytes.
pub proof fn lemma_xor_bound(a: nat, b: nat, n: nat)
    requires
        a < radix_pow(n),
        b < radix_pow(n),
    ensures
        xor_nat(a, b) < radix_pow(n),
{
    lemma_radix_pow_is_power_of_two(n);
    lemma_xor_bound_pow2(a, b, 8 * n);
}

} // verus!
