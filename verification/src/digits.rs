//! Little-endian base-256 digit strings and the natural numbers they denote.

use vstd::arithmetic::div_mod::*;
use vstd::arithmetic::mul::*;
use vstd::arithmetic::power::*;
use vstd::prelude::*;

verus! {

/// `256^n`, the number of values that `n` bytes can hold.
pub open spec fn radix_pow(n: nat) -> nat {
    pow(256, n) as nat
}

/// The natural number written by `s` in base 256, least significant digit first.
pub open spec fn le_value(s: Seq<u8>) -> nat
    decreases s.len(),
{
    if s.len() == 0 {
        0
    } else {
        le_value(s.drop_last()) + (s.last() as nat) * radix_pow((s.len() - 1) as nat)
    }
}

/// A digit string is canonical when its most significant digit is not zero.
/// Zero is written by the empty string.
pub open spec fn canonical(s: Seq<u8>) -> bool {
    s.len() == 0 || s.last() != 0
}

/// The `n` low base-256 digits of `v`, least significant first.
pub open spec fn le_digits(v: nat, n: nat) -> Seq<u8> {
    Seq::new(n, |i: int| ((v / radix_pow(i as nat)) % 256) as u8)
}

pub proof fn lemma_radix_pow_positive(n: nat)
    ensures
        radix_pow(n) > 0,
{
    lemma_pow_positive(256, n);
}

pub proof fn lemma_radix_pow_step(n: nat)
    ensures
        radix_pow(n + 1) == 256 * radix_pow(n),
        radix_pow(0) == 1,
{
    lemma_pow_positive(256, n);
    lemma_pow_positive(256, n + 1);
    reveal(pow);
    assert(pow(256, n + 1) == 256 * pow(256, n));
    assert(pow(256, 0) == 1);
}

pub proof fn lemma_radix_pow_monotonic(m: nat, n: nat)
    requires
        m <= n,
    ensures
        radix_pow(m) <= radix_pow(n),
{
    lemma_pow_positive(256, m);
    lemma_pow_positive(256, n);
    lemma_pow_increases(256, m, n);
}

pub proof fn lemma_radix_pow_adds(m: nat, n: nat)
    ensures
        radix_pow(m + n) == radix_pow(m) * radix_pow(n),
{
    lemma_pow_positive(256, m);
    lemma_pow_positive(256, n);
    lemma_pow_positive(256, m + n);
    lemma_pow_adds(256, m, n);
}

pub proof fn lemma_radix_pow_strictly_monotonic(m: nat, n: nat)
    requires
        m < n,
    ensures
        radix_pow(m) < radix_pow(n),
{
    lemma_pow_positive(256, m);
    lemma_pow_positive(256, n);
    lemma_pow_strictly_increases(256, m, n);
}

/// `256^n` is `2^(8n)`.
pub proof fn lemma_radix_pow_is_power_of_two(n: nat)
    ensures
        radix_pow(n) == pow(2, 8 * n),
{
    assert(pow(2, 8) == 256) by {
        reveal_with_fuel(pow, 9);
    }
    lemma_pow_multiplies(2, 8, n);
    lemma_pow_positive(256, n);
}

/// A string of `n` digits denotes a number below `256^n`.
pub proof fn lemma_le_value_bound(s: Seq<u8>)
    ensures
        le_value(s) < radix_pow(s.len()),
    decreases s.len(),
{
    if s.len() == 0 {
        lemma_radix_pow_step(0);
    } else {
        let n = (s.len() - 1) as nat;
        lemma_le_value_bound(s.drop_last());
        lemma_radix_pow_step(n);
        let r = radix_pow(n);
        let d = s.last() as nat;
        assert(d * r <= 255 * r) by (nonlinear_arith)
            requires
                d <= 255,
                r >= 0,
        ;
    }
}

/// A non-empty canonical string of `n` digits denotes a number of at least `256^(n-1)`.
pub proof fn lemma_canonical_lower_bound(s: Seq<u8>)
    requires
        canonical(s),
        s.len() > 0,
    ensures
        le_value(s) >= radix_pow((s.len() - 1) as nat),
{
    let r = radix_pow((s.len() - 1) as nat);
    let d = s.last() as nat;
    assert(d * r >= r) by (nonlinear_arith)
        requires
            d >= 1,
            r >= 0,
    ;
}

/// A canonical string that denotes a number below `256^n` has at most `n` digits.
pub proof fn lemma_canonical_len(s: Seq<u8>, n: nat)
    requires
        canonical(s),
        le_value(s) < radix_pow(n),
    ensures
        s.len() <= n,
{
    if s.len() > n {
        lemma_canonical_lower_bound(s);
        lemma_radix_pow_monotonic(n, (s.len() - 1) as nat);
    }
}

/// Zero digits at the significant end do not change the number.
pub proof fn lemma_le_value_push_zero(s: Seq<u8>)
    ensures
        le_value(s.push(0u8)) == le_value(s),
{
    let t = s.push(0u8);
    assert(t.drop_last() =~= s);
    assert(t.last() == 0u8);
    assert((0u8 as nat) * radix_pow((t.len() - 1) as nat) == 0) by (nonlinear_arith);
}

/// The first `n` digits of a string denote the number reduced modulo `256^n`.
pub proof fn lemma_le_value_prefix(s: Seq<u8>, n: nat)
    requires
        n <= s.len(),
    ensures
        le_value(s.subrange(0, n as int)) == le_value(s) % radix_pow(n),
    decreases s.len() - n,
{
    lemma_radix_pow_positive(n);
    if n == s.len() {
        assert(s.subrange(0, n as int) =~= s);
        lemma_le_value_bound(s);
        lemma_small_mod(le_value(s), radix_pow(n));
    } else {
        let t = s.drop_last();
        lemma_le_value_prefix(t, n);
        assert(s.subrange(0, n as int) =~= t.subrange(0, n as int));
        let rest = (s.len() - 1 - n) as nat;
        lemma_radix_pow_adds(n, rest);
        let d = s.last() as nat;
        assert(d * (radix_pow(n) * radix_pow(rest)) == radix_pow(n) * (d * radix_pow(rest)))
            by (nonlinear_arith);
        lemma_mod_multiples_vanish(
            (d * radix_pow(rest)) as int,
            le_value(t) as int,
            radix_pow(n) as int,
        );
    }
}

/// The low digit decides the number modulo 256.
pub proof fn lemma_le_value_low_digit(s: Seq<u8>)
    requires
        s.len() > 0,
    ensures
        le_value(s) % 256 == s[0] as nat,
    decreases s.len(),
{
    if s.len() == 1 {
        assert(s.drop_last().len() == 0);
        lemma_radix_pow_step(0);
        assert(le_value(s.drop_last()) == 0);
        assert(le_value(s) == (s[0] as nat) * 1);
    } else {
        let t = s.drop_last();
        lemma_le_value_low_digit(t);
        assert(t[0] == s[0]);
        let k = (s.len() - 2) as nat;
        lemma_radix_pow_step(k);
        let d = s.last() as nat;
        let r = radix_pow(k);
        assert(d * radix_pow((s.len() - 1) as nat) == 256 * (d * r)) by (nonlinear_arith)
            requires
                radix_pow((s.len() - 1) as nat) == 256 * r,
        ;
        lemma_mod_multiples_vanish((d * r) as int, le_value(t) as int, 256);
    }
}

/// Two digit strings of one length that denote the same number are the same string.
pub proof fn lemma_le_value_injective(a: Seq<u8>, b: Seq<u8>)
    requires
        a.len() == b.len(),
        le_value(a) == le_value(b),
    ensures
        a == b,
    decreases a.len(),
{
    if a.len() == 0 {
        assert(a =~= b);
    } else {
        let n = (a.len() - 1) as nat;
        let r = radix_pow(n);
        lemma_radix_pow_positive(n);
        lemma_le_value_bound(a.drop_last());
        lemma_le_value_bound(b.drop_last());
        let x = le_value(a.drop_last());
        let y = le_value(b.drop_last());
        let c = a.last() as nat;
        let d = b.last() as nat;
        assert(c == d) by (nonlinear_arith)
            requires
                x + c * r == y + d * r,
                x < r,
                y < r,
                r > 0,
        ;
        assert(x == y);
        lemma_le_value_injective(a.drop_last(), b.drop_last());
        assert(a =~= a.drop_last().push(a.last()));
        assert(b =~= b.drop_last().push(b.last()));
    }
}

/// The `n` low digits of `v` denote `v` reduced modulo `256^n`.
pub proof fn lemma_le_digits_value(v: nat, n: nat)
    ensures
        le_digits(v, n).len() == n,
        le_value(le_digits(v, n)) == v % radix_pow(n),
    decreases n,
{
    if n == 0 {
        lemma_radix_pow_step(0);
    } else {
        let m = (n - 1) as nat;
        let s = le_digits(v, n);
        assert(s.drop_last() =~= le_digits(v, m));
        lemma_le_digits_value(v, m);
        let r = radix_pow(m);
        lemma_radix_pow_positive(m);
        lemma_radix_pow_step(m);
        assert(s.last() as nat == (v / r) % 256);
        lemma_breakdown(v as int, r as int, 256);
        assert(r * 256 == radix_pow(n)) by (nonlinear_arith)
            requires
                radix_pow(n) == 256 * r,
        ;
        assert(((v / r) % 256) * r == r * ((v / r) % 256)) by (nonlinear_arith);
    }
}

/// Writing a number below `256^n` with `n` digits and reading it back gives the number.
pub proof fn lemma_le_digits_round_trip(v: nat, n: nat)
    requires
        v < radix_pow(n),
    ensures
        le_value(le_digits(v, n)) == v,
{
    lemma_le_digits_value(v, n);
    lemma_small_mod(v, radix_pow(n));
}

/// Reading a digit string and writing the number with as many digits gives the string.
pub proof fn lemma_le_value_round_trip(s: Seq<u8>)
    ensures
        le_digits(le_value(s), s.len()) == s,
{
    lemma_le_value_bound(s);
    lemma_le_digits_round_trip(le_value(s), s.len());
    lemma_le_digits_value(le_value(s), s.len());
    lemma_le_value_injective(le_digits(le_value(s), s.len()), s);
}

} // verus!
