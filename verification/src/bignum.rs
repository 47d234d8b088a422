//! Arbitrary-precision arithmetic, done by the `rug` crate on top of GMP.
//!
//! Numbers cross this boundary as little-endian base-256 digit strings. Each
//! function here reads its arguments with `Integer::from_digits`, makes one
//! call, and writes the result with `Integer::to_digits`, which gives the digits
//! of the number up to its most significant one and none for zero. The
//! contracts are taken on trust from the documentation of `rug` and GMP;
//! nothing in this module is proved.

use crate::bits::xor_nat;
use crate::digits::{canonical, le_value, radix_pow};
use crate::residues::{is_prime, jacobi_symbol};
use rug::integer::Order;
use rug::Integer;
use vstd::arithmetic::power::pow;
use vstd::prelude::*;

verus! {

/// The longest digit string that these functions take: its length in bits
/// still fits every integer type that the calls convert it to.
pub const MAX_DIGITS: usize = 0x1fff_ffff;

/// What a primality test found out about a number.
#[derive(Clone, Copy, Debug, PartialEq, Eq, Structural)]
pub enum IsPrime {
    /// The number is certainly not prime.
    No,
    /// The number passed every test, which a composite number does very rarely.
    Probably,
    /// The number is certainly prime.
    Yes,
}

/// The verdict of GMP's primality test on `n` with parameter `reps`: trial
/// divisions, a Baillie-PSW test and `reps - 24` Miller-Rabin rounds, whose
/// bases come from a generator that every call seeds in the same way.
pub uninterp spec fn primality_verdict(n: nat, reps: u32) -> IsPrime;

/// The decimal numeral of `n`, without sign or leading zeros.
pub open spec fn decimal(n: nat) -> Seq<char>
    decreases n,
{
    if n < 10 {
        seq![decimal_digit(n)]
    } else {
        decimal(n / 10).push(decimal_digit(n % 10))
    }
}

/// The character for a digit below ten.
pub open spec fn decimal_digit(d: nat) -> char {
    ((48 + d) as u8) as char
}

/// `Integer::pow_mod`: `base` to the power `exponent`, reduced modulo `modulus`
/// into `[0, modulus)`. With a non-negative exponent and a non-zero modulus the
/// call always has an answer.
#[verifier::external_body]
pub(crate) fn pow_mod(base: &Vec<u8>, exponent: &Vec<u8>, modulus: &Vec<u8>) -> (r: Vec<u8>)
    requires
        base.len() <= MAX_DIGITS,
        exponent.len() <= MAX_DIGITS,
        modulus.len() <= MAX_DIGITS,
        le_value(modulus@) > 0,
    ensures
        canonical(r@),
        le_value(r@) == pow(le_value(base@) as int, le_value(exponent@)) % (le_value(
            modulus@,
        ) as int),
{
    let b = Integer::from_digits(base, Order::Lsf);
    let e = Integer::from_digits(exponent, Order::Lsf);
    let m = Integer::from_digits(modulus, Order::Lsf);
    b.pow_mod(&e, &m).unwrap().to_digits(Order::Lsf)
}

/// `Integer::jacobi`: the Jacobi symbol `(a/n)`, which GMP defines for odd `n`
/// and which `jacobi_symbol` writes out as the product of Legendre symbols.
#[verifier::external_body]
pub(crate) fn jacobi(a: &Vec<u8>, n: &Vec<u8>) -> (r: i32)
    requires
        a.len() <= MAX_DIGITS,
        n.len() <= MAX_DIGITS,
        le_value(n@) % 2 == 1,
    ensures
        r == jacobi_symbol(le_value(a@) as int, le_value(n@) as int),
{
    Integer::from_digits(a, Order::Lsf).jacobi(&Integer::from_digits(n, Order::Lsf))
}

/// `Integer::is_probably_prime`: GMP's primality test, whose verdict depends on
/// the number and on `reps` alone. It answers `No` only for a number that is
/// certainly not prime, and `Yes` only for a certain prime. The call panics
/// where `reps` does not fit a C `int`.
#[verifier::external_body]
pub(crate) fn is_probably_prime(n: &Vec<u8>, reps: u32) -> (r: IsPrime)
    requires
        n.len() <= MAX_DIGITS,
        reps <= 0x7fff_ffff,
    ensures
        r == primality_verdict(le_value(n@), reps),
        r == IsPrime::No ==> !is_prime(le_value(n@) as int),
        r == IsPrime::Yes ==> is_prime(le_value(n@) as int),
{
    match Integer::from_digits(n, Order::Lsf).is_probably_prime(reps) {
        rug::integer::IsPrime::No => IsPrime::No,
        rug::integer::IsPrime::Probably => IsPrime::Probably,
        rug::integer::IsPrime::Yes => IsPrime::Yes,
    }
}

/// `BitXor` for `Integer`: the bitwise exclusive or, here of two numbers that
/// are not negative.
#[verifier::external_body]
pub(crate) fn bitxor(a: &Vec<u8>, b: &Vec<u8>) -> (r: Vec<u8>)
    requires
        a.len() <= MAX_DIGITS,
        b.len() <= MAX_DIGITS,
    ensures
        canonical(r@),
        le_value(r@) == xor_nat(le_value(a@), le_value(b@)),
{
    let x = Integer::from_digits(a, Order::Lsf);
    let y = Integer::from_digits(b, Order::Lsf);
    Integer::from(&x ^ &y).to_digits(Order::Lsf)
}

/// `Add` for `Integer`: the sum.
#[verifier::external_body]
pub(crate) fn add(a: &Vec<u8>, b: &Vec<u8>) -> (r: Vec<u8>)
    requires
        a.len() <= MAX_DIGITS,
        b.len() <= MAX_DIGITS,
    ensures
        canonical(r@),
        le_value(r@) == le_value(a@) + le_value(b@),
{
    let x = Integer::from_digits(a, Order::Lsf);
    let y = Integer::from_digits(b, Order::Lsf);
    Integer::from(&x + &y).to_digits(Order::Lsf)
}

/// `Sub` for `Integer`: the difference, here of two numbers the first of which
/// is not the smaller, so that it is not negative.
#[verifier::external_body]
pub(crate) fn sub(a: &Vec<u8>, b: &Vec<u8>) -> (r: Vec<u8>)
    requires
        a.len() <= MAX_DIGITS,
        b.len() <= MAX_DIGITS,
        le_value(a@) >= le_value(b@),
    ensures
        canonical(r@),
        le_value(r@) == le_value(a@) - le_value(b@),
{
    let x = Integer::from_digits(a, Order::Lsf);
    let y = Integer::from_digits(b, Order::Lsf);
    Integer::from(&x - &y).to_digits(Order::Lsf)
}

/// `Integer::div_exact_u`: the quotient of a division that leaves no remainder.
/// The call panics on a zero divisor and is wrong when there is a remainder.
#[verifier::external_body]
pub(crate) fn div_exact_u(a: &Vec<u8>, divisor: u32) -> (r: Vec<u8>)
    requires
        a.len() <= MAX_DIGITS,
        divisor != 0,
        le_value(a@) % (divisor as nat) == 0,
    ensures
        canonical(r@),
        le_value(r@) == le_value(a@) / (divisor as nat),
{
    Integer::from_digits(a, Order::Lsf).div_exact_u(divisor).to_digits(Order::Lsf)
}

/// `Integer::mod_u`: the remainder of a division by a machine word. The call
/// panics on a zero modulus.
#[verifier::external_body]
pub(crate) fn mod_u(a: &Vec<u8>, modulo: u32) -> (r: u32)
    requires
        a.len() <= MAX_DIGITS,
        modulo != 0,
    ensures
        r == le_value(a@) % (modulo as nat),
{
    Integer::from_digits(a, Order::Lsf).mod_u(modulo)
}

/// `Integer::u_pow_u`: a power of machine words, computed in full. The power
/// is kept to a size that can be held.
#[verifier::external_body]
pub(crate) fn u_pow_u(base: u32, exponent: u32) -> (r: Vec<u8>)
    requires
        pow(base as int, exponent as nat) < radix_pow(MAX_DIGITS as nat),
    ensures
        canonical(r@),
        le_value(r@) == pow(base as int, exponent as nat),
{
    Integer::from(Integer::u_pow_u(base, exponent)).to_digits(Order::Lsf)
}

/// `PartialOrd` for `Integer`: the order of the two numbers.
#[verifier::external_body]
pub(crate) fn less_than(a: &Vec<u8>, b: &Vec<u8>) -> (r: bool)
    requires
        a.len() <= MAX_DIGITS,
        b.len() <= MAX_DIGITS,
    ensures
        r == (le_value(a@) < le_value(b@)),
{
    Integer::from_digits(a, Order::Lsf) < Integer::from_digits(b, Order::Lsf)
}

/// `Integer::to_string_radix` with radix ten: the decimal numeral.
#[verifier::external_body]
pub(crate) fn to_decimal(a: &Vec<u8>) -> (r: String)
    requires
        a.len() <= MAX_DIGITS,
    ensures
        r@ == decimal(le_value(a@)),
{
    Integer::from_digits(a, Order::Lsf).to_string_radix(10)
}

} // verus!
