//! Natural numbers of any size.

use crate::bignum;
use crate::bignum::{decimal, primality_verdict, IsPrime, MAX_DIGITS};
use crate::bits::{lemma_xor_bound, xor_nat};
use crate::digits::{
    canonical, le_digits, le_value, lemma_canonical_len, lemma_canonical_lower_bound,
    lemma_le_digits_value, lemma_le_value_bound, lemma_le_value_injective,
    lemma_le_value_low_digit, lemma_le_value_prefix, lemma_le_value_push_zero,
    lemma_radix_pow_monotonic, lemma_radix_pow_positive, radix_pow,
};
use crate::residues::{is_prime, jacobi_symbol};
use vstd::arithmetic::div_mod::{
    lemma_div_decreases, lemma_div_pos_is_pos, lemma_mod_bound, lemma_small_mod,
};
use vstd::arithmetic::power::pow;
use vstd::prelude::*;
use vstd::slice::{slice_subrange, slice_to_vec};

verus! {

/// A natural number, held as its canonical little-endian base-256 digits.
#[derive(Debug)]
pub struct Natural {
    digits: Vec<u8>,
}

impl View for Natural {
    type V = nat;

    /// The number itself.
    closed spec fn view(&self) -> nat {
        le_value(self.digits@)
    }
}

impl Clone for Natural {
    fn clone(&self) -> (r: Self)
        ensures
            r@ == self@,
    {
        proof {
            use_type_invariant(self);
        }
        Natural { digits: slice_to_vec(self.digits.as_slice()) }
    }
}

impl Natural {
    #[verifier::type_invariant]
    spec fn well_formed(self) -> bool {
        canonical(self.digits@) && self.digits.len() <= MAX_DIGITS
    }

    /// The largest number that a `Natural` is made to hold is below this bound.
    pub open spec fn limit() -> nat {
        radix_pow(MAX_DIGITS as nat)
    }

    /// Wraps canonical digits of a number that is known to be small enough.
    fn from_canonical(digits: Vec<u8>, Ghost(bound_len): Ghost<nat>) -> (r: Natural)
        requires
            canonical(digits@),
            le_value(digits@) < radix_pow(bound_len),
            bound_len <= MAX_DIGITS,
        ensures
            r@ == le_value(digits@),
    {
        proof {
            lemma_canonical_len(digits@, bound_len);
        }
        Natural { digits }
    }

    /// The number that `bytes` write in base 256, least significant byte first.
    pub fn from_le_bytes(bytes: &[u8]) -> (r: Natural)
        requires
            bytes@.len() <= MAX_DIGITS,
        ensures
            r@ == le_value(bytes@),
    {
        let mut n: usize = bytes.len();
        assert(bytes@.subrange(0, n as int) =~= bytes@);
        while n > 0 && bytes[n - 1] == 0
            invariant
                n <= bytes@.len(),
                le_value(bytes@.subrange(0, n as int)) == le_value(bytes@),
            decreases n,
        {
            proof {
                let s = bytes@.subrange(0, n as int);
                assert(s.drop_last() =~= bytes@.subrange(0, n - 1));
                assert(s.last() == 0u8);
                assert((0u8 as nat) * radix_pow((s.len() - 1) as nat) == 0) by (nonlinear_arith);
            }
            n = n - 1;
        }
        let digits = slice_to_vec(slice_subrange(bytes, 0, n));
        Natural { digits }
    }

    /// A number below 256.
    pub fn from_u8(v: u8) -> (r: Natural)
        ensures
            r@ == v as nat,
    {
        let mut digits: Vec<u8> = Vec::new();
        assert(le_value(digits@) == 0);
        if v != 0 {
            digits.push(v);
            proof {
                let s = digits@;
                assert(s.drop_last() =~= Seq::<u8>::empty());
                assert(pow(256, 0) == 1) by {
                    reveal(pow);
                }
                assert(le_value(s) == le_value(s.drop_last()) + (v as nat) * radix_pow(0));
                assert((v as nat) * radix_pow(0) == v as nat) by (nonlinear_arith)
                    requires
                        radix_pow(0) == 1,
                ;
            }
        }
        Natural { digits }
    }

    /// The `len` low base-256 digits of the number, least significant first:
    /// the number itself, padded with zero bytes, where it is below `256^len`.
    pub fn to_le_bytes(&self, len: usize) -> (r: Vec<u8>)
        ensures
            r@ == le_digits(self@, len as nat),
    {
        let kept: usize = if self.digits.len() < len {
            self.digits.len()
        } else {
            len
        };
        let mut bytes = slice_to_vec(slice_subrange(self.digits.as_slice(), 0, kept));
        proof {
            lemma_le_value_prefix(self.digits@, kept as nat);
            if kept < len {
                lemma_le_value_bound(self.digits@);
                lemma_small_mod(self@, radix_pow(kept as nat));
            }
        }
        while bytes.len() < len
            invariant
                bytes@.len() <= len,
                kept < len ==> le_value(bytes@) == self@,
                kept == len ==> le_value(bytes@) == self@ % radix_pow(len as nat),
            decreases len - bytes@.len(),
        {
            proof {
                lemma_le_value_push_zero(bytes@);
            }
            bytes.push(0u8);
        }
        proof {
            lemma_le_value_bound(bytes@);
            lemma_radix_pow_positive(len as nat);
            if kept < len {
                lemma_small_mod(self@, radix_pow(len as nat));
            }
            lemma_le_digits_value(self@, len as nat);
            lemma_le_value_injective(bytes@, le_digits(self@, len as nat));
        }
        bytes
    }

    /// Whether the number is odd.
    pub fn is_odd(&self) -> (r: bool)
        ensures
            r == (self@ % 2 == 1),
    {
        if self.digits.len() == 0 {
            false
        } else {
            proof {
                lemma_le_value_low_digit(self.digits@);
            }
            self.digits[0] % 2 == 1
        }
    }

    /// Whether the number is even.
    pub fn is_even(&self) -> (r: bool)
        ensures
            r == (self@ % 2 == 0),
    {
        !self.is_odd()
    }

    /// Whether the number is zero.
    pub fn is_zero(&self) -> (r: bool)
        ensures
            r == (self@ == 0),
    {
        proof {
            use_type_invariant(self);
            if self.digits@.len() > 0 {
                lemma_canonical_lower_bound(self.digits@);
                lemma_radix_pow_positive((self.digits@.len() - 1) as nat);
            }
        }
        self.digits.len() == 0
    }

    /// Whether the number is below `other`.
    pub fn lt(&self, other: &Natural) -> (r: bool)
        ensures
            r == (self@ < other@),
    {
        proof {
            use_type_invariant(self);
            use_type_invariant(other);
        }
        bignum::less_than(&self.digits, &other.digits)
    }

    /// The remainder of the number on division by `modulo`.
    pub fn mod_u(&self, modulo: u32) -> (r: u32)
        requires
            modulo != 0,
        ensures
            r == self@ % (modulo as nat),
    {
        proof {
            use_type_invariant(self);
        }
        bignum::mod_u(&self.digits, modulo)
    }

    /// The bitwise exclusive or of the number and `other`.
    pub fn bitxor(&self, other: &Natural) -> (r: Natural)
        ensures
            r@ == xor_nat(self@, other@),
    {
        proof {
            use_type_invariant(self);
            use_type_invariant(other);
        }
        let digits = bignum::bitxor(&self.digits, &other.digits);
        let ghost n: nat = if self.digits@.len() >= other.digits@.len() {
            self.digits@.len()
        } else {
            other.digits@.len()
        };
        proof {
            lemma_le_value_bound(self.digits@);
            lemma_le_value_bound(other.digits@);
            lemma_radix_pow_monotonic(self.digits@.len(), n);
            lemma_radix_pow_monotonic(other.digits@.len(), n);
            lemma_xor_bound(self@, other@, n);
        }
        Natural::from_canonical(digits, Ghost(n))
    }

    /// The sum of the number and `other`.
    pub fn add(&self, other: &Natural) -> (r: Natural)
        requires
            self@ + other@ < Self::limit(),
        ensures
            r@ == self@ + other@,
    {
        proof {
            use_type_invariant(self);
            use_type_invariant(other);
        }
        let digits = bignum::add(&self.digits, &other.digits);
        Natural::from_canonical(digits, Ghost(MAX_DIGITS as nat))
    }

    /// The difference of the number and `other`, which is not the larger.
    pub fn sub(&self, other: &Natural) -> (r: Natural)
        requires
            other@ <= self@,
        ensures
            r@ == self@ - other@,
    {
        proof {
            use_type_invariant(self);
            use_type_invariant(other);
            lemma_le_value_bound(self.digits@);
        }
        let digits = bignum::sub(&self.digits, &other.digits);
        Natural::from_canonical(digits, Ghost(self.digits@.len()))
    }

    /// The quotient of the number by a `divisor` that divides it.
    pub fn div_exact_u(&self, divisor: u32) -> (r: Natural)
        requires
            divisor != 0,
            self@ % (divisor as nat) == 0,
        ensures
            r@ == self@ / (divisor as nat),
    {
        proof {
            use_type_invariant(self);
            lemma_le_value_bound(self.digits@);
            if self@ > 0 {
                lemma_div_pos_is_pos(self@ as int, divisor as int);
                if divisor > 1 {
                    lemma_div_decreases(self@ as int, divisor as int);
                }
            }
        }
        let digits = bignum::div_exact_u(&self.digits, divisor);
        Natural::from_canonical(digits, Ghost(self.digits@.len()))
    }

    /// `base` to the power `exponent`.
    pub fn u_pow_u(base: u32, exponent: u32) -> (r: Natural)
        requires
            pow(base as int, exponent as nat) < Self::limit(),
        ensures
            r@ == pow(base as int, exponent as nat),
    {
        let digits = bignum::u_pow_u(base, exponent);
        Natural::from_canonical(digits, Ghost(MAX_DIGITS as nat))
    }

    /// The number to the power `exponent`, reduced modulo `modulus`.
    pub fn pow_mod(&self, exponent: &Natural, modulus: &Natural) -> (r: Natural)
        requires
            modulus@ > 0,
        ensures
            r@ == pow(self@ as int, exponent@) % (modulus@ as int),
            r@ < modulus@,
    {
        proof {
            use_type_invariant(self);
            use_type_invariant(exponent);
            use_type_invariant(modulus);
            lemma_le_value_bound(modulus.digits@);
            lemma_mod_bound(pow(self@ as int, exponent@), modulus@ as int);
        }
        let digits = bignum::pow_mod(&self.digits, &exponent.digits, &modulus.digits);
        Natural::from_canonical(digits, Ghost(modulus.digits@.len()))
    }

    /// The Jacobi symbol of the number over an odd `n`.
    pub fn jacobi(&self, n: &Natural) -> (r: i32)
        requires
            n@ % 2 == 1,
        ensures
            r == jacobi_symbol(self@ as int, n@ as int),
    {
        proof {
            use_type_invariant(self);
            use_type_invariant(n);
        }
        bignum::jacobi(&self.digits, &n.digits)
    }

    /// Tests whether the number is prime, with `reps` as the measure of effort.
    /// The answer `No` is certain, and so is `Yes`.
    pub fn is_probably_prime(&self, reps: u32) -> (r: IsPrime)
        requires
            reps <= 0x7fff_ffff,
        ensures
            r == primality_verdict(self@, reps),
            r == IsPrime::No ==> !is_prime(self@ as int),
            r == IsPrime::Yes ==> is_prime(self@ as int),
    {
        proof {
            use_type_invariant(self);
        }
        bignum::is_probably_prime(&self.digits, reps)
    }

    /// The decimal numeral of the number.
    pub fn to_string(&self) -> (r: String)
        ensures
            r@ == decimal(self@),
    {
        proof {
            use_type_invariant(self);
        }
        bignum::to_decimal(&self.digits)
    }
}

} // verus!
