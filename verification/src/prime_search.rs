//! The deterministic choice of the field's prime.

use crate::bignum::{primality_verdict, IsPrime};
use crate::digits::{
    lemma_radix_pow_is_power_of_two, lemma_radix_pow_positive, lemma_radix_pow_step,
    lemma_radix_pow_strictly_monotonic, radix_pow,
};
use crate::natural::Natural;
use crate::residues::is_prime;
use crate::sloth::MAX_PRIME_SIZE_BYTES;
use vstd::prelude::*;

verus! {

/// The effort that the search spends on each primality test.
pub const PRIMALITY_REPS: u32 = 25;

/// `n` passes the primality test of the search: it is prime, or one of the very
/// rare composite numbers that the test cannot tell from a prime.
pub open spec fn is_probable_prime(n: nat) -> bool {
    primality_verdict(n, PRIMALITY_REPS) != IsPrime::No
}

/// `r` is the largest odd number below `c` that passes the primality test, and
/// no odd number between them is prime.
pub open spec fn is_prev_prime(r: nat, c: nat) -> bool {
    &&& 3 <= r < c
    &&& r % 2 == 1
    &&& is_probable_prime(r)
    &&& forall|d: nat| r < d < c && d % 2 == 1 ==> !is_probable_prime(d) && !is_prime(d as int)
}

/// `p` is the prime that the search picks for a field of `size` bytes: the
/// largest number of that size that leaves 3 on division by 4 and passes the
/// primality test. No larger number of that size and remainder is prime.
pub open spec fn is_largest_prime(p: nat, size: nat) -> bool {
    &&& 3 <= p < radix_pow(size)
    &&& p % 4 == 3
    &&& is_probable_prime(p)
    &&& forall|c: nat| p < c < radix_pow(size) - 1 && c % 4 == 3 ==> !is_probable_prime(c)
    &&& forall|c: nat| p < c < radix_pow(size) && c % 4 == 3 ==> !is_prime(c as int)
}

/// Three is prime.
pub proof fn lemma_three_is_prime()
    ensures
        is_prime(3),
{
    assert forall|d: int| 1 < d < 3 implies #[trigger] (3int % d) != 0 by {
        assert(d == 2);
    }
}

/// The largest number of a given size is a multiple of three, and so not prime.
pub proof fn lemma_all_ones_is_composite(size: nat)
    requires
        size >= 1,
    ensures
        radix_pow(size) >= 256,
        (radix_pow(size) - 1) % 3 == 0,
        !is_prime(radix_pow(size) - 1),
    decreases size,
{
    lemma_radix_pow_step((size - 1) as nat);
    lemma_radix_pow_positive((size - 1) as nat);
    if size > 1 {
        lemma_all_ones_is_composite((size - 1) as nat);
    }
    let n = radix_pow(size) - 1;
    assert(n % 3 == 0);
    assert(1 < 3 < n);
}

/// Finds the next smaller odd number that passes the primality test.
fn prev_prime(prime: &mut Natural)
    requires
        old(prime)@ >= 4,
    ensures
        is_prev_prime(final(prime)@, old(prime)@),
{
    let one = Natural::from_u8(1);
    let two = Natural::from_u8(2);
    if prime.is_even() {
        *prime = prime.sub(&one);
    } else {
        *prime = prime.sub(&two);
    }
    loop
        invariant
            two@ == 2,
            3 <= prime@ < old(prime)@,
            prime@ % 2 == 1,
            forall|d: nat|
                prime@ < d < old(prime)@ && d % 2 == 1 ==> !is_probable_prime(d) && !is_prime(
                    d as int,
                ),
        ensures
            is_prev_prime(prime@, old(prime)@),
        decreases prime@,
    {
        let tested = prime.is_probably_prime(PRIMALITY_REPS);
        if tested != IsPrime::No {
            break ;
        }
        proof {
            lemma_three_is_prime();
        }
        *prime = prime.sub(&two);
    }
}

/// The largest number below `256^prime_size_bytes` that leaves 3 on division
/// by 4 and passes the primality test.
pub fn largest_prime(prime_size_bytes: u32) -> (prime: Natural)
    requires
        1 <= prime_size_bytes <= MAX_PRIME_SIZE_BYTES,
    ensures
        is_largest_prime(prime@, prime_size_bytes as nat),
{
    let ghost size = prime_size_bytes as nat;
    proof {
        lemma_radix_pow_is_power_of_two(size);
        lemma_radix_pow_strictly_monotonic(size, crate::bignum::MAX_DIGITS as nat);
        lemma_all_ones_is_composite(size);
    }
    let one = Natural::from_u8(1);
    let mut prime = Natural::u_pow_u(2, prime_size_bytes * 8).sub(&one);

    prev_prime(&mut prime);
    while prime.mod_u(4) != 3
        invariant
            3 <= prime@ < radix_pow(size) - 1,
            prime@ % 2 == 1,
            is_probable_prime(prime@),
            forall|c: nat|
                prime@ < c < radix_pow(size) - 1 && c % 4 == 3 ==> !is_probable_prime(c)
                    && !is_prime(c as int),
            !is_prime(radix_pow(size) - 1),
        decreases prime@,
    {
        let ghost skipped = prime@;
        prev_prime(&mut prime);
        proof {
            assert forall|c: nat|
                prime@ < c < radix_pow(size) - 1 && c % 4 == 3 implies !is_probable_prime(c)
                && !is_prime(c as int) by {
                if c < skipped {
                    assert(c % 2 == 1);
                } else {
                    assert(c != skipped);
                }
            }
        }
    }

    prime
}

} // verus!
