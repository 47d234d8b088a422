use spartan_codec::{largest_prime, IsPrime, Natural};

#[test]
fn largest_prime_of_one_byte() {
    // 255 and 253 are composite, 251 is prime and leaves 3 on division by 4
    assert_eq!(largest_prime(1).to_string(), "251");
}

#[test]
fn largest_prime_of_two_bytes_skips_a_prime_with_remainder_one() {
    // 65521 is the largest prime below 65536, but leaves 1 on division by 4
    assert_eq!(largest_prime(2).to_string(), "65519");
}

#[test]
fn largest_prime_of_three_bytes() {
    assert_eq!(largest_prime(3).to_string(), "16777199");
}

#[test]
fn largest_prime_has_remainder_three_and_passes_the_test() {
    for size in [1u32, 2, 4, 8, 16, 32, 64] {
        let prime = largest_prime(size);
        assert_eq!(prime.mod_u(4), 3);
        assert_ne!(prime.is_probably_prime(25), IsPrime::No);
        assert!(prime.lt(&Natural::u_pow_u(2, size * 8)));
    }
}

#[test]
fn largest_prime_fills_its_size() {
    for size in [8usize, 16, 32, 64] {
        let bytes = largest_prime(size as u32).to_le_bytes(size);
        assert!(bytes[size - 1] >= 0x80);
    }
}

#[test]
fn no_larger_number_of_the_size_qualifies() {
    // every number above the prime of two bytes that leaves 3 on division by 4
    // is rejected by the test
    let mut candidate: u32 = 65519 + 4;
    while candidate < 65536 {
        let n = Natural::from_le_bytes(&candidate.to_le_bytes());
        assert_eq!(n.is_probably_prime(25), IsPrime::No);
        candidate += 4;
    }
}

#[test]
fn largest_prime_is_deterministic() {
    assert_eq!(largest_prime(16).to_string(), largest_prime(16).to_string());
}
