use spartan_codec::{IsPrime, Natural};

fn natural(v: u64) -> Natural {
    Natural::from_le_bytes(&v.to_le_bytes())
}

#[test]
fn from_le_bytes_reads_least_significant_byte_first() {
    assert_eq!(Natural::from_le_bytes(&[0x78, 0x56, 0x34, 0x12]).to_string(), "305419896");
    assert_eq!(Natural::from_le_bytes(&[0x01, 0x00, 0x00]).to_string(), "1");
    assert_eq!(Natural::from_le_bytes(&[]).to_string(), "0");
    assert_eq!(Natural::from_le_bytes(&[0, 0, 0, 0]).to_string(), "0");
}

#[test]
fn to_le_bytes_pads_with_zero_bytes() {
    assert_eq!(natural(0x1234).to_le_bytes(4), vec![0x34, 0x12, 0x00, 0x00]);
    assert_eq!(natural(0x1234).to_le_bytes(2), vec![0x34, 0x12]);
    assert_eq!(natural(0).to_le_bytes(3), vec![0, 0, 0]);
    assert_eq!(natural(0).to_le_bytes(0), Vec::<u8>::new());
    assert_eq!(
        natural(0xffff_ffff_ffff_ffff).to_le_bytes(9),
        vec![0xff, 0xff, 0xff, 0xff, 0xff, 0xff, 0xff, 0xff, 0x00]
    );
}

#[test]
fn to_le_bytes_keeps_the_low_digits() {
    assert_eq!(natural(0x12_3456).to_le_bytes(2), vec![0x56, 0x34]);
    assert_eq!(natural(0x12_3456).to_le_bytes(0), Vec::<u8>::new());
    assert_eq!(natural(0x0100).to_le_bytes(1), vec![0x00]);
}

#[test]
fn bytes_round_trip_through_a_natural() {
    let bytes: Vec<u8> = (0..64u32).map(|i| (i * 37 + 11) as u8).collect();
    assert_eq!(Natural::from_le_bytes(&bytes).to_le_bytes(64), bytes);
}

#[test]
fn from_u8_holds_the_byte() {
    assert_eq!(Natural::from_u8(0).to_string(), "0");
    assert_eq!(Natural::from_u8(7).to_string(), "7");
    assert_eq!(Natural::from_u8(255).to_string(), "255");
    assert!(Natural::from_u8(0).is_zero());
    assert!(!Natural::from_u8(1).is_zero());
}

#[test]
fn parity() {
    assert!(natural(1).is_odd());
    assert!(!natural(1).is_even());
    assert!(natural(0).is_even());
    assert!(!natural(0).is_odd());
    assert!(natural(0x1_0000_0000).is_even());
    assert!(natural(0x1_0000_0001).is_odd());
}

#[test]
fn order() {
    assert!(natural(3).lt(&natural(4)));
    assert!(!natural(4).lt(&natural(4)));
    assert!(!natural(5).lt(&natural(4)));
    assert!(natural(0xff).lt(&natural(0x100)));
    assert!(!natural(0x100).lt(&natural(0xff)));
}

#[test]
fn remainder_by_a_word() {
    assert_eq!(natural(1_000_003).mod_u(4), 3);
    assert_eq!(natural(1_000_003).mod_u(1000), 3);
    assert_eq!(natural(0).mod_u(7), 0);
    assert_eq!(natural(0xffff_ffff_ffff_ffff).mod_u(10), 5);
}

#[test]
fn exclusive_or() {
    assert_eq!(natural(0b1100).bitxor(&natural(0b1010)).to_string(), "6");
    assert_eq!(natural(0xff00ff).bitxor(&natural(0)).to_string(), "16711935");
    assert_eq!(natural(12345).bitxor(&natural(12345)).to_string(), "0");
    assert_eq!(natural(0x1_0000_0000).bitxor(&natural(1)).to_string(), "4294967297");
}

#[test]
fn exclusive_or_twice_gives_the_number_back() {
    let a = natural(0x0123_4567_89ab_cdef);
    let b = natural(0xfedc_ba98);
    assert_eq!(a.bitxor(&b).bitxor(&b).to_string(), a.to_string());
}

#[test]
fn sum_and_difference() {
    assert_eq!(natural(0xffff_ffff_ffff_ffff).add(&natural(1)).to_string(), "18446744073709551616");
    assert_eq!(natural(1000).sub(&natural(1)).to_string(), "999");
    assert_eq!(natural(1000).sub(&natural(1000)).to_string(), "0");
    assert_eq!(natural(0x1_0000_0000).sub(&natural(1)).to_string(), "4294967295");
}

#[test]
fn exact_division() {
    assert_eq!(natural(12345 * 54321).div_exact_u(12345).to_string(), "54321");
    assert_eq!(natural(252).div_exact_u(4).to_string(), "63");
    assert_eq!(natural(0).div_exact_u(4).to_string(), "0");
}

#[test]
fn power_of_words() {
    assert_eq!(Natural::u_pow_u(13, 12).to_string(), "23298085122481");
    assert_eq!(Natural::u_pow_u(2, 64).to_string(), "18446744073709551616");
    assert_eq!(Natural::u_pow_u(2, 0).to_string(), "1");
    assert_eq!(Natural::u_pow_u(0, 5).to_string(), "0");
}

#[test]
fn modular_power() {
    assert_eq!(natural(7).pow_mod(&natural(5), &natural(1000)).to_string(), "807");
    assert_eq!(natural(4).pow_mod(&natural(13), &natural(497)).to_string(), "445");
    assert_eq!(natural(5).pow_mod(&natural(0), &natural(7)).to_string(), "1");
    assert_eq!(natural(5).pow_mod(&natural(2), &natural(7)).to_string(), "4");
    assert_eq!(natural(0).pow_mod(&natural(3), &natural(7)).to_string(), "0");
}

#[test]
fn jacobi_symbol_of_small_numbers() {
    assert_eq!(natural(10).jacobi(&natural(13)), 1);
    assert_eq!(natural(10).jacobi(&natural(15)), 0);
    assert_eq!(natural(10).jacobi(&natural(17)), -1);
    assert_eq!(natural(1001).jacobi(&natural(9907)), -1);
    assert_eq!(natural(0).jacobi(&natural(7)), 0);
    assert_eq!(natural(5).jacobi(&natural(1)), 1);
}

#[test]
fn jacobi_symbol_over_a_prime_tells_the_squares() {
    // the non-zero squares modulo 7 are 1, 2 and 4
    let expected = [0, 1, 1, -1, 1, -1, -1];
    for x in 0..7u64 {
        assert_eq!(natural(x).jacobi(&natural(7)), expected[x as usize]);
    }
}

#[test]
fn primality_test() {
    assert_eq!(natural(163 * 4003).is_probably_prime(30), IsPrime::No);
    assert_eq!(natural(817_504_243).is_probably_prime(30), IsPrime::Yes);
    assert_eq!(natural(3).is_probably_prime(25), IsPrime::Yes);
    assert_eq!(natural(1).is_probably_prime(25), IsPrime::No);
    assert_eq!(natural(0).is_probably_prime(25), IsPrime::No);
    assert_ne!(
        natural(16_412_292_043_871_650_369).is_probably_prime(30),
        IsPrime::No
    );
}

#[test]
fn decimal_numeral() {
    assert_eq!(natural(0).to_string(), "0");
    assert_eq!(natural(9).to_string(), "9");
    assert_eq!(natural(10).to_string(), "10");
    assert_eq!(natural(18_446_744_073_709_551_615).to_string(), "18446744073709551615");
}

#[test]
fn clone_holds_the_same_number() {
    let a = natural(0xdead_beef_0000);
    assert_eq!(a.clone().to_string(), a.to_string());
}
