use spartan_codec::{largest_prime, DataBiggerThanPrime, Natural, Sloth};

fn natural(v: u64) -> Natural {
    Natural::from_le_bytes(&v.to_le_bytes())
}

fn field_of_7() -> Sloth<1, 8> {
    Sloth::<1, 8>::with_prime(Natural::from_u8(7))
}

fn field_of_251() -> Sloth<1, 8> {
    Sloth::<1, 8>::with_prime(largest_prime(1))
}

#[test]
fn with_prime_keeps_the_prime() {
    assert_eq!(field_of_7().prime().to_string(), "7");
    assert_eq!(field_of_251().prime().to_string(), "251");
}

#[test]
fn try_with_prime_takes_only_a_prime_of_the_size_and_remainder() {
    assert!(Sloth::<1, 8>::try_with_prime(natural(251)).is_some());
    assert!(Sloth::<1, 8>::try_with_prime(natural(7)).is_some());
    // 241 leaves 1 on division by 4
    assert!(Sloth::<1, 8>::try_with_prime(natural(241)).is_none());
    // 263 leaves 3, but does not fit in one byte
    assert!(Sloth::<1, 8>::try_with_prime(natural(263)).is_none());
    assert!(Sloth::<2, 8>::try_with_prime(natural(263)).is_some());
    let sloth = Sloth::<2, 16>::try_with_prime(natural(65519)).unwrap();
    assert_eq!(sloth.prime().to_string(), "65519");
}

#[test]
fn sqrt_permutation_modulo_7() {
    // exponent 2; the squares 1, 2, 4 go to their even roots, the others to odd ones
    let sloth = field_of_7();
    let expected = ["7", "6", "4", "5", "2", "3", "1"];
    for x in 0..7u64 {
        let y = sloth.sqrt_permutation(&natural(x)).unwrap();
        assert_eq!(y.to_string(), expected[x as usize]);
    }
}

#[test]
fn inverse_sqrt_modulo_7() {
    let sloth = field_of_7();
    let expected = ["0", "6", "4", "5", "2", "3", "1", "7"];
    for y in 0..8u64 {
        assert_eq!(sloth.inverse_sqrt(&natural(y)).to_string(), expected[y as usize]);
    }
}

#[test]
fn sqrt_permutation_modulo_251() {
    let sloth = field_of_251();
    let expected = ["251", "250", "91", "76", "2", "16", "139", "42", "69", "248", "201", "95"];
    for x in 0..12u64 {
        let y = sloth.sqrt_permutation(&natural(x)).unwrap();
        assert_eq!(y.to_string(), expected[x as usize]);
    }
}

#[test]
fn sqrt_permutation_rejects_data_not_below_the_prime() {
    let sloth = field_of_251();
    assert!(matches!(sloth.sqrt_permutation(&natural(251)), Err(DataBiggerThanPrime)));
    assert!(matches!(sloth.sqrt_permutation(&natural(252)), Err(DataBiggerThanPrime)));
    assert!(matches!(sloth.sqrt_permutation(&natural(1 << 40)), Err(DataBiggerThanPrime)));
    assert!(sloth.sqrt_permutation(&natural(250)).is_ok());
}

#[test]
fn parity_of_the_result_tells_the_branch() {
    let sloth = field_of_251();
    let prime = natural(251);
    for x in 1..251u64 {
        let y = sloth.sqrt_permutation(&natural(x)).unwrap();
        let residue = natural(x).jacobi(&prime) == 1;
        assert_eq!(y.is_even(), residue);
    }
}

#[test]
fn inverse_undoes_the_permutation_on_every_block_but_zero() {
    let sloth = field_of_251();
    for x in 1..251u64 {
        let y = sloth.sqrt_permutation(&natural(x)).unwrap();
        assert!(y.lt(&natural(251)));
        assert!(!y.is_zero());
        assert_eq!(sloth.inverse_sqrt(&y).to_string(), x.to_string());
    }
}

#[test]
fn permutation_undoes_the_inverse_on_every_block_but_zero() {
    let sloth = field_of_251();
    for y in 1..251u64 {
        let x = sloth.inverse_sqrt(&natural(y));
        assert!(x.lt(&natural(251)));
        assert!(!x.is_zero());
        assert_eq!(sloth.sqrt_permutation(&x).unwrap().to_string(), y.to_string());
    }
}

#[test]
fn permutation_reaches_every_block_but_zero_once() {
    let sloth = field_of_251();
    let mut seen = vec![false; 251];
    for x in 1..251u64 {
        let y = sloth.sqrt_permutation(&natural(x)).unwrap().mod_u(1000) as usize;
        assert!(!seen[y]);
        seen[y] = true;
    }
    assert!(!seen[0]);
}

#[test]
fn zero_goes_to_the_prime_and_does_not_come_back() {
    let sloth = field_of_251();
    let y = sloth.sqrt_permutation(&natural(0)).unwrap();
    assert_eq!(y.to_string(), "251");
    assert_eq!(sloth.inverse_sqrt(&y).to_string(), "251");
    assert_eq!(sloth.inverse_sqrt(&natural(0)).to_string(), "0");
}

#[test]
fn inverse_in_the_field_of_256_bits() {
    let sloth = Sloth::<32, 4096>::new();
    let x = Natural::from_le_bytes(&[0x5a; 31]);
    let y = sloth.sqrt_permutation(&x).unwrap();
    assert_ne!(y.to_string(), x.to_string());
    assert_eq!(sloth.inverse_sqrt(&y).to_string(), x.to_string());
}

#[test]
fn unchain_block_inverts_and_unmasks() {
    let sloth = field_of_251();
    // the inverse of 91 is 2, and 2 xor 9 is 11
    assert_eq!(sloth.unchain_block(&natural(91), &natural(9)).to_string(), "11");
}
