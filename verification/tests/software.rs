use rand::Rng;
use spartan_codec::{largest_prime, Sloth};

fn random_bytes<const BYTES: usize>() -> [u8; BYTES] {
    let mut bytes = [0u8; BYTES];
    rand::thread_rng().fill(&mut bytes[..]);
    bytes
}

#[test]
fn largest_prime_256_bits() {
    let prime = largest_prime(32);

    assert_eq!(
        prime.to_string(),
        "115792089237316195423570985008687907853269984665640564039457584007913129639747",
    );
}

// 256 bits
#[test]
fn software_test_random_piece_256_bits() {
    test_random_piece::<32, 4096>();
}

// 512 bits
#[test]
fn software_test_random_piece_512_bits() {
    test_random_piece::<64, 4096>();
}

// 1024 bits
#[test]
fn software_test_random_piece_1024_bits() {
    test_random_piece::<128, 4096>();
}

// 2048 bits
#[test]
fn software_test_random_piece_2048_bits() {
    test_random_piece::<256, 4096>();
}

// 4096 bits
#[test]
fn software_test_random_piece_4096_bits() {
    test_random_piece::<512, 4096>();
}

fn test_random_piece<const PRIME_SIZE_BYTES: usize, const PIECE_SIZE_BYTES: usize>() {
    let expanded_iv = random_bytes();
    let piece = random_bytes();

    let prime = largest_prime(PRIME_SIZE_BYTES as u32);
    println!(
        "Prime size {} bits: {}",
        PRIME_SIZE_BYTES * 8,
        prime.to_string()
    );
    let sloth = Sloth::<PRIME_SIZE_BYTES, PIECE_SIZE_BYTES>::with_prime(prime);
    let layers = PIECE_SIZE_BYTES / PRIME_SIZE_BYTES;
    let mut encoding = piece.clone();
    sloth.encode(&mut encoding, expanded_iv, layers).unwrap();
    let mut decoding = encoding.clone();
    sloth.decode(&mut decoding, expanded_iv, layers);

    assert_eq!(piece.to_vec(), decoding.to_vec());
}
