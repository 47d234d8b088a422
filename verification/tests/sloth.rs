use rand::Rng;
use spartan_codec::Sloth;

fn random_bytes<const BYTES: usize>() -> [u8; BYTES] {
    let mut bytes = [0u8; BYTES];
    rand::thread_rng().fill(&mut bytes[..]);
    bytes
}

// 256 bits
#[test]
fn sloth_test_random_piece_256_bits() {
    test_random_piece::<32>();
}

// 512 bits
#[test]
fn sloth_test_random_piece_512_bits() {
    test_random_piece::<64>();
}

// 1024 bits
#[test]
fn sloth_test_random_piece_1024_bits() {
    test_random_piece::<128>();
}

// 2048 bits
#[test]
fn sloth_test_random_piece_2048_bits() {
    test_random_piece::<256>();
}

// 4096 bits
#[test]
fn sloth_test_random_piece_4096_bits() {
    test_random_piece::<512>();
}

fn test_random_piece<const PRIME_SIZE_BYTES: usize>() {
    let expanded_iv = random_bytes();
    let piece = random_bytes();

    let sloth = Sloth::<PRIME_SIZE_BYTES, 4096>::new();
    let layers = 4096 / PRIME_SIZE_BYTES;
    let mut encoding = piece.clone();
    sloth.encode(&mut encoding, expanded_iv, layers).unwrap();
    let mut decoding = encoding.clone();
    sloth.decode(&mut decoding, expanded_iv, layers);

    assert_eq!(piece.to_vec(), decoding.to_vec());

    let mut decoding = encoding.clone();
    sloth.decode_parallel(&mut decoding, expanded_iv, layers);

    assert_eq!(piece.to_vec(), decoding.to_vec());
}
