use spartan_codec::{largest_prime, DataBiggerThanPrime, Natural, Sloth};

const PIECE: [u8; 16] = [165, 77, 202, 24, 37, 48, 187, 29, 109, 19, 44, 222, 214, 35, 123, 46];
const IV: [u8; 2] = [217, 30];

fn two_byte_engine() -> Sloth<2, 16> {
    Sloth::<2, 16>::with_prime(largest_prime(2))
}

fn pattern<const BYTES: usize>(seed: u32) -> [u8; BYTES] {
    let mut bytes = [0u8; BYTES];
    let mut state = seed;
    for byte in bytes.iter_mut() {
        state = state.wrapping_mul(1_664_525).wrapping_add(1_013_904_223);
        *byte = (state >> 24) as u8;
    }
    bytes
}

/// A piece whose blocks are all below a prime that fills its size.
fn low_pattern<const BYTES: usize>(seed: u32, block: usize) -> [u8; BYTES] {
    let mut bytes = pattern::<BYTES>(seed);
    for i in 0..BYTES / block {
        bytes[i * block + block - 1] &= 0x3f;
    }
    bytes
}

#[test]
fn new_derives_the_largest_prime() {
    assert_eq!(Sloth::<2, 16>::new().prime().to_string(), "65519");
    assert_eq!(
        Sloth::<32, 4096>::new().prime().to_string(),
        "115792089237316195423570985008687907853269984665640564039457584007913129639747"
    );
}

#[test]
fn encode_one_layer_of_one_byte_blocks() {
    let sloth = Sloth::<1, 8>::with_prime(Natural::from_u8(251));
    let mut piece = [1u8, 2, 3, 4, 5, 6, 7, 8];
    sloth.encode(&mut piece, [9], 1).unwrap();
    assert_eq!(piece, [69, 155, 34, 234, 99, 58, 21, 67]);
}

#[test]
fn encode_one_layer_of_two_byte_blocks() {
    let mut piece = PIECE;
    two_byte_engine().encode(&mut piece, IV, 1).unwrap();
    assert_eq!(
        piece,
        [203, 95, 36, 55, 180, 240, 178, 249, 241, 7, 29, 151, 165, 138, 25, 76]
    );
}

#[test]
fn encode_four_layers_of_two_byte_blocks() {
    let mut piece = PIECE;
    two_byte_engine().encode(&mut piece, IV, 4).unwrap();
    assert_eq!(
        piece,
        [196, 95, 64, 40, 243, 10, 139, 181, 157, 122, 167, 186, 88, 101, 214, 10]
    );
}

#[test]
fn encode_without_layers_leaves_the_piece() {
    let mut piece = PIECE;
    two_byte_engine().encode(&mut piece, IV, 0).unwrap();
    assert_eq!(piece, PIECE);
}

#[test]
fn decode_without_layers_only_removes_the_iv() {
    let mut piece = PIECE;
    two_byte_engine().decode(&mut piece, IV, 0);
    assert_eq!(
        piece,
        [124, 83, 202, 24, 37, 48, 187, 29, 109, 19, 44, 222, 214, 35, 123, 46]
    );
}

#[test]
fn decode_gives_the_piece_back() {
    let sloth = two_byte_engine();
    for layers in [1usize, 2, 4] {
        let mut piece = PIECE;
        sloth.encode(&mut piece, IV, layers).unwrap();
        assert_ne!(piece, PIECE);
        sloth.decode(&mut piece, IV, layers);
        assert_eq!(piece, PIECE);
    }
}

#[test]
fn decode_of_a_known_encoding() {
    let mut piece = [196, 95, 64, 40, 243, 10, 139, 181, 157, 122, 167, 186, 88, 101, 214, 10];
    two_byte_engine().decode(&mut piece, IV, 4);
    assert_eq!(piece, PIECE);
}

#[test]
fn parallel_decode_of_a_known_encoding() {
    let mut piece = [196, 95, 64, 40, 243, 10, 139, 181, 157, 122, 167, 186, 88, 101, 214, 10];
    two_byte_engine().decode_parallel(&mut piece, IV, 4);
    assert_eq!(piece, PIECE);
}

#[test]
fn parallel_decode_matches_sequential_decode() {
    let sloth = Sloth::<32, 4096>::new();
    let iv = pattern::<32>(11);
    let mut encoding = low_pattern::<4096>(5, 32);
    sloth.encode(&mut encoding, iv, 4).unwrap();
    let mut sequential = encoding;
    sloth.decode(&mut sequential, iv, 4);
    let mut parallel = encoding;
    sloth.decode_parallel(&mut parallel, iv, 4);
    assert_eq!(sequential.to_vec(), parallel.to_vec());
}

#[test]
fn parallel_decode_matches_sequential_decode_on_arbitrary_bytes() {
    // not an encoding: blocks may even exceed the prime
    let sloth = two_byte_engine();
    for seed in 0..50u32 {
        let bytes = pattern::<16>(seed);
        let iv = pattern::<2>(seed + 1000);
        for layers in [0usize, 1, 3] {
            let mut sequential = bytes;
            sloth.decode(&mut sequential, iv, layers);
            let mut parallel = bytes;
            sloth.decode_parallel(&mut parallel, iv, layers);
            assert_eq!(sequential, parallel);
        }
    }
}

#[test]
fn round_trip_with_128_layers() {
    let sloth = Sloth::<32, 4096>::new();
    let iv = pattern::<32>(3);
    let piece = low_pattern::<4096>(4, 32);
    let mut encoding = piece;
    sloth.encode(&mut encoding, iv, 128).unwrap();
    let mut decoding = encoding;
    sloth.decode(&mut decoding, iv, 128);
    assert_eq!(piece.to_vec(), decoding.to_vec());
}

#[test]
fn round_trip_across_small_sizes() {
    fn run<const SIZE: usize>() {
        let sloth = Sloth::<SIZE, 4096>::new();
        let iv = pattern::<SIZE>(21);
        let piece = low_pattern::<4096>(22, SIZE);
        let mut encoding = piece;
        sloth.encode(&mut encoding, iv, 2).unwrap();
        let mut decoding = encoding;
        sloth.decode(&mut decoding, iv, 2);
        assert_eq!(piece.to_vec(), decoding.to_vec());
    }
    run::<8>();
    run::<16>();
    run::<32>();
    run::<64>();
}

#[test]
fn every_block_of_an_encoding_is_at_most_the_prime() {
    let sloth = Sloth::<32, 4096>::new();
    let mut encoding = low_pattern::<4096>(8, 32);
    sloth.encode(&mut encoding, pattern::<32>(9), 2).unwrap();
    for block in encoding.chunks_exact(32) {
        assert!(Natural::from_le_bytes(block).lt(sloth.prime()));
    }
}

#[test]
fn encode_rejects_a_block_not_below_the_prime() {
    // the first block is the largest number of its size, and the IV leaves it so
    let sloth = Sloth::<32, 4096>::new();
    let mut piece = [0xffu8; 4096];
    let result = sloth.encode(&mut piece, [0u8; 32], 1);
    assert!(matches!(result, Err(DataBiggerThanPrime)));
    assert_eq!(piece.to_vec(), vec![0xffu8; 4096]);
}

#[test]
fn encode_rejects_a_block_that_the_iv_lifts_over_the_prime() {
    // the blocks are zero, and the IV is the prime itself
    let sloth = Sloth::<2, 16>::with_prime(largest_prime(2));
    let iv = [0xef, 0xff];
    let mut piece = [0u8; 16];
    assert!(sloth.encode(&mut piece, iv, 1).is_err());
    assert_eq!(piece, [0u8; 16]);
}

#[test]
fn encode_rejects_a_block_that_the_feedback_lifts_over_the_prime() {
    // zero goes to the prime, which then masks the next zero block to the prime
    let sloth = Sloth::<2, 16>::with_prime(largest_prime(2));
    let mut piece = [0u8; 16];
    assert!(sloth.encode(&mut piece, [0, 0], 1).is_err());
    assert_eq!(piece, [0u8; 16]);
}

#[test]
fn a_masked_block_of_zero_is_not_recovered() {
    // in the second layer the fourth block is masked to zero and goes to the prime
    let sloth = Sloth::<1, 8>::with_prime(Natural::from_u8(251));
    let mut piece = [1u8, 2, 3, 4, 5, 6, 7, 8];
    sloth.encode(&mut piece, [9], 2).unwrap();
    assert_eq!(piece, [139, 4, 234, 251, 34, 27, 57, 154]);
    sloth.decode(&mut piece, [9], 2);
    assert_eq!(piece, [1, 2, 3, 247, 254, 6, 7, 8]);
}

#[test]
fn a_first_block_equal_to_the_iv_is_not_recovered() {
    // the first block is masked to zero and goes to the prime
    let sloth = Sloth::<1, 8>::with_prime(Natural::from_u8(251));
    let mut piece = [9u8, 250, 3, 4, 5, 6, 7, 8];
    sloth.encode(&mut piece, [9], 1).unwrap();
    assert_eq!(piece, [251, 250, 160, 72, 225, 219, 223, 245]);
    sloth.decode(&mut piece, [9], 1);
    assert_eq!(piece, [242, 250, 3, 4, 5, 6, 7, 8]);
}

#[test]
fn a_changed_byte_gives_another_piece() {
    let sloth = two_byte_engine();
    let mut encoding = PIECE;
    sloth.encode(&mut encoding, IV, 1).unwrap();
    for at in 0..14 {
        let mut changed = encoding;
        changed[at] ^= 0x20;
        sloth.decode(&mut changed, IV, 1);
        assert_ne!(changed, PIECE);
    }
}

#[test]
fn another_iv_gives_another_piece() {
    let sloth = two_byte_engine();
    let mut encoding = PIECE;
    sloth.encode(&mut encoding, IV, 2).unwrap();
    let mut decoding = encoding;
    sloth.decode(&mut decoding, [IV[0] ^ 1, IV[1]], 2);
    assert_ne!(decoding, PIECE);
}

#[test]
fn clone_works_in_the_same_field() {
    let sloth = two_byte_engine();
    let copy = sloth.clone();
    assert_eq!(copy.prime().to_string(), "65519");
    let mut first = PIECE;
    sloth.encode(&mut first, IV, 1).unwrap();
    let mut second = PIECE;
    copy.encode(&mut second, IV, 1).unwrap();
    assert_eq!(first, second);
}
