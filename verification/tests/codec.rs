use spartan_codec::{
    Sloth, Spartan1024bit4096, Spartan128bit4096, Spartan256bit4096, Spartan512bit4096,
    Spartan64bit4096,
};

fn pattern<const BYTES: usize>(seed: u32) -> [u8; BYTES] {
    let mut bytes = [0u8; BYTES];
    let mut state = seed;
    for byte in bytes.iter_mut() {
        state = state.wrapping_mul(1_664_525).wrapping_add(1_013_904_223);
        *byte = (state >> 24) as u8;
    }
    bytes
}

/// A piece whose blocks are all below a prime that fills its size.
fn low_pattern<const BYTES: usize>(seed: u32, block: usize) -> [u8; BYTES] {
    let mut bytes = pattern::<BYTES>(seed);
    for i in 0..BYTES / block {
        bytes[i * block + block - 1] &= 0x3f;
    }
    bytes
}

const NONCE: u64 = 0x0102_0304_0506_0708;

#[test]
fn encoding_is_valid() {
    let spartan = Spartan256bit4096::new(low_pattern::<4096>(1, 32));
    let key = low_pattern::<32>(2, 32);
    let encoding = spartan.encode(key, NONCE, 1);
    assert!(spartan.is_valid(encoding, key, NONCE, 1));
    assert!(spartan.is_valid_parallel(encoding, key, NONCE, 1));
}

#[test]
fn encoding_with_several_rounds_is_valid() {
    let spartan = Spartan256bit4096::new(low_pattern::<4096>(1, 32));
    let key = low_pattern::<32>(2, 32);
    let encoding = spartan.encode(key, NONCE, 3);
    assert!(spartan.is_valid(encoding, key, NONCE, 3));
    assert!(spartan.is_valid_parallel(encoding, key, NONCE, 3));
    assert!(!spartan.is_valid(encoding, key, NONCE, 2));
}

#[test]
fn clone_encodes_and_validates_alike() {
    let spartan = Spartan256bit4096::new(low_pattern::<4096>(1, 32));
    let copy = spartan.clone();
    let key = low_pattern::<32>(2, 32);
    let encoding = spartan.encode(key, NONCE, 1);
    assert_eq!(encoding.to_vec(), copy.encode(key, NONCE, 1).to_vec());
    assert!(copy.is_valid(encoding, key, NONCE, 1));
}

#[test]
fn try_encode_agrees_with_encode() {
    let spartan = Spartan256bit4096::new(low_pattern::<4096>(1, 32));
    let key = low_pattern::<32>(2, 32);
    let encoding = spartan.try_encode(key, NONCE, 1).unwrap();
    assert_eq!(encoding.to_vec(), spartan.encode(key, NONCE, 1).to_vec());
}

#[test]
fn try_encode_fails_on_a_block_not_below_the_prime() {
    let spartan = Spartan256bit4096::new([0xffu8; 4096]);
    assert!(spartan.try_encode([0u8; 32], 0, 1).is_err());
}

#[test]
fn nonce_is_xored_into_the_last_bytes_of_the_key_hash() {
    let genesis = low_pattern::<4096>(1, 32);
    let key = low_pattern::<32>(2, 32);
    let spartan = Spartan256bit4096::new(genesis);
    let encoding = spartan.encode(key, NONCE, 1);

    let mut iv = key;
    let nonce_bytes = NONCE.to_le_bytes();
    for j in 0..8 {
        iv[24 + j] ^= nonce_bytes[j];
    }
    let mut expected = genesis;
    Sloth::<32, 4096>::new().encode(&mut expected, iv, 1).unwrap();
    assert_eq!(encoding.to_vec(), expected.to_vec());
}

#[test]
fn flipped_bit_of_the_encoding_is_detected() {
    let spartan = Spartan256bit4096::new(low_pattern::<4096>(1, 32));
    let key = low_pattern::<32>(2, 32);
    let mut encoding = spartan.encode(key, NONCE, 1);
    encoding[0] ^= 1;
    assert!(!spartan.is_valid(encoding, key, NONCE, 1));
    assert!(!spartan.is_valid_parallel(encoding, key, NONCE, 1));
}

#[test]
fn flipped_bit_between_two_last_blocks_of_one_square_is_not_detected() {
    // the last block is the prime less 2; with bit 2 flipped it is the prime
    // plus 2, which has the same parity and the same square modulo the prime
    let sloth = Sloth::<32, 4096>::new();
    let key = low_pattern::<32>(2, 32);
    let mut iv = key;
    let nonce_bytes = NONCE.to_le_bytes();
    for j in 0..8 {
        iv[24 + j] ^= nonce_bytes[j];
    }
    let mut encoding = low_pattern::<4096>(7, 32);
    encoding[4064..].copy_from_slice(&sloth.prime().to_le_bytes(32));
    assert_eq!(encoding[4064], 0x43);
    encoding[4064] = 0x41;
    let mut genesis = encoding;
    sloth.decode(&mut genesis, iv, 1);

    let spartan = Spartan256bit4096::new(genesis);
    assert!(spartan.is_valid(encoding, key, NONCE, 1));
    encoding[4064] ^= 0x04;
    assert!(spartan.is_valid(encoding, key, NONCE, 1));
    assert!(spartan.is_valid_parallel(encoding, key, NONCE, 1));
}

#[test]
fn flipped_bit_of_the_key_hash_is_detected() {
    let spartan = Spartan256bit4096::new(low_pattern::<4096>(1, 32));
    let key = low_pattern::<32>(2, 32);
    let encoding = spartan.encode(key, NONCE, 1);
    for at in [0usize, 17, 31] {
        let mut other = key;
        other[at] ^= 0x10;
        assert!(!spartan.is_valid(encoding, other, NONCE, 1));
        assert!(!spartan.is_valid_parallel(encoding, other, NONCE, 1));
    }
}

#[test]
fn flipped_bit_of_the_nonce_is_detected() {
    let spartan = Spartan256bit4096::new(low_pattern::<4096>(1, 32));
    let key = low_pattern::<32>(2, 32);
    let encoding = spartan.encode(key, NONCE, 1);
    for bit in [0u32, 13, 63] {
        assert!(!spartan.is_valid(encoding, key, NONCE ^ (1 << bit), 1));
        assert!(!spartan.is_valid_parallel(encoding, key, NONCE ^ (1 << bit), 1));
    }
}

#[test]
fn parallel_validation_matches_on_arbitrary_bytes() {
    let spartan = Spartan256bit4096::new(low_pattern::<4096>(1, 32));
    for seed in 0..4u32 {
        let bytes = pattern::<4096>(100 + seed);
        let key = pattern::<32>(200 + seed);
        assert_eq!(
            spartan.is_valid(bytes, key, NONCE, 1),
            spartan.is_valid_parallel(bytes, key, NONCE, 1)
        );
    }
}

#[test]
fn every_smaller_configuration_validates_its_encoding() {
    let spartan = Spartan64bit4096::new(low_pattern::<4096>(1, 8));
    let key = low_pattern::<8>(2, 8);
    assert!(spartan.is_valid(spartan.encode(key, NONCE, 1), key, NONCE, 1));

    let spartan = Spartan128bit4096::new(low_pattern::<4096>(1, 16));
    let key = low_pattern::<16>(2, 16);
    assert!(spartan.is_valid(spartan.encode(key, NONCE, 1), key, NONCE, 1));

    let spartan = Spartan512bit4096::new(low_pattern::<4096>(1, 64));
    let key = low_pattern::<64>(2, 64);
    assert!(spartan.is_valid(spartan.encode(key, NONCE, 1), key, NONCE, 1));

    let spartan = Spartan1024bit4096::new(low_pattern::<4096>(1, 128));
    let key = low_pattern::<128>(2, 128);
    assert!(spartan.is_valid_parallel(spartan.encode(key, NONCE, 1), key, NONCE, 1));
}
