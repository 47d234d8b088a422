use rand::Rng;
use spartan_codec::Spartan256bit4096;

fn random_bytes<const BYTES: usize>() -> [u8; BYTES] {
    let mut bytes = [0u8; BYTES];
    rand::thread_rng().fill(&mut bytes[..]);
    bytes
}

#[test]
fn test_random_piece() {
    let genesis_piece = random_bytes();
    let encoding_key = random_bytes();
    let nonce = rand::random();

    let spartan = Spartan256bit4096::new(genesis_piece);
    let encoding = spartan.encode(encoding_key, nonce, 1);

    assert!(spartan.is_valid(encoding, encoding_key, nonce, 1));

    assert!(spartan.is_valid_parallel(encoding, encoding_key, nonce, 1));
}
