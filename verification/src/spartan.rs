//! The codec: encodings of one genesis piece under many keys.

use crate::binding::{lemma_decode_binds_iv, lemma_decode_detects_changed_byte};
use crate::chain::{decode_bytes, encode_bytes, lemma_parallel_decode_matches};
use crate::digits::{
    le_digits, lemma_le_digits_round_trip, lemma_radix_pow_positive, lemma_radix_pow_step,
    radix_pow,
};
use crate::prime_search::is_largest_prime;
use crate::residues::is_prime;
use crate::round_trip::{encoding_stays_below, lemma_round_trip};
use crate::sloth::{valid_sizes, DataBiggerThanPrime, Sloth};
use vstd::arithmetic::div_mod::lemma_div_denominator;
use vstd::prelude::*;

verus! {

/// The feedback seed for a key and a nonce: the key hash, with the eight
/// little-endian bytes of the nonce xored into its last eight bytes.
pub open spec fn expand_iv(key_hash: Seq<u8>, nonce: u64) -> Seq<u8> {
    Seq::new(
        key_hash.len(),
        |k: int|
            if k + 8 >= key_hash.len() {
                key_hash[k] ^ le_digits(nonce as nat, 8)[k + 8 - key_hash.len()]
            } else {
                key_hash[k]
            },
    )
}

/// Another key hash gives another feedback seed.
pub proof fn lemma_expand_iv_binds_key(key_hash: Seq<u8>, other_key_hash: Seq<u8>, nonce: u64)
    requires
        key_hash.len() == other_key_hash.len(),
        key_hash != other_key_hash,
    ensures
        expand_iv(key_hash, nonce) != expand_iv(other_key_hash, nonce),
{
    let first = expand_iv(key_hash, nonce);
    let second = expand_iv(other_key_hash, nonce);
    if first == second {
        assert forall|k: int| 0 <= k < key_hash.len() implies key_hash[k] == other_key_hash[k] by {
            assert(first[k] == second[k]);
            if k + 8 >= key_hash.len() {
                let a = key_hash[k];
                let b = other_key_hash[k];
                let m = le_digits(nonce as nat, 8)[k + 8 - key_hash.len()];
                assert(a ^ m == b ^ m ==> a == b) by (bit_vector);
            }
        }
        assert(key_hash =~= other_key_hash);
    }
}

/// Another nonce gives another feedback seed, where the key hash has room for it.
pub proof fn lemma_expand_iv_binds_nonce(key_hash: Seq<u8>, nonce: u64, other_nonce: u64)
    requires
        key_hash.len() >= 8,
        nonce != other_nonce,
    ensures
        expand_iv(key_hash, nonce) != expand_iv(key_hash, other_nonce),
{
    let first = expand_iv(key_hash, nonce);
    let second = expand_iv(key_hash, other_nonce);
    let digits = le_digits(nonce as nat, 8);
    let other_digits = le_digits(other_nonce as nat, 8);
    if first == second {
        assert forall|j: int| 0 <= j < 8 implies digits[j] == other_digits[j] by {
            let k = key_hash.len() - 8 + j;
            assert(first[k] == second[k]);
            let a = digits[j];
            let b = other_digits[j];
            let m = key_hash[k];
            assert(m ^ a == m ^ b ==> a == b) by (bit_vector);
        }
        assert(digits =~= other_digits);
        assert(radix_pow(8) == 0x1_0000_0000_0000_0000) by {
            lemma_radix_pow_step(0);
            lemma_radix_pow_step(1);
            lemma_radix_pow_step(2);
            lemma_radix_pow_step(3);
            lemma_radix_pow_step(4);
            lemma_radix_pow_step(5);
            lemma_radix_pow_step(6);
            lemma_radix_pow_step(7);
        }
        lemma_le_digits_round_trip(nonce as nat, 8);
        lemma_le_digits_round_trip(other_nonce as nat, 8);
    }
}

/// Whether a codec can work with primes of `prime_size` bytes on pieces of
/// `piece_size` bytes: the IV has room for the nonce, and a piece has at least
/// two blocks.
pub open spec fn valid_codec_sizes(prime_size: usize, piece_size: usize) -> bool {
    &&& valid_sizes(prime_size, piece_size)
    &&& prime_size >= 8
    &&& piece_size > prime_size
}

/// Computes the feedback seed for a key and a nonce.
fn expanded_iv<const N: usize>(encoding_key_hash: [u8; N], nonce: u64) -> (iv: [u8; N])
    requires
        N >= 8,
    ensures
        iv@ == expand_iv(encoding_key_hash@, nonce),
{
    let mut expanded_iv = encoding_key_hash;
    let mut rest: u64 = nonce;
    let mut j: usize = 0;
    proof {
        lemma_radix_pow_step(0);
    }
    while j < 8
        invariant
            j <= 8,
            N >= 8,
            rest == (nonce as nat) / radix_pow(j as nat),
            forall|k: int|
                0 <= k < N - 8 + j ==> expanded_iv@[k] == expand_iv(encoding_key_hash@, nonce)[k],
            forall|k: int| N - 8 + j <= k < N ==> expanded_iv@[k] == encoding_key_hash@[k],
        decreases 8 - j,
    {
        let byte: u8 = (rest % 256) as u8;
        let at: usize = N - 8 + j;
        expanded_iv[at] = expanded_iv[at] ^ byte;
        proof {
            lemma_radix_pow_positive(j as nat);
            lemma_radix_pow_step(j as nat);
            lemma_div_denominator(nonce as int, radix_pow(j as nat) as int, 256);
            assert(radix_pow(j as nat) * 256 == 256 * radix_pow(j as nat)) by (nonlinear_arith);
        }
        rest = rest / 256;
        j = j + 1;
    }
    proof {
        assert(expanded_iv@ =~= expand_iv(encoding_key_hash@, nonce));
    }
    expanded_iv
}

/// Whether two arrays hold the same bytes.
fn same_bytes<const N: usize>(a: &[u8; N], b: &[u8; N]) -> (r: bool)
    ensures
        r == (a@ == b@),
{
    let mut i: usize = 0;
    while i < N
        invariant
            i <= N,
            forall|k: int| 0 <= k < i ==> a@[k] == b@[k],
        decreases N - i,
    {
        if a[i] != b[i] {
            return false;
        }
        i = i + 1;
    }
    proof {
        assert(a@ =~= b@);
    }
    true
}

/// A codec that encodes one genesis piece and validates its encodings.
#[derive(Debug)]
pub struct Spartan<const PRIME_SIZE_BYTES: usize, const PIECE_SIZE_BYTES: usize> {
    genesis_piece: [u8; PIECE_SIZE_BYTES],
    sloth: Sloth<PRIME_SIZE_BYTES, PIECE_SIZE_BYTES>,
}

/// Spartan configured for 64-bit prime and 4096-byte genesis piece size
pub type Spartan64bit4096 = Spartan<8, 4096>;

/// Spartan configured for 128-bit prime and 4096-byte genesis piece size
pub type Spartan128bit4096 = Spartan<16, 4096>;

/// Spartan configured for 256-bit prime and 4096-byte genesis piece size
pub type Spartan256bit4096 = Spartan<32, 4096>;

/// Spartan configured for 512-bit prime and 4096-byte genesis piece size
pub type Spartan512bit4096 = Spartan<64, 4096>;

/// Spartan configured for 1024-bit prime and 4096-byte genesis piece size
pub type Spartan1024bit4096 = Spartan<128, 4096>;

/// Spartan configured for 2048-bit prime and 4096-byte genesis piece size
pub type Spartan2048bit4096 = Spartan<256, 4096>;

/// Spartan configured for 4096-bit prime and 4096-byte genesis piece size
pub type Spartan4096bit4096 = Spartan<512, 4096>;

impl<const PRIME_SIZE_BYTES: usize, const PIECE_SIZE_BYTES: usize> Spartan<
    PRIME_SIZE_BYTES,
    PIECE_SIZE_BYTES,
> {
    #[verifier::type_invariant]
    spec fn well_formed(self) -> bool {
        valid_codec_sizes(PRIME_SIZE_BYTES, PIECE_SIZE_BYTES)
    }

    /// The piece that every encoding decodes to.
    pub closed spec fn genesis(&self) -> Seq<u8> {
        self.genesis_piece@
    }

    /// The modulus of the codec's field.
    pub closed spec fn prime_value(&self) -> nat {
        self.sloth.prime_value()
    }

    /// The encoding of the genesis piece under a key and a nonce, if it has one.
    pub open spec fn encoding(&self, key_hash: Seq<u8>, nonce: u64, rounds: nat) -> Option<
        Seq<u8>,
    > {
        encode_bytes(
            self.genesis(),
            expand_iv(key_hash, nonce),
            rounds,
            self.prime_value(),
            PRIME_SIZE_BYTES as nat,
        )
    }

    /// Whether `encoding` decodes to the genesis piece under a key and a nonce.
    pub open spec fn validates(
        &self,
        encoding: Seq<u8>,
        key_hash: Seq<u8>,
        nonce: u64,
        rounds: nat,
    ) -> bool {
        decode_bytes(
            encoding,
            expand_iv(key_hash, nonce),
            rounds,
            self.prime_value(),
            PRIME_SIZE_BYTES as nat,
        ) == self.genesis()
    }

    /// Where the field's modulus is prime, the encoding of the genesis piece
    /// under a key and a nonce is valid under that key and nonce. This holds
    /// for at least one round, and for encodings whose chain stays below the
    /// modulus.
    pub proof fn lemma_encoding_validates(&self, key_hash: Seq<u8>, nonce: u64, rounds: nat)
        requires
            valid_codec_sizes(PRIME_SIZE_BYTES, PIECE_SIZE_BYTES),
            is_prime(self.prime_value() as int),
            self.prime_value() % 4 == 3,
            self.prime_value() < radix_pow(PRIME_SIZE_BYTES as nat),
            rounds >= 1,
            encoding_stays_below(
                self.genesis(),
                expand_iv(key_hash, nonce),
                rounds,
                self.prime_value(),
                PRIME_SIZE_BYTES as nat,
            ),
        ensures
            self.encoding(key_hash, nonce, rounds) is Some,
            self.validates(
                self.encoding(key_hash, nonce, rounds).unwrap(),
                key_hash,
                nonce,
                rounds,
            ),
    {
        let size = PRIME_SIZE_BYTES as nat;
        assert(self.genesis().len() == PIECE_SIZE_BYTES);
        assert(PIECE_SIZE_BYTES >= 2 * size) by (nonlinear_arith)
            requires
                PIECE_SIZE_BYTES > size,
                PIECE_SIZE_BYTES % PRIME_SIZE_BYTES == 0,
                size == PRIME_SIZE_BYTES,
                size > 0,
        ;
        lemma_round_trip(
            self.genesis(),
            expand_iv(key_hash, nonce),
            rounds,
            self.prime_value(),
            size,
        );
    }

    /// An encoding that is valid under one key hash and nonce is not valid
    /// under any other pair that gives another feedback seed, as every other
    /// key hash with the same nonce and every other nonce with the same key
    /// hash does.
    pub proof fn lemma_valid_under_one_iv(
        &self,
        encoding: Seq<u8>,
        key_hash: Seq<u8>,
        nonce: u64,
        other_key_hash: Seq<u8>,
        other_nonce: u64,
        rounds: nat,
    )
        requires
            valid_codec_sizes(PRIME_SIZE_BYTES, PIECE_SIZE_BYTES),
            0 < self.prime_value() < radix_pow(PRIME_SIZE_BYTES as nat),
            encoding.len() == PIECE_SIZE_BYTES,
            key_hash.len() == PRIME_SIZE_BYTES,
            other_key_hash.len() == PRIME_SIZE_BYTES,
            expand_iv(key_hash, nonce) != expand_iv(other_key_hash, other_nonce),
            self.validates(encoding, key_hash, nonce, rounds),
        ensures
            !self.validates(encoding, other_key_hash, other_nonce, rounds),
    {
        lemma_decode_binds_iv(
            encoding,
            expand_iv(key_hash, nonce),
            expand_iv(other_key_hash, other_nonce),
            rounds,
            self.prime_value(),
            PRIME_SIZE_BYTES as nat,
        );
    }

    /// For one round, an encoding that is valid is not valid any more with one
    /// of its bytes changed, where the byte is not in the last block.
    pub proof fn lemma_changed_byte_is_detected(
        &self,
        encoding: Seq<u8>,
        key_hash: Seq<u8>,
        nonce: u64,
        at: int,
        byte: u8,
    )
        requires
            valid_codec_sizes(PRIME_SIZE_BYTES, PIECE_SIZE_BYTES),
            0 < self.prime_value() < radix_pow(PRIME_SIZE_BYTES as nat),
            encoding.len() == PIECE_SIZE_BYTES,
            0 <= at,
            at + PRIME_SIZE_BYTES < PIECE_SIZE_BYTES,
            byte != encoding[at],
            self.validates(encoding, key_hash, nonce, 1),
        ensures
            !self.validates(encoding.update(at, byte), key_hash, nonce, 1),
    {
        lemma_decode_detects_changed_byte(
            encoding,
            expand_iv(key_hash, nonce),
            self.prime_value(),
            PRIME_SIZE_BYTES as nat,
            at,
            byte,
        );
    }

    fn new_internal(genesis_piece: [u8; PIECE_SIZE_BYTES]) -> (r: Self)
        requires
            valid_codec_sizes(PRIME_SIZE_BYTES, PIECE_SIZE_BYTES),
        ensures
            r.genesis() == genesis_piece@,
            is_largest_prime(r.prime_value(), PRIME_SIZE_BYTES as nat),
    {
        let sloth = Sloth::new();
        Self { genesis_piece, sloth }
    }

    /// Creates an encoding of the genesis piece with the provided encoding key
    /// hash, nonce and number of rounds, or fails where a masked block is not
    /// below the prime.
    pub fn try_encode(
        &self,
        encoding_key_hash: [u8; PRIME_SIZE_BYTES],
        nonce: u64,
        rounds: usize,
    ) -> (r: Result<[u8; PIECE_SIZE_BYTES], DataBiggerThanPrime>)
        ensures
            match r {
                Ok(encoding) => self.encoding(encoding_key_hash@, nonce, rounds as nat) == Some(
                    encoding@,
                ),
                Err(_) => self.encoding(encoding_key_hash@, nonce, rounds as nat) is None,
            },
    {
        proof {
            use_type_invariant(self);
        }
        let expanded_iv = expanded_iv(encoding_key_hash, nonce);

        let mut encoding = self.genesis_piece;
        match self.sloth.encode(&mut encoding, expanded_iv, rounds) {
            Ok(()) => Ok(encoding),
            Err(e) => Err(e),
        }
    }

    /// Create an encoding based on genesis piece using provided encoding key hash, nonce and
    /// desired number of rounds
    pub fn encode(
        &self,
        encoding_key_hash: [u8; PRIME_SIZE_BYTES],
        nonce: u64,
        rounds: usize,
    ) -> (encoding: [u8; PIECE_SIZE_BYTES])
        requires
            self.encoding(encoding_key_hash@, nonce, rounds as nat) is Some,
        ensures
            self.encoding(encoding_key_hash@, nonce, rounds as nat) == Some(encoding@),
    {
        match self.try_encode(encoding_key_hash, nonce, rounds) {
            Ok(encoding) => encoding,
            Err(_) => vstd::pervasive::unreached(),
        }
    }

    /// Check if previously created encoding is valid
    pub fn is_valid(
        &self,
        encoding: [u8; PIECE_SIZE_BYTES],
        encoding_key_hash: [u8; PRIME_SIZE_BYTES],
        nonce: u64,
        rounds: usize,
    ) -> (r: bool)
        ensures
            r == self.validates(encoding@, encoding_key_hash@, nonce, rounds as nat),
    {
        proof {
            use_type_invariant(self);
        }
        let mut encoding = encoding;
        let expanded_iv = expanded_iv(encoding_key_hash, nonce);

        self.sloth.decode(&mut encoding, expanded_iv, rounds);

        same_bytes(&encoding, &self.genesis_piece)
    }

    /// Check if previously created encoding is valid by leveraging parallelism
    pub fn is_valid_parallel(
        &self,
        piece: [u8; PIECE_SIZE_BYTES],
        encoding_key_hash: [u8; PRIME_SIZE_BYTES],
        nonce: u64,
        rounds: usize,
    ) -> (r: bool)
        ensures
            r == self.validates(piece@, encoding_key_hash@, nonce, rounds as nat),
    {
        proof {
            use_type_invariant(self);
        }
        let mut piece = piece;
        let expanded_iv = expanded_iv(encoding_key_hash, nonce);

        let ghost encoding = piece@;
        self.sloth.decode_parallel(&mut piece, expanded_iv, rounds);
        proof {
            lemma_parallel_decode_matches(
                encoding,
                expanded_iv@,
                rounds as nat,
                self.prime_value(),
                PRIME_SIZE_BYTES as nat,
            );
        }

        same_bytes(&piece, &self.genesis_piece)
    }
}

impl<const PRIME_SIZE_BYTES: usize, const PIECE_SIZE_BYTES: usize> Clone for Spartan<
    PRIME_SIZE_BYTES,
    PIECE_SIZE_BYTES,
> {
    /// A second codec for the same genesis piece and field.
    fn clone(&self) -> (r: Self)
        ensures
            r.genesis() == self.genesis(),
            r.prime_value() == self.prime_value(),
    {
        proof {
            use_type_invariant(self);
        }
        Spartan { genesis_piece: self.genesis_piece, sloth: self.sloth.clone() }
    }
}

impl Spartan<8, 4096> {
    /// New instance with 64-bit prime and 4096-byte genesis piece size
    pub fn new(genesis_piece: [u8; 4096]) -> (r: Self)
        ensures
            r.genesis() == genesis_piece@,
            is_largest_prime(r.prime_value(), 8),
    {
        Self::new_internal(genesis_piece)
    }
}

impl Spartan<16, 4096> {
    /// New instance with 128-bit prime and 4096-byte genesis piece size
    pub fn new(genesis_piece: [u8; 4096]) -> (r: Self)
        ensures
            r.genesis() == genesis_piece@,
            is_largest_prime(r.prime_value(), 16),
    {
        Self::new_internal(genesis_piece)
    }
}

impl Spartan<32, 4096> {
    /// New instance with 256-bit prime and 4096-byte genesis piece size
    pub fn new(genesis_piece: [u8; 4096]) -> (r: Self)
        ensures
            r.genesis() == genesis_piece@,
            is_largest_prime(r.prime_value(), 32),
    {
        Self::new_internal(genesis_piece)
    }
}

impl Spartan<64, 4096> {
    /// New instance with 512-bit prime and 4096-byte genesis piece size
    pub fn new(genesis_piece: [u8; 4096]) -> (r: Self)
        ensures
            r.genesis() == genesis_piece@,
            is_largest_prime(r.prime_value(), 64),
    {
        Self::new_internal(genesis_piece)
    }
}

impl Spartan<128, 4096> {
    /// New instance with 1024-bit prime and 4096-byte genesis piece size
    pub fn new(genesis_piece: [u8; 4096]) -> (r: Self)
        ensures
            r.genesis() == genesis_piece@,
            is_largest_prime(r.prime_value(), 128),
    {
        Self::new_internal(genesis_piece)
    }
}

impl Spartan<256, 4096> {
    /// New instance with 2048-bit prime and 4096-byte genesis piece size
    pub fn new(genesis_piece: [u8; 4096]) -> (r: Self)
        ensures
            r.genesis() == genesis_piece@,
            is_largest_prime(r.prime_value(), 256),
    {
        Self::new_internal(genesis_piece)
    }
}

impl Spartan<512, 4096> {
    /// New instance with 4096-bit prime and 4096-byte genesis piece size
    pub fn new(genesis_piece: [u8; 4096]) -> (r: Self)
        ensures
            r.genesis() == genesis_piece@,
            is_largest_prime(r.prime_value(), 512),
    {
        Self::new_internal(genesis_piece)
    }
}

} // verus!
