//! The engine: chained square-root permutations over the blocks of a piece.

use crate::bignum::MAX_DIGITS;
use crate::bits::xor_nat;
use crate::chain::{
    block_at, decode_bytes, decode_layer, decode_layer_parallel, decode_layers,
    decode_layers_parallel, decode_parallel_bytes, encode_bytes, encode_layers, encode_prefix,
    lemma_encode_layers_fails, lemma_encode_prefix_fails, parse_blocks, serialize_blocks,
    undo_down_to,
};
use crate::digits::{
    le_digits, le_value, lemma_radix_pow_is_power_of_two, lemma_radix_pow_monotonic,
    lemma_radix_pow_step, lemma_radix_pow_strictly_monotonic, radix_pow,
};
use crate::natural::Natural;
use crate::permutation::{inverse_sqrt, sqrt_exponent, sqrt_permutation};
use crate::prime_search::{is_largest_prime, largest_prime};
use crate::round_trip::{all_at_most, lemma_encoding_blocks_bound};
use rayon::iter::{IndexedParallelIterator, IntoParallelRefIterator, ParallelIterator};
use vstd::arithmetic::div_mod::{lemma_fundamental_div_mod, lemma_fundamental_div_mod_converse};
use vstd::prelude::*;
use vstd::slice::slice_subrange;

verus! {

/// The largest size of a prime, in bytes, that an engine can be made for.
pub const MAX_PRIME_SIZE_BYTES: usize = 0x0fff_ffff;

/// A block at the input of the permutation was not below the prime.
#[derive(Debug)]
pub struct DataBiggerThanPrime;

/// The numbers that a vector of `Natural`s holds.
pub open spec fn values_of(blocks: Seq<Natural>) -> Seq<nat> {
    Seq::new(blocks.len(), |i: int| blocks[i]@)
}

/// Whether pieces of `piece_size` bytes can be cut into blocks of `prime_size` bytes.
pub open spec fn valid_sizes(prime_size: usize, piece_size: usize) -> bool {
    &&& 0 < prime_size <= MAX_PRIME_SIZE_BYTES
    &&& 0 < piece_size
    &&& piece_size % prime_size == 0
}

/// Block `index` of a piece of `count` blocks ends within the piece.
proof fn lemma_block_range(index: nat, count: nat, size: nat)
    requires
        index < count,
    ensures
        index * size + size == (index + 1) * size,
        (index + 1) * size <= count * size,
        0 <= index * size,
{
    assert(index * size + size == (index + 1) * size) by (nonlinear_arith);
    assert((index + 1) * size <= count * size) by (nonlinear_arith)
        requires
            index + 1 <= count,
    ;
    assert(0 <= index * size) by (nonlinear_arith);
}

/// A piece whose length is a multiple of the block size is its blocks, end to end.
proof fn lemma_block_count(len: nat, size: nat)
    requires
        size > 0,
        len % size == 0,
    ensures
        (len / size) * size == len,
        len > 0 ==> len / size >= 1,
        len > size ==> len / size >= 2,
{
    lemma_fundamental_div_mod(len as int, size as int);
    let count = len / size;
    assert(size * count == count * size) by (nonlinear_arith);
    assert(len > 0 ==> count >= 1) by (nonlinear_arith)
        requires
            count * size == len,
            count >= 0,
    ;
    assert(len > size ==> count >= 2) by (nonlinear_arith)
        requires
            count * size == len,
            count >= 0,
    ;
}

/// Returns the block at `index` of a piece, and the block before it as its feedback.
fn piece_to_block_and_feedback(piece: &Vec<Natural>, index: usize) -> (r: (&Natural, &Natural))
    requires
        0 < index < piece@.len(),
    ensures
        *r.0 == piece@[index as int],
        *r.1 == piece@[index - 1],
{
    (&piece[index], &piece[index - 1])
}

/// Returns the first block of a piece, and the last block as its feedback.
fn piece_to_first_block_and_feedback(piece: &Vec<Natural>) -> (r: (&Natural, &Natural))
    requires
        piece@.len() >= 2,
    ensures
        *r.0 == piece@[0],
        *r.1 == piece@.last(),
{
    // At this point last block is already decoded, so we can use it as an IV to previous iteration
    (&piece[0], &piece[piece.len() - 1])
}

/// Converts a piece from raw bytes to its blocks, each a little-endian number.
fn read_integers_from_array<const N: usize>(piece: &[u8; N], block_size_bytes: usize) -> (r: Vec<
    Natural,
>)
    requires
        0 < block_size_bytes <= MAX_PRIME_SIZE_BYTES,
        N % block_size_bytes == 0,
    ensures
        values_of(r@) == parse_blocks(piece@, block_size_bytes as nat),
        r@.len() == N / block_size_bytes,
{
    let count: usize = N / block_size_bytes;
    let bytes = piece.as_slice();
    let mut blocks: Vec<Natural> = Vec::new();
    let mut i: usize = 0;
    proof {
        lemma_block_count(N as nat, block_size_bytes as nat);
    }
    while i < count
        invariant
            i <= count,
            count * block_size_bytes == N,
            0 < block_size_bytes <= MAX_PRIME_SIZE_BYTES,
            bytes@ == piece@,
            piece@.len() == N,
            blocks@.len() == i,
            forall|k: int|
                0 <= k < i ==> (#[trigger] blocks@[k])@ == block_at(
                    piece@,
                    block_size_bytes as nat,
                    k,
                ),
        decreases count - i,
    {
        proof {
            lemma_block_range(i as nat, count as nat, block_size_bytes as nat);
        }
        let start: usize = i * block_size_bytes;
        let end: usize = start + block_size_bytes;
        let block = Natural::from_le_bytes(slice_subrange(bytes, start, end));
        blocks.push(block);
        i = i + 1;
    }
    proof {
        assert(N as int / block_size_bytes as int == count);
        assert(values_of(blocks@) =~= parse_blocks(piece@, block_size_bytes as nat));
    }
    blocks
}

/// Converts the blocks of a piece back to raw bytes, each block written with
/// exactly `block_size_bytes` bytes.
fn write_integers_to_array<const N: usize>(
    integer_piece: &Vec<Natural>,
    piece: &mut [u8; N],
    block_size_bytes: usize,
)
    requires
        0 < block_size_bytes,
        integer_piece@.len() * block_size_bytes == N,
    ensures
        final(piece)@ == serialize_blocks(values_of(integer_piece@), block_size_bytes as nat),
{
    let ghost expected = serialize_blocks(values_of(integer_piece@), block_size_bytes as nat);
    let count: usize = integer_piece.len();
    let mut i: usize = 0;
    while i < count
        invariant
            i <= count,
            count == integer_piece@.len(),
            0 < block_size_bytes,
            count * block_size_bytes == N,
            piece@.len() == N,
            expected == serialize_blocks(values_of(integer_piece@), block_size_bytes as nat),
            forall|k: int| 0 <= k < i * block_size_bytes ==> piece@[k] == expected[k],
        decreases count - i,
    {
        proof {
            lemma_block_range(i as nat, count as nat, block_size_bytes as nat);
        }
        let start: usize = i * block_size_bytes;
        let bytes = integer_piece[i].to_le_bytes(block_size_bytes);
        let mut j: usize = 0;
        while j < block_size_bytes
            invariant
                j <= block_size_bytes,
                i < count,
                start == i * block_size_bytes,
                start + block_size_bytes <= N,
                piece@.len() == N,
                bytes@ == le_digits(integer_piece@[i as int]@, block_size_bytes as nat),
                expected == serialize_blocks(values_of(integer_piece@), block_size_bytes as nat),
                count == integer_piece@.len(),
                count * block_size_bytes == N,
                forall|k: int| 0 <= k < start + j ==> piece@[k] == expected[k],
            decreases block_size_bytes - j,
        {
            proof {
                let k = (start + j) as int;
                lemma_fundamental_div_mod_converse(
                    k,
                    block_size_bytes as int,
                    i as int,
                    j as int,
                );
                assert(expected[k] == bytes@[j as int]);
            }
            piece[start + j] = bytes[j];
            j = j + 1;
        }
        i = i + 1;
        proof {
            assert(i * block_size_bytes == start + block_size_bytes) by (nonlinear_arith)
                requires
                    start == (i - 1) * block_size_bytes,
            ;
        }
    }
    proof {
        assert(piece@ =~= expected);
    }
}

/// An engine for a prime of `PRIME_SIZE_BYTES` bytes and pieces of
/// `PIECE_SIZE_BYTES` bytes.
#[derive(Debug)]
pub struct Sloth<const PRIME_SIZE_BYTES: usize, const PIECE_SIZE_BYTES: usize> {
    prime: Natural,
    exponent: Natural,
}

impl<const PRIME_SIZE_BYTES: usize, const PIECE_SIZE_BYTES: usize> Sloth<
    PRIME_SIZE_BYTES,
    PIECE_SIZE_BYTES,
> {
    #[verifier::type_invariant]
    spec fn well_formed(self) -> bool {
        &&& valid_sizes(PRIME_SIZE_BYTES, PIECE_SIZE_BYTES)
        &&& self.prime@ % 4 == 3
        &&& self.prime@ < radix_pow(PRIME_SIZE_BYTES as nat)
        &&& self.exponent@ == sqrt_exponent(self.prime@)
    }

    /// The modulus of the engine's field.
    pub closed spec fn prime_value(&self) -> nat {
        self.prime@
    }

    /// Initializes an engine with a given prime and computes the exponent.
    pub fn with_prime(prime: Natural) -> (r: Self)
        requires
            valid_sizes(PRIME_SIZE_BYTES, PIECE_SIZE_BYTES),
            prime@ % 4 == 3,
            prime@ < radix_pow(PRIME_SIZE_BYTES as nat),
        ensures
            r.prime_value() == prime@,
    {
        proof {
            lemma_radix_pow_monotonic(PRIME_SIZE_BYTES as nat, (MAX_DIGITS - 1) as nat);
            lemma_radix_pow_step((MAX_DIGITS - 1) as nat);
        }
        let one = Natural::from_u8(1);
        let exponent = prime.add(&one).div_exact_u(4);
        Sloth { prime, exponent }
    }

    /// Initializes an engine for the given prime size, deterministically deriving
    /// the largest prime and computing the exponent.
    pub fn new() -> (r: Self)
        requires
            valid_sizes(PRIME_SIZE_BYTES, PIECE_SIZE_BYTES),
        ensures
            is_largest_prime(r.prime_value(), PRIME_SIZE_BYTES as nat),
    {
        let prime = largest_prime(PRIME_SIZE_BYTES as u32);
        Self::with_prime(prime)
    }

    /// Initializes an engine with a given prime, where the prime leaves 3 on
    /// division by 4 and fits in `PRIME_SIZE_BYTES` bytes.
    pub fn try_with_prime(prime: Natural) -> (r: Option<Self>)
        requires
            valid_sizes(PRIME_SIZE_BYTES, PIECE_SIZE_BYTES),
        ensures
            r is Some <==> prime@ % 4 == 3 && prime@ < radix_pow(PRIME_SIZE_BYTES as nat),
            r is Some ==> r.unwrap().prime_value() == prime@,
    {
        proof {
            lemma_radix_pow_is_power_of_two(PRIME_SIZE_BYTES as nat);
            lemma_radix_pow_strictly_monotonic(PRIME_SIZE_BYTES as nat, MAX_DIGITS as nat);
        }
        let bound = Natural::u_pow_u(2, (PRIME_SIZE_BYTES * 8) as u32);
        if prime.mod_u(4) == 3 && prime.lt(&bound) {
            Some(Self::with_prime(prime))
        } else {
            None
        }
    }

    /// The modulus of the engine's field.
    pub fn prime(&self) -> (r: &Natural)
        ensures
            r@ == self.prime_value(),
            r@ % 4 == 3,
            r@ < radix_pow(PRIME_SIZE_BYTES as nat),
    {
        proof {
            use_type_invariant(self);
        }
        &self.prime
    }

    /// Sequentially encodes a piece, so that a minimum amount of wall clock time
    /// elapses. Each block is masked with the block before it, the first with the
    /// IV or with the last block of the layer before, and then permuted, which
    /// leaves no block above the prime. Fails, leaving the piece as it was, where
    /// a masked block is not below the prime.
    pub fn encode(
        &self,
        piece: &mut [u8; PIECE_SIZE_BYTES],
        expanded_iv: [u8; PRIME_SIZE_BYTES],
        layers: usize,
    ) -> (r: Result<(), DataBiggerThanPrime>)
        ensures
            match r {
                Ok(()) => encode_bytes(
                    old(piece)@,
                    expanded_iv@,
                    layers as nat,
                    self.prime_value(),
                    PRIME_SIZE_BYTES as nat,
                ) == Some(final(piece)@) && (layers >= 1 ==> all_at_most(
                    parse_blocks(final(piece)@, PRIME_SIZE_BYTES as nat),
                    self.prime_value(),
                )),
                Err(_) => encode_bytes(
                    old(piece)@,
                    expanded_iv@,
                    layers as nat,
                    self.prime_value(),
                    PRIME_SIZE_BYTES as nat,
                ) is None && final(piece)@ == old(piece)@,
            },
    {
        proof {
            use_type_invariant(self);
            lemma_block_count(PIECE_SIZE_BYTES as nat, PRIME_SIZE_BYTES as nat);
        }
        let ghost p = self.prime@;
        let ghost input = parse_blocks(piece@, PRIME_SIZE_BYTES as nat);
        let ghost iv = le_value(expanded_iv@);

        // convert piece to integer representation
        let mut integer_piece = read_integers_from_array(piece, PRIME_SIZE_BYTES);
        let count: usize = integer_piece.len();

        // init feedback as expanded IV
        let mut feedback = Natural::from_le_bytes(expanded_iv.as_slice());

        // apply the block cipher
        let mut layer: usize = 0;
        while layer < layers
            invariant
                layer <= layers,
                count == integer_piece@.len(),
                count > 0,
                p == self.prime@,
                piece@ == old(piece)@,
                input == parse_blocks(old(piece)@, PRIME_SIZE_BYTES as nat),
                iv == le_value(expanded_iv@),
                encode_layers(input, iv, p, layer as nat) == Some(values_of(integer_piece@)),
                feedback@ == (if layer == 0 {
                    iv
                } else {
                    values_of(integer_piece@).last()
                }),
            decreases layers - layer,
        {
            let ghost start = values_of(integer_piece@);
            let ghost first = feedback@;
            let mut i: usize = 0;
            while i < count
                invariant
                    i <= count,
                    layer < layers,
                    count == integer_piece@.len(),
                    count == start.len(),
                    p == self.prime@,
                        piece@ == old(piece)@,
                    input == parse_blocks(old(piece)@, PRIME_SIZE_BYTES as nat),
                    iv == le_value(expanded_iv@),
                    encode_layers(input, iv, p, layer as nat) == Some(start),
                    first == (if layer == 0 {
                        iv
                    } else {
                        start.last()
                    }),
                    encode_prefix(start, first, p, i as nat) == Some(values_of(integer_piece@)),
                    feedback@ == (if i == 0 {
                        first
                    } else {
                        integer_piece@[i - 1]@
                    }),
                decreases count - i,
            {
                let ghost before = values_of(integer_piece@);
                // xor block with feedback
                let masked = integer_piece[i].bitxor(&feedback);

                // apply sqrt permutation
                match self.sqrt_permutation(&masked) {
                    Err(e) => {
                        proof {
                            assert(encode_prefix(start, first, p, (i + 1) as nat) is None);
                            lemma_encode_prefix_fails(
                                start,
                                first,
                                p,
                                (i + 1) as nat,
                                count as nat,
                            );
                            assert(encode_layers(input, iv, p, (layer + 1) as nat) is None);
                            lemma_encode_layers_fails(
                                input,
                                iv,
                                p,
                                (layer + 1) as nat,
                                layers as nat,
                            );
                        }
                        return Err(e);
                    },
                    Ok(block) => {
                        // carry forward the feedback
                        feedback = block.clone();
                        integer_piece[i] = block;
                        proof {
                            assert(values_of(integer_piece@) =~= before.update(
                                i as int,
                                sqrt_permutation(masked@, p),
                            ));
                        }
                    },
                }
                i = i + 1;
            }
            layer = layer + 1;
        }

        // transform integers back to bytes
        write_integers_to_array(&integer_piece, piece, PRIME_SIZE_BYTES);
        proof {
            if layers >= 1 {
                lemma_encoding_blocks_bound(
                    old(piece)@,
                    expanded_iv@,
                    layers as nat,
                    p,
                    PRIME_SIZE_BYTES as nat,
                );
            }
        }

        Ok(())
    }

    /// Sequentially decodes an encoding, in time much below the time to encode.
    /// Within a layer the blocks are undone from the last to the second, each
    /// unmasked with the block before it, which is still as it was encoded.
    pub fn decode(
        &self,
        piece: &mut [u8; PIECE_SIZE_BYTES],
        expanded_iv: [u8; PRIME_SIZE_BYTES],
        layers: usize,
    )
        requires
            layers == 0 || PIECE_SIZE_BYTES > PRIME_SIZE_BYTES,
        ensures
            final(piece)@ == decode_bytes(
                old(piece)@,
                expanded_iv@,
                layers as nat,
                self.prime_value(),
                PRIME_SIZE_BYTES as nat,
            ),
    {
        proof {
            use_type_invariant(self);
            lemma_block_count(PIECE_SIZE_BYTES as nat, PRIME_SIZE_BYTES as nat);
        }
        let ghost p = self.prime@;
        let ghost input = parse_blocks(piece@, PRIME_SIZE_BYTES as nat);

        // convert encoding to integer representation
        let mut integer_piece = read_integers_from_array(piece, PRIME_SIZE_BYTES);
        let count: usize = integer_piece.len();

        let mut layer: usize = 0;
        while layer < layers
            invariant
                layer <= layers,
                count == integer_piece@.len(),
                count > 0,
                layers == 0 || count >= 2,
                p == self.prime@,
                values_of(integer_piece@) == decode_layers(input, p, layers as nat, layer as nat),
            decreases layers - layer,
        {
            let ghost start = values_of(integer_piece@);
            let mut i: usize = count - 1;
            while i >= 1
                invariant
                    i < count,
                    count >= 2,
                    count == integer_piece@.len(),
                    count == start.len(),
                    p == self.prime@,
                    values_of(integer_piece@) == undo_down_to(start, p, (i + 1) as nat),
                decreases i,
            {
                let ghost later = values_of(integer_piece@);
                let (block, feedback) = piece_to_block_and_feedback(&integer_piece, i);
                let undone = self.inverse_sqrt(block).bitxor(feedback);
                integer_piece[i] = undone;
                proof {
                    assert(values_of(integer_piece@) =~= later.update(i as int, undone@));
                }
                i = i - 1;
            }
            let ghost later = values_of(integer_piece@);
            let (block, feedback) = piece_to_first_block_and_feedback(&integer_piece);
            let mut undone = self.inverse_sqrt(block);
            if layer != layers - 1 {
                undone = undone.bitxor(feedback);
            }
            integer_piece[0] = undone;
            proof {
                assert(undo_down_to(start, p, 0) =~= later.update(0, inverse_sqrt(later[0], p)));
                assert(values_of(integer_piece@) =~= decode_layer(start, p, layer + 1 == layers));
            }
            layer = layer + 1;
        }

        // remove the IV (last round)
        let iv = Natural::from_le_bytes(expanded_iv.as_slice());
        let ghost undone_layers = values_of(integer_piece@);
        let first = integer_piece[0].bitxor(&iv);
        integer_piece[0] = first;
        proof {
            assert(values_of(integer_piece@) =~= undone_layers.update(
                0,
                xor_nat(undone_layers[0], iv@),
            ));
        }

        // transform integers back to bytes
        write_integers_to_array(&integer_piece, piece, PRIME_SIZE_BYTES);
    }

    /// Undoes one block of a layer: inverts the permutation and removes the mask.
    pub fn unchain_block(&self, block: &Natural, feedback: &Natural) -> (r: Natural)
        ensures
            r@ == xor_nat(inverse_sqrt(block@, self.prime_value()), feedback@),
    {
        self.inverse_sqrt(block).bitxor(feedback)
    }

    /// Undoes each block with the feedback at the same place, on rayon's pool of
    /// threads. rayon's indexed parallel iterators keep the order of the items
    /// through `zip`, `map` and `collect`, so that the results stand where their
    /// blocks stood.
    #[verifier::external_body]
    fn unchain_blocks_in_parallel(
        &self,
        blocks: &Vec<Natural>,
        feedbacks: &Vec<Natural>,
    ) -> (r: Vec<Natural>)
        requires
            blocks@.len() == feedbacks@.len(),
        ensures
            r@.len() == blocks@.len(),
            forall|i: int|
                0 <= i < blocks@.len() ==> (#[trigger] r@[i])@ == xor_nat(
                    inverse_sqrt(blocks@[i]@, self.prime_value()),
                    feedbacks@[i]@,
                ),
    {
        blocks.par_iter().zip(feedbacks.par_iter()).map(
            |(block, feedback)| self.unchain_block(block, feedback),
        ).collect()
    }

    /// Decodes an encoding in parallel, in time much below the time to encode.
    /// Within a layer every block but the first is undone from a snapshot of the
    /// layer, independently of the others. The result is that of `decode`:
    /// see `lemma_parallel_decode_matches`.
    pub fn decode_parallel(
        &self,
        piece: &mut [u8; PIECE_SIZE_BYTES],
        expanded_iv: [u8; PRIME_SIZE_BYTES],
        layers: usize,
    )
        requires
            layers == 0 || PIECE_SIZE_BYTES > PRIME_SIZE_BYTES,
        ensures
            final(piece)@ == decode_parallel_bytes(
                old(piece)@,
                expanded_iv@,
                layers as nat,
                self.prime_value(),
                PRIME_SIZE_BYTES as nat,
            ),
    {
        proof {
            use_type_invariant(self);
            lemma_block_count(PIECE_SIZE_BYTES as nat, PRIME_SIZE_BYTES as nat);
        }
        let ghost p = self.prime@;
        let ghost input = parse_blocks(piece@, PRIME_SIZE_BYTES as nat);

        // convert encoding to integer representation
        let mut integer_piece = read_integers_from_array(piece, PRIME_SIZE_BYTES);
        let count: usize = integer_piece.len();

        let mut layer: usize = 0;
        while layer < layers
            invariant
                layer <= layers,
                count == integer_piece@.len(),
                count > 0,
                layers == 0 || count >= 2,
                p == self.prime@,
                values_of(integer_piece@) == decode_layers_parallel(
                    input,
                    p,
                    layers as nat,
                    layer as nat,
                ),
            decreases layers - layer,
        {
            let ghost start = values_of(integer_piece@);

            // snapshot of the layer: each block but the first, and the block before it
            let mut blocks: Vec<Natural> = Vec::new();
            let mut feedbacks: Vec<Natural> = Vec::new();
            let mut i: usize = 1;
            while i < count
                invariant
                    1 <= i <= count,
                    count == integer_piece@.len(),
                    start == values_of(integer_piece@),
                    blocks@.len() == i - 1,
                    feedbacks@.len() == i - 1,
                    forall|k: int| 0 <= k < i - 1 ==> (#[trigger] blocks@[k])@ == start[k + 1],
                    forall|k: int| 0 <= k < i - 1 ==> (#[trigger] feedbacks@[k])@ == start[k],
                decreases count - i,
            {
                blocks.push(integer_piece[i].clone());
                feedbacks.push(integer_piece[i - 1].clone());
                i = i + 1;
            }
            let mut undone_piece = self.unchain_blocks_in_parallel(&blocks, &feedbacks);

            let (block, feedback) = (&integer_piece[0], &undone_piece[count - 2]);
            let mut undone = self.inverse_sqrt(block);
            if layer != layers - 1 {
                undone = undone.bitxor(feedback);
            }
            undone_piece.insert(0, undone);
            integer_piece = undone_piece;
            proof {
                assert(values_of(integer_piece@) =~= decode_layer_parallel(
                    start,
                    p,
                    layer + 1 == layers,
                ));
            }
            layer = layer + 1;
        }

        // remove the IV (last round)
        let iv = Natural::from_le_bytes(expanded_iv.as_slice());
        let ghost undone_layers = values_of(integer_piece@);
        let first = integer_piece[0].bitxor(&iv);
        integer_piece[0] = first;
        proof {
            assert(values_of(integer_piece@) =~= undone_layers.update(
                0,
                xor_nat(undone_layers[0], iv@),
            ));
        }

        // transform integers back to bytes
        write_integers_to_array(&integer_piece, piece, PRIME_SIZE_BYTES);
    }

    /// Computes the permutation of `data` in the slow direction, for data below
    /// the prime. Zero goes to the prime itself.
    pub fn sqrt_permutation(&self, data: &Natural) -> (r: Result<Natural, DataBiggerThanPrime>)
        ensures
            match r {
                Ok(y) => data@ < self.prime_value() && y@ == sqrt_permutation(
                    data@,
                    self.prime_value(),
                ) && y@ <= self.prime_value(),
                Err(_) => data@ >= self.prime_value(),
            },
    {
        proof {
            use_type_invariant(self);
        }
        if !data.lt(&self.prime) {
            return Err(DataBiggerThanPrime);
        }
        if data.jacobi(&self.prime) == 1 {
            let y = data.pow_mod(&self.exponent, &self.prime);
            if y.is_odd() {
                Ok(self.prime.sub(&y))
            } else {
                Ok(y)
            }
        } else {
            let u = self.prime.sub(data);
            let y = u.pow_mod(&self.exponent, &self.prime);
            if y.is_even() {
                Ok(self.prime.sub(&y))
            } else {
                Ok(y)
            }
        }
    }

    /// Inverts the permutation with a single squaring modulo the prime.
    pub fn inverse_sqrt(&self, data: &Natural) -> (r: Natural)
        ensures
            r@ == inverse_sqrt(data@, self.prime_value()),
            r@ <= self.prime_value(),
    {
        proof {
            use_type_invariant(self);
        }
        let two = Natural::from_u8(2);
        let s = data.pow_mod(&two, &self.prime);
        if data.is_odd() {
            self.prime.sub(&s)
        } else {
            s
        }
    }
}

impl<const PRIME_SIZE_BYTES: usize, const PIECE_SIZE_BYTES: usize> Clone for Sloth<
    PRIME_SIZE_BYTES,
    PIECE_SIZE_BYTES,
> {
    /// A second engine for the same field.
    fn clone(&self) -> (r: Self)
        ensures
            r.prime_value() == self.prime_value(),
    {
        proof {
            use_type_invariant(self);
        }
        Sloth { prime: self.prime.clone(), exponent: self.exponent.clone() }
    }
}

} // verus!
