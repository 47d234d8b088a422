//! Decoding undoes encoding: the law of the chain, for blocks and for bytes.

use crate::bits::{lemma_xor_bound, lemma_xor_fixed_points, lemma_xor_involution, xor_nat};
use crate::chain::{
    block_at, decode_blocks, decode_bytes, decode_layer, decode_layers, encode_bytes,
    encode_layer, encode_layers, encode_prefix, lemma_encode_layers_len,
    lemma_parallel_layer_matches, parse_blocks, serialize_blocks, unchain,
};
use crate::digits::{
    le_digits, le_value, lemma_le_digits_round_trip, lemma_le_value_bound,
    lemma_le_value_round_trip, radix_pow,
};
use crate::permutation::{
    lemma_inverse_undoes_sqrt, lemma_sqrt_of_zero, lemma_sqrt_permutation_bound,
    sqrt_permutation,
};
use crate::residues::is_prime;
use vstd::arithmetic::div_mod::{
    lemma_div_by_multiple, lemma_fundamental_div_mod, lemma_fundamental_div_mod_converse,
    lemma_mod_bound,
};
use vstd::prelude::*;

verus! {

/// Whether every block is below `bound`.
pub open spec fn all_below(blocks: Seq<nat>, bound: nat) -> bool {
    forall|i: int| 0 <= i < blocks.len() ==> #[trigger] blocks[i] < bound
}

/// Whether each of the first `layers` layers of the chain has a result, all of
/// whose blocks are below `p`. A block that is not is `p` itself, the image of
/// a masked block that was zero.
pub open spec fn encode_stays_below(x: Seq<nat>, iv: nat, p: nat, layers: nat) -> bool
    decreases layers,
{
    layers == 0 || (encode_stays_below(x, iv, p, (layers - 1) as nat) && match encode_layers(
        x,
        iv,
        p,
        layers,
    ) {
        Some(y) => all_below(y, p),
        None => false,
    })
}

/// The block that went into the permutation at place `i` of a layer that took
/// `x` to `y`.
pub open spec fn masked_block(x: Seq<nat>, y: Seq<nat>, feedback: nat, i: int) -> nat {
    xor_nat(
        x[i],
        if i == 0 {
            feedback
        } else {
            y[i - 1]
        },
    )
}

/// Whether block `i` of `y` is the permutation of the masked block `i` of `x`,
/// which was below `p`.
pub open spec fn block_encoded(x: Seq<nat>, y: Seq<nat>, feedback: nat, p: nat, i: int) -> bool {
    masked_block(x, y, feedback, i) < p && y[i] == sqrt_permutation(
        masked_block(x, y, feedback, i),
        p,
    )
}

/// What a layer of the chain does to each block.
pub proof fn lemma_encode_prefix_blocks(x: Seq<nat>, feedback: nat, p: nat, i: nat)
    requires
        i <= x.len(),
        encode_prefix(x, feedback, p, i) is Some,
    ensures
        encode_prefix(x, feedback, p, i).unwrap().len() == x.len(),
        forall|k: int|
            0 <= k < i ==> #[trigger] block_encoded(
                x,
                encode_prefix(x, feedback, p, i).unwrap(),
                feedback,
                p,
                k,
            ),
        forall|k: int|
            i <= k < x.len() ==> #[trigger] encode_prefix(x, feedback, p, i).unwrap()[k] == x[k],
    decreases i,
{
    if i > 0 {
        lemma_encode_prefix_blocks(x, feedback, p, (i - 1) as nat);
        let before = encode_prefix(x, feedback, p, (i - 1) as nat).unwrap();
        let y = encode_prefix(x, feedback, p, i).unwrap();
        let f = if i == 1 {
            feedback
        } else {
            before[i - 2]
        };
        let v = xor_nat(before[i - 1], f);
        assert(y == before.update(i - 1, sqrt_permutation(v, p)));
        assert(before[i - 1] == x[i - 1]);
        assert forall|k: int| 0 <= k < i implies #[trigger] block_encoded(
            x,
            y,
            feedback,
            p,
            k,
        ) by {
            if k < i - 1 {
                assert(block_encoded(x, before, feedback, p, k));
                assert(y[k] == before[k]);
                if k > 0 {
                    assert(y[k - 1] == before[k - 1]);
                }
            } else {
                if k > 0 {
                    assert(y[k - 1] == before[k - 1]);
                }
                assert(masked_block(x, y, feedback, k) == v);
            }
        }
    }
}

/// Undoing the permutation and the masks of a layer gives back what went into
/// it, but for the first block, which is still masked with the feedback.
pub proof fn lemma_unchain_undoes_layer(x: Seq<nat>, feedback: nat, p: nat)
    requires
        is_prime(p as int),
        p % 4 == 3,
        x.len() > 0,
        encode_layer(x, feedback, p) is Some,
        all_below(encode_layer(x, feedback, p).unwrap(), p),
    ensures
        unchain(encode_layer(x, feedback, p).unwrap(), p) == x.update(
            0,
            xor_nat(x[0], feedback),
        ),
{
    let y = encode_layer(x, feedback, p).unwrap();
    lemma_encode_prefix_blocks(x, feedback, p, x.len());
    let u = unchain(y, p);
    let expected = x.update(0, xor_nat(x[0], feedback));
    assert forall|k: int| 0 <= k < x.len() implies u[k] == expected[k] by {
        let v = masked_block(x, y, feedback, k);
        assert(block_encoded(x, y, feedback, p, k));
        assert(y[k] < p);
        if v == 0 {
            lemma_sqrt_of_zero(p);
        }
        lemma_inverse_undoes_sqrt(v, p);
        if k > 0 {
            lemma_xor_involution(x[k], y[k - 1]);
        }
    }
    assert(u =~= expected);
}

/// Whether every block is at most `bound`.
pub open spec fn all_at_most(blocks: Seq<nat>, bound: nat) -> bool {
    forall|i: int| 0 <= i < blocks.len() ==> #[trigger] blocks[i] <= bound
}

/// After at least one layer, no block of the chain's result exceeds `p`.
pub proof fn lemma_encoded_blocks_bound(x: Seq<nat>, iv: nat, p: nat, layers: nat)
    requires
        p > 0,
        layers >= 1,
        encode_layers(x, iv, p, layers) is Some,
    ensures
        all_at_most(encode_layers(x, iv, p, layers).unwrap(), p),
{
    let before = encode_layers(x, iv, p, (layers - 1) as nat).unwrap();
    let feedback = if layers == 1 {
        iv
    } else {
        before.last()
    };
    let y = encode_layer(before, feedback, p).unwrap();
    lemma_encode_prefix_blocks(before, feedback, p, before.len());
    assert forall|i: int| 0 <= i < y.len() implies #[trigger] y[i] <= p by {
        assert(block_encoded(before, y, feedback, p, i));
        lemma_sqrt_permutation_bound(masked_block(before, y, feedback, i), p);
    }
}

/// A chain that stays below `p` for `layers` layers does so for fewer.
pub proof fn lemma_stays_below_earlier(x: Seq<nat>, iv: nat, p: nat, layers: nat, l: nat)
    requires
        l <= layers,
        encode_stays_below(x, iv, p, layers),
    ensures
        encode_stays_below(x, iv, p, l),
    decreases layers,
{
    if l < layers {
        lemma_stays_below_earlier(x, iv, p, (layers - 1) as nat, l);
    }
}

/// Undoing `done` layers of an encoding gives the blocks as they were `done`
/// layers before the end; undoing all gives the input with its first block
/// still masked with the IV.
pub proof fn lemma_decode_undoes_layers(x: Seq<nat>, iv: nat, p: nat, layers: nat, done: nat)
    requires
        is_prime(p as int),
        p % 4 == 3,
        x.len() >= 2,
        done <= layers,
        encode_stays_below(x, iv, p, layers),
    ensures
        encode_layers(x, iv, p, layers) is Some,
        encode_layers(x, iv, p, (layers - done) as nat) is Some,
        done < layers ==> decode_layers(
            encode_layers(x, iv, p, layers).unwrap(),
            p,
            layers,
            done,
        ) == encode_layers(x, iv, p, (layers - done) as nat).unwrap(),
        done == layers && layers >= 1 ==> decode_layers(
            encode_layers(x, iv, p, layers).unwrap(),
            p,
            layers,
            done,
        ) == x.update(0, xor_nat(x[0], iv)),
    decreases done,
{
    let c = encode_layers(x, iv, p, layers);
    if layers == 0 {
    } else if done == 0 {
    } else {
        lemma_decode_undoes_layers(x, iv, p, layers, (done - 1) as nat);
        let l = (layers - done + 1) as nat;
        lemma_stays_below_earlier(x, iv, p, layers, l);
        let after = encode_layers(x, iv, p, l).unwrap();
        let before = encode_layers(x, iv, p, (l - 1) as nat).unwrap();
        let feedback = if l == 1 {
            iv
        } else {
            before.last()
        };
        lemma_encode_layers_len(x, iv, p, (l - 1) as nat);
        assert(encode_layer(before, feedback, p) == Some(after));
        lemma_unchain_undoes_layer(before, feedback, p);
        lemma_parallel_layer_matches(after, p, done == layers);
        let u = unchain(after, p);
        assert(decode_layers(c.unwrap(), p, layers, (done - 1) as nat) == after);
        if done == layers {
            assert(before == x);
        } else {
            lemma_xor_involution(before[0], feedback);
            assert(u.last() == before.last());
            assert(decode_layer(after, p, false) =~= before);
        }
    }
}

/// Decoding undoes encoding, block by block: in the field of a prime `p` with
/// `p % 4 == 3`, for at least one layer and two blocks, where the chain has a
/// result and stays below `p`.
pub proof fn lemma_decode_undoes_encode(x: Seq<nat>, iv: nat, p: nat, layers: nat)
    requires
        is_prime(p as int),
        p % 4 == 3,
        x.len() >= 2,
        layers >= 1,
        encode_stays_below(x, iv, p, layers),
    ensures
        encode_layers(x, iv, p, layers) is Some,
        decode_blocks(encode_layers(x, iv, p, layers).unwrap(), iv, p, layers) == x,
{
    lemma_decode_undoes_layers(x, iv, p, layers, layers);
    lemma_xor_involution(x[0], iv);
    let c = encode_layers(x, iv, p, layers).unwrap();
    assert(decode_blocks(c, iv, p, layers) =~= x);
}

/// Block `i` of the bytes of `blocks` is the digits of `blocks[i]`.
pub proof fn lemma_serialized_block(blocks: Seq<nat>, b: nat, i: int)
    requires
        b > 0,
        0 <= i < blocks.len(),
    ensures
        0 <= i * b,
        (i + 1) * b <= serialize_blocks(blocks, b).len(),
        serialize_blocks(blocks, b).subrange(i * b, (i + 1) * b) == le_digits(blocks[i], b),
{
    let bytes = serialize_blocks(blocks, b);
    assert(0 <= i * b && (i + 1) * b <= blocks.len() * b && (i + 1) * b == i * b + b)
        by (nonlinear_arith)
        requires
            0 <= i < blocks.len(),
            b > 0,
    ;
    let chunk = bytes.subrange(i * b, (i + 1) * b);
    assert forall|j: int| 0 <= j < b implies chunk[j] == le_digits(blocks[i], b)[j] by {
        lemma_fundamental_div_mod_converse(i * b + j, b as int, i, j);
    }
    assert(chunk =~= le_digits(blocks[i], b));
}

/// Reading back the bytes of blocks that fit in `b` bytes gives the blocks.
pub proof fn lemma_parse_serialized(blocks: Seq<nat>, b: nat)
    requires
        b > 0,
        all_below(blocks, radix_pow(b)),
    ensures
        parse_blocks(serialize_blocks(blocks, b), b) == blocks,
{
    let bytes = serialize_blocks(blocks, b);
    lemma_div_by_multiple(blocks.len() as int, b as int);
    assert(bytes.len() / b == blocks.len());
    assert forall|i: int| 0 <= i < blocks.len() implies block_at(bytes, b, i) == blocks[i] by {
        lemma_serialized_block(blocks, b, i);
        lemma_le_digits_round_trip(blocks[i], b);
    }
    assert(parse_blocks(bytes, b) =~= blocks);
}

/// Writing the blocks of a piece gives the piece.
pub proof fn lemma_serialize_parsed(bytes: Seq<u8>, b: nat)
    requires
        b > 0,
        bytes.len() % b == 0,
    ensures
        serialize_blocks(parse_blocks(bytes, b), b) == bytes,
{
    let blocks = parse_blocks(bytes, b);
    let count = bytes.len() / b;
    lemma_fundamental_div_mod(bytes.len() as int, b as int);
    assert(count * b == bytes.len()) by (nonlinear_arith)
        requires
            bytes.len() == b * count,
    ;
    let written = serialize_blocks(blocks, b);
    assert forall|k: int| 0 <= k < bytes.len() implies written[k] == bytes[k] by {
        let i = k / (b as int);
        let j = k % (b as int);
        lemma_fundamental_div_mod(k, b as int);
        lemma_mod_bound(k, b as int);
        assert(0 <= i < count && i * b + j == k && (i + 1) * b <= count * b) by (nonlinear_arith)
            requires
                k == b * i + j,
                0 <= j < b,
                0 <= k < count * b,
        ;
        assert((i + 1) * b == i * b + b) by (nonlinear_arith);
        let chunk = bytes.subrange(i * b, (i + 1) * b);
        lemma_le_value_round_trip(chunk);
        assert(chunk[j] == bytes[k]);
    }
    assert(written =~= bytes);
}

/// The blocks of a piece fit in `b` bytes each.
pub proof fn lemma_parsed_blocks_fit(bytes: Seq<u8>, b: nat)
    requires
        b > 0,
        bytes.len() % b == 0,
    ensures
        all_below(parse_blocks(bytes, b), radix_pow(b)),
        parse_blocks(bytes, b).len() * b == bytes.len(),
{
    let count = bytes.len() / b;
    lemma_fundamental_div_mod(bytes.len() as int, b as int);
    assert(count * b == bytes.len()) by (nonlinear_arith)
        requires
            bytes.len() == b * count,
    ;
    assert forall|i: int| 0 <= i < count implies #[trigger] parse_blocks(bytes, b)[i] < radix_pow(
        b,
    ) by {
        assert(0 <= i * b && (i + 1) * b <= count * b && (i + 1) * b == i * b + b)
            by (nonlinear_arith)
            requires
                0 <= i < count,
                b > 0,
        ;
        lemma_le_value_bound(bytes.subrange(i * b, (i + 1) * b));
    }
}

/// After at least one layer, no block of an encoding exceeds `p`.
pub proof fn lemma_encoding_blocks_bound(piece: Seq<u8>, iv: Seq<u8>, layers: nat, p: nat, b: nat)
    requires
        0 < p < radix_pow(b),
        b > 0,
        layers >= 1,
        encode_bytes(piece, iv, layers, p, b) is Some,
    ensures
        all_at_most(parse_blocks(encode_bytes(piece, iv, layers, p, b).unwrap(), b), p),
{
    let x = parse_blocks(piece, b);
    lemma_encoded_blocks_bound(x, le_value(iv), p, layers);
    let y = encode_layers(x, le_value(iv), p, layers).unwrap();
    assert(all_below(y, radix_pow(b))) by {
        assert forall|i: int| 0 <= i < y.len() implies #[trigger] y[i] < radix_pow(b) by {
            assert(y[i] <= p);
        }
    }
    lemma_parse_serialized(y, b);
}

/// Whether the chain over the blocks of `piece` has a result and stays below
/// `p` in each of its layers.
pub open spec fn encoding_stays_below(
    piece: Seq<u8>,
    iv: Seq<u8>,
    layers: nat,
    p: nat,
    b: nat,
) -> bool {
    encode_stays_below(parse_blocks(piece, b), le_value(iv), p, layers)
}

/// In the field of a prime `p` with `p % 4 == 3` that fits in `b` bytes,
/// decoding an encoding with the IV and the number of layers that made it gives
/// the piece back, byte for byte. This holds for at least one layer, pieces of
/// at least two blocks, and encodings whose chain stays below `p`.
pub proof fn lemma_round_trip(piece: Seq<u8>, iv: Seq<u8>, layers: nat, p: nat, b: nat)
    requires
        is_prime(p as int),
        p % 4 == 3,
        p < radix_pow(b),
        b > 0,
        piece.len() % b == 0,
        piece.len() >= 2 * b,
        layers >= 1,
        encoding_stays_below(piece, iv, layers, p, b),
    ensures
        encode_bytes(piece, iv, layers, p, b) is Some,
        decode_bytes(encode_bytes(piece, iv, layers, p, b).unwrap(), iv, layers, p, b) == piece,
{
    let x = parse_blocks(piece, b);
    lemma_parsed_blocks_fit(piece, b);
    assert(x.len() >= 2) by (nonlinear_arith)
        requires
            x.len() * b == piece.len(),
            piece.len() >= 2 * b,
            b > 0,
    ;
    lemma_decode_undoes_encode(x, le_value(iv), p, layers);
    let y = encode_layers(x, le_value(iv), p, layers).unwrap();
    assert(all_below(y, radix_pow(b))) by {
        assert forall|i: int| 0 <= i < y.len() implies #[trigger] y[i] < radix_pow(b) by {
            assert(y[i] < p);
        }
    }
    lemma_parse_serialized(y, b);
    lemma_serialize_parsed(piece, b);
}

/// Decoding needs the chain to stay below `p`: with one layer, where a block of
/// the encoding is `p` itself, decoding does not give the piece back.
pub proof fn lemma_single_layer_loses_zero(piece: Seq<u8>, iv: Seq<u8>, p: nat, b: nat)
    requires
        is_prime(p as int),
        p % 4 == 3,
        p < radix_pow(b),
        b > 0,
        piece.len() % b == 0,
        iv.len() == b,
        encode_bytes(piece, iv, 1, p, b) is Some,
        !encoding_stays_below(piece, iv, 1, p, b),
    ensures
        decode_bytes(encode_bytes(piece, iv, 1, p, b).unwrap(), iv, 1, p, b) != piece,
{
    let x = parse_blocks(piece, b);
    let v = le_value(iv);
    lemma_parsed_blocks_fit(piece, b);
    lemma_le_value_bound(iv);
    assert(encode_layers(x, v, p, 0) == Some(x));
    let y = encode_layer(x, v, p).unwrap();
    assert(encode_layers(x, v, p, 1) == Some(y));
    assert(encode_stays_below(x, v, p, 0));
    assert(!all_below(y, p));
    let i = choose|i: int| 0 <= i < y.len() && !(#[trigger] y[i] < p);
    lemma_encode_prefix_blocks(x, v, p, x.len());
    lemma_encoded_blocks_bound(x, v, p, 1);
    assert(block_encoded(x, y, v, p, i));
    let masked = masked_block(x, y, v, i);
    let feedback = if i == 0 {
        v
    } else {
        y[i - 1]
    };
    if masked != 0 {
        lemma_inverse_undoes_sqrt(masked, p);
    }
    lemma_xor_fixed_points(x[i], feedback);
    lemma_sqrt_of_zero(p);
    // the bytes of the encoding read back as its blocks
    assert(all_below(y, radix_pow(b))) by {
        assert forall|k: int| 0 <= k < y.len() implies #[trigger] y[k] < radix_pow(b) by {
            assert(y[k] <= p);
        }
    }
    lemma_parse_serialized(y, b);
    // block `i` of the decoding is the feedback masked with `p`, not the feedback
    lemma_parallel_layer_matches(y, p, true);
    assert(decode_layers(y, p, 1, 0) == y);
    assert(decode_layers(y, p, 1, 1) == unchain(y, p));
    let decoded = decode_blocks(y, v, p, 1);
    assert(decoded[i] == xor_nat(p, feedback));
    lemma_xor_fixed_points(p, feedback);
    lemma_xor_bound(p, feedback, b);
    if serialize_blocks(decoded, b) == piece {
        lemma_serialize_parsed(piece, b);
        lemma_serialized_block(decoded, b, i);
        lemma_serialized_block(x, b, i);
        lemma_le_digits_round_trip(decoded[i], b);
        lemma_le_digits_round_trip(x[i], b);
    }
}

} // verus!
