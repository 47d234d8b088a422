//! What decoding tells apart: encodings under different IVs, and encodings
//! that differ in a block.

use crate::bits::{lemma_xor_bound, lemma_xor_injective, xor_nat};
use crate::chain::{
    block_at, decode_blocks, decode_bytes, decode_layers, lemma_parallel_layer_matches,
    parse_blocks, serialize_blocks, unchain,
};
use crate::digits::{
    le_value, lemma_le_digits_round_trip, lemma_le_value_bound, lemma_le_value_injective,
    radix_pow,
};
use crate::permutation::{inverse_sqrt, lemma_inverse_sqrt_bound};
use crate::round_trip::{
    all_below, lemma_parse_serialized, lemma_parsed_blocks_fit, lemma_serialized_block,
};
use vstd::arithmetic::div_mod::{lemma_fundamental_div_mod, lemma_mod_bound};
use vstd::prelude::*;

verus! {

/// Undoing layers keeps every block within `b` bytes.
pub proof fn lemma_decode_layers_fit(c: Seq<nat>, p: nat, layers: nat, done: nat, b: nat)
    requires
        c.len() > 0,
        0 < p < radix_pow(b),
        all_below(c, radix_pow(b)),
    ensures
        decode_layers(c, p, layers, done).len() == c.len(),
        all_below(decode_layers(c, p, layers, done), radix_pow(b)),
    decreases done,
{
    if done > 0 {
        lemma_decode_layers_fit(c, p, layers, (done - 1) as nat, b);
        let before = decode_layers(c, p, layers, (done - 1) as nat);
        lemma_parallel_layer_matches(before, p, done == layers);
        let u = unchain(before, p);
        assert forall|i: int| 0 <= i < u.len() implies #[trigger] u[i] < radix_pow(b) by {
            lemma_inverse_sqrt_bound(before[i], p);
            if i > 0 {
                assert(before[i - 1] < radix_pow(b));
                lemma_xor_bound(inverse_sqrt(before[i], p), before[i - 1], b);
            }
        }
        lemma_xor_bound(u[0], u.last(), b);
    }
}

/// Decoding binds the IV: under two different IVs of `b` bytes, one encoding
/// decodes to two different pieces.
pub proof fn lemma_decode_binds_iv(
    encoding: Seq<u8>,
    iv: Seq<u8>,
    other_iv: Seq<u8>,
    layers: nat,
    p: nat,
    b: nat,
)
    requires
        0 < p < radix_pow(b),
        b > 0,
        encoding.len() % b == 0,
        encoding.len() >= b,
        iv.len() == b,
        other_iv.len() == b,
        iv != other_iv,
    ensures
        decode_bytes(encoding, iv, layers, p, b) != decode_bytes(encoding, other_iv, layers, p, b),
{
    let c = parse_blocks(encoding, b);
    lemma_parsed_blocks_fit(encoding, b);
    assert(c.len() >= 1) by (nonlinear_arith)
        requires
            c.len() * b == encoding.len(),
            encoding.len() >= b,
            b > 0,
    ;
    lemma_decode_layers_fit(c, p, layers, layers, b);
    let d = decode_layers(c, p, layers, layers);
    let v = le_value(iv);
    let w = le_value(other_iv);
    lemma_le_value_bound(iv);
    lemma_le_value_bound(other_iv);
    lemma_xor_bound(d[0], v, b);
    lemma_xor_bound(d[0], w, b);
    let first = decode_blocks(c, v, p, layers);
    let second = decode_blocks(c, w, p, layers);
    assert(all_below(first, radix_pow(b)));
    assert(all_below(second, radix_pow(b)));
    lemma_parse_serialized(first, b);
    lemma_parse_serialized(second, b);
    if serialize_blocks(first, b) == serialize_blocks(second, b) {
        assert(first[0] == second[0]);
        lemma_xor_injective(d[0], v, w);
        lemma_le_value_injective(iv, other_iv);
    }
}

/// With one layer, decoding tells apart two encodings that differ in one block
/// and agree in the next: the next block is unmasked with the block that
/// differs.
pub proof fn lemma_decode_detects_changed_block(
    encoding: Seq<u8>,
    other: Seq<u8>,
    iv: Seq<u8>,
    p: nat,
    b: nat,
    i: int,
)
    requires
        0 < p < radix_pow(b),
        b > 0,
        encoding.len() % b == 0,
        other.len() == encoding.len(),
        0 <= i,
        (i + 2) * b <= encoding.len(),
        block_at(encoding, b, i) != block_at(other, b, i),
        block_at(encoding, b, i + 1) == block_at(other, b, i + 1),
    ensures
        decode_bytes(encoding, iv, 1, p, b) != decode_bytes(other, iv, 1, p, b),
{
    let c = parse_blocks(encoding, b);
    let d = parse_blocks(other, b);
    let j = i + 1;
    lemma_parsed_blocks_fit(encoding, b);
    lemma_parsed_blocks_fit(other, b);
    assert(j < c.len()) by (nonlinear_arith)
        requires
            c.len() * b == encoding.len(),
            (j + 1) * b <= encoding.len(),
            b > 0,
    ;
    lemma_parallel_layer_matches(c, p, true);
    lemma_parallel_layer_matches(d, p, true);
    assert(decode_layers(c, p, 1, 0) == c);
    assert(decode_layers(d, p, 1, 0) == d);
    assert(decode_layers(c, p, 1, 1) == unchain(c, p));
    assert(decode_layers(d, p, 1, 1) == unchain(d, p));
    let first = decode_blocks(c, le_value(iv), p, 1);
    let second = decode_blocks(d, le_value(iv), p, 1);
    assert(first[j] == xor_nat(inverse_sqrt(c[j], p), c[j - 1]));
    assert(second[j] == xor_nat(inverse_sqrt(c[j], p), d[j - 1]));
    lemma_inverse_sqrt_bound(c[j], p);
    assert(c[j - 1] < radix_pow(b));
    assert(d[j - 1] < radix_pow(b));
    lemma_xor_bound(inverse_sqrt(c[j], p), c[j - 1], b);
    lemma_xor_bound(inverse_sqrt(c[j], p), d[j - 1], b);
    if serialize_blocks(first, b) == serialize_blocks(second, b) {
        lemma_serialized_block(first, b, j);
        lemma_serialized_block(second, b, j);
        lemma_le_digits_round_trip(first[j], b);
        lemma_le_digits_round_trip(second[j], b);
        lemma_xor_injective(inverse_sqrt(c[j], p), c[j - 1], d[j - 1]);
    }
}

/// With one layer, decoding tells an encoding from one that differs from it in
/// a single byte outside the last block.
pub proof fn lemma_decode_detects_changed_byte(
    encoding: Seq<u8>,
    iv: Seq<u8>,
    p: nat,
    b: nat,
    at: int,
    byte: u8,
)
    requires
        0 < p < radix_pow(b),
        b > 0,
        encoding.len() % b == 0,
        0 <= at,
        at + b < encoding.len(),
        byte != encoding[at],
    ensures
        decode_bytes(encoding, iv, 1, p, b) != decode_bytes(
            encoding.update(at, byte),
            iv,
            1,
            p,
            b,
        ),
{
    let other = encoding.update(at, byte);
    let i = at / (b as int);
    let j = at % (b as int);
    lemma_fundamental_div_mod(at, b as int);
    lemma_mod_bound(at, b as int);
    lemma_fundamental_div_mod(encoding.len() as int, b as int);
    let count = encoding.len() as int / b as int;
    assert(0 <= i && i * b + j == at && (i + 1) * b == i * b + b && (i + 2) * b == i * b + 2 * b
        && (i + 2) * b <= encoding.len()) by (nonlinear_arith)
        requires
            at == b * i + j,
            0 <= j < b,
            0 <= at,
            at + b < encoding.len(),
            encoding.len() == b * count,
    ;
    let chunk = encoding.subrange(i * b, (i + 1) * b);
    let changed = other.subrange(i * b, (i + 1) * b);
    assert(chunk[j] != changed[j]);
    if le_value(chunk) == le_value(changed) {
        lemma_le_value_injective(chunk, changed);
    }
    assert(encoding.subrange((i + 1) * b, (i + 2) * b) =~= other.subrange(
        (i + 1) * b,
        (i + 2) * b,
    ));
    lemma_decode_detects_changed_block(encoding, other, iv, p, b, i);
}

} // verus!
