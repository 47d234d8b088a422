//! The cipher-block chain over the blocks of a piece, as mathematics.

use crate::bits::xor_nat;
use crate::digits::{le_digits, le_value};
use crate::permutation::{inverse_sqrt, sqrt_permutation};
use vstd::prelude::*;

verus! {

/// The number that block `i` of `bytes` holds, for blocks of `b` bytes.
pub open spec fn block_at(bytes: Seq<u8>, b: nat, i: int) -> nat {
    le_value(bytes.subrange(i * b, (i + 1) * b))
}

/// The blocks of `bytes`, each `b` bytes read least significant byte first.
pub open spec fn parse_blocks(bytes: Seq<u8>, b: nat) -> Seq<nat> {
    Seq::new(bytes.len() / b, |i: int| block_at(bytes, b, i))
}

/// The bytes of `blocks`, each written with exactly `b` bytes, least
/// significant byte first.
pub open spec fn serialize_blocks(blocks: Seq<nat>, b: nat) -> Seq<u8> {
    Seq::new(blocks.len() * b, |k: int| le_digits(blocks[k / (b as int)], b)[k % (b as int)])
}

/// One layer of the chain after its first `i` blocks: each of them was masked
/// with the block before it (the first with `feedback`) and permuted. `None`
/// where a masked block was not below `p`.
pub open spec fn encode_prefix(x: Seq<nat>, feedback: nat, p: nat, i: nat) -> Option<Seq<nat>>
    decreases i,
{
    if i == 0 {
        Some(x)
    } else {
        match encode_prefix(x, feedback, p, (i - 1) as nat) {
            None => None,
            Some(y) => {
                let f = if i == 1 {
                    feedback
                } else {
                    y[i - 2]
                };
                let v = xor_nat(y[i - 1], f);
                if v >= p {
                    None
                } else {
                    Some(y.update(i - 1, sqrt_permutation(v, p)))
                }
            },
        }
    }
}

/// One whole layer of the chain.
pub open spec fn encode_layer(x: Seq<nat>, feedback: nat, p: nat) -> Option<Seq<nat>> {
    encode_prefix(x, feedback, p, x.len())
}

/// `layers` layers of the chain. The first starts from `iv`, each later one
/// from the last block of the layer before it.
pub open spec fn encode_layers(x: Seq<nat>, iv: nat, p: nat, layers: nat) -> Option<Seq<nat>>
    decreases layers,
{
    if layers == 0 {
        Some(x)
    } else {
        match encode_layers(x, iv, p, (layers - 1) as nat) {
            None => None,
            Some(y) => encode_layer(
                y,
                if layers == 1 {
                    iv
                } else {
                    y.last()
                },
                p,
            ),
        }
    }
}

/// The blocks of a layer with the permutation undone and each block but the
/// first unmasked. Every block is computed from `c` alone.
pub open spec fn unchain(c: Seq<nat>, p: nat) -> Seq<nat> {
    Seq::new(
        c.len(),
        |i: int|
            if i == 0 {
                inverse_sqrt(c[0], p)
            } else {
                xor_nat(inverse_sqrt(c[i], p), c[i - 1])
            },
    )
}

/// The blocks of a layer after the blocks from the last one down to block `i`
/// were undone, one after the other and in place: the permutation inverted,
/// and every block but the first unmasked with the block before it, which is
/// still as it was encoded.
pub open spec fn undo_down_to(c: Seq<nat>, p: nat, i: nat) -> Seq<nat>
    decreases c.len() - i,
{
    if i >= c.len() {
        c
    } else {
        let later = undo_down_to(c, p, i + 1);
        if i == 0 {
            later.update(0, inverse_sqrt(later[0], p))
        } else {
            later.update(i as int, xor_nat(inverse_sqrt(later[i as int], p), later[i - 1]))
        }
    }
}

/// One layer undone, block after block. In every layer but the last one to be
/// undone, the first block is then unmasked with the last block, which by then
/// is that of the layer before.
pub open spec fn decode_layer(c: Seq<nat>, p: nat, last: bool) -> Seq<nat> {
    let u = undo_down_to(c, p, 0);
    if last {
        u
    } else {
        u.update(0, xor_nat(u[0], u.last()))
    }
}

/// The blocks after `done` of `layers` layers were undone.
pub open spec fn decode_layers(c: Seq<nat>, p: nat, layers: nat, done: nat) -> Seq<nat>
    decreases done,
{
    if done == 0 {
        c
    } else {
        decode_layer(decode_layers(c, p, layers, (done - 1) as nat), p, done == layers)
    }
}

/// All `layers` layers undone, and the first block unmasked with `iv`.
pub open spec fn decode_blocks(c: Seq<nat>, iv: nat, p: nat, layers: nat) -> Seq<nat> {
    let d = decode_layers(c, p, layers, layers);
    d.update(0, xor_nat(d[0], iv))
}

/// One layer undone from a snapshot of the layer, all blocks at once.
pub open spec fn decode_layer_parallel(c: Seq<nat>, p: nat, last: bool) -> Seq<nat> {
    let u = unchain(c, p);
    if last {
        u
    } else {
        u.update(0, xor_nat(u[0], u.last()))
    }
}

/// The blocks after `done` of `layers` layers were undone, each from a snapshot.
pub open spec fn decode_layers_parallel(c: Seq<nat>, p: nat, layers: nat, done: nat) -> Seq<nat>
    decreases done,
{
    if done == 0 {
        c
    } else {
        decode_layer_parallel(
            decode_layers_parallel(c, p, layers, (done - 1) as nat),
            p,
            done == layers,
        )
    }
}

/// All `layers` layers undone, each from a snapshot, and the first block
/// unmasked with `iv`.
pub open spec fn decode_blocks_parallel(c: Seq<nat>, iv: nat, p: nat, layers: nat) -> Seq<nat> {
    let d = decode_layers_parallel(c, p, layers, layers);
    d.update(0, xor_nat(d[0], iv))
}

/// The encoding of `piece` under `iv` with `layers` layers, in the field of
/// `p` and with blocks of `b` bytes. `None` where a masked block was not below `p`.
pub open spec fn encode_bytes(piece: Seq<u8>, iv: Seq<u8>, layers: nat, p: nat, b: nat) -> Option<
    Seq<u8>,
> {
    match encode_layers(parse_blocks(piece, b), le_value(iv), p, layers) {
        Some(y) => Some(serialize_blocks(y, b)),
        None => None,
    }
}

/// The piece that decoding gives for the encoding `piece`.
pub open spec fn decode_bytes(piece: Seq<u8>, iv: Seq<u8>, layers: nat, p: nat, b: nat) -> Seq<u8> {
    serialize_blocks(decode_blocks(parse_blocks(piece, b), le_value(iv), p, layers), b)
}

/// The piece that decoding in parallel gives for the encoding `piece`.
pub open spec fn decode_parallel_bytes(
    piece: Seq<u8>,
    iv: Seq<u8>,
    layers: nat,
    p: nat,
    b: nat,
) -> Seq<u8> {
    serialize_blocks(decode_blocks_parallel(parse_blocks(piece, b), le_value(iv), p, layers), b)
}

/// A layer of the chain keeps the number of blocks, and leaves the blocks that
/// it has not reached yet as they were.
pub proof fn lemma_encode_prefix_shape(x: Seq<nat>, feedback: nat, p: nat, i: nat)
    requires
        i <= x.len(),
        encode_prefix(x, feedback, p, i) is Some,
    ensures
        encode_prefix(x, feedback, p, i).unwrap().len() == x.len(),
        forall|k: int| i <= k < x.len() ==> encode_prefix(x, feedback, p, i).unwrap()[k] == x[k],
    decreases i,
{
    if i > 0 {
        lemma_encode_prefix_shape(x, feedback, p, (i - 1) as nat);
    }
}

/// Once a masked block was not below `p`, the layer has no result.
pub proof fn lemma_encode_prefix_fails(x: Seq<nat>, feedback: nat, p: nat, i: nat, n: nat)
    requires
        i <= n,
        encode_prefix(x, feedback, p, i) is None,
    ensures
        encode_prefix(x, feedback, p, n) is None,
    decreases n,
{
    if i < n {
        lemma_encode_prefix_fails(x, feedback, p, i, (n - 1) as nat);
    }
}

/// Once a layer has no result, no later layer has one.
pub proof fn lemma_encode_layers_fails(x: Seq<nat>, iv: nat, p: nat, l: nat, n: nat)
    requires
        l <= n,
        encode_layers(x, iv, p, l) is None,
    ensures
        encode_layers(x, iv, p, n) is None,
    decreases n,
{
    if l < n {
        lemma_encode_layers_fails(x, iv, p, l, (n - 1) as nat);
    }
}

/// The layers of the chain keep the number of blocks.
pub proof fn lemma_encode_layers_len(x: Seq<nat>, iv: nat, p: nat, layers: nat)
    requires
        encode_layers(x, iv, p, layers) is Some,
    ensures
        encode_layers(x, iv, p, layers).unwrap().len() == x.len(),
    decreases layers,
{
    if layers > 0 {
        let y = encode_layers(x, iv, p, (layers - 1) as nat);
        lemma_encode_layers_len(x, iv, p, (layers - 1) as nat);
        let f = if layers == 1 {
            iv
        } else {
            y.unwrap().last()
        };
        lemma_encode_prefix_shape(y.unwrap(), f, p, y.unwrap().len());
    }
}

/// Undoing the blocks of a layer in place, from the last one down, leaves the
/// blocks that were not reached as they were, and makes of each of the others
/// what the snapshot makes of it.
pub proof fn lemma_undo_down_to(c: Seq<nat>, p: nat, i: nat)
    requires
        i <= c.len(),
    ensures
        undo_down_to(c, p, i).len() == c.len(),
        forall|k: int| 0 <= k < i ==> #[trigger] undo_down_to(c, p, i)[k] == c[k],
        forall|k: int|
            i <= k < c.len() ==> #[trigger] undo_down_to(c, p, i)[k] == unchain(c, p)[k],
    decreases c.len() - i,
{
    if i < c.len() {
        lemma_undo_down_to(c, p, i + 1);
    }
}

/// One layer undone block after block is the layer undone from a snapshot.
pub proof fn lemma_parallel_layer_matches(c: Seq<nat>, p: nat, last: bool)
    ensures
        decode_layer_parallel(c, p, last) == decode_layer(c, p, last),
{
    lemma_undo_down_to(c, p, 0);
    assert(undo_down_to(c, p, 0) =~= unchain(c, p));
}

/// Layers undone block after block are the layers undone from snapshots.
pub proof fn lemma_parallel_layers_match(c: Seq<nat>, p: nat, layers: nat, done: nat)
    ensures
        decode_layers_parallel(c, p, layers, done) == decode_layers(c, p, layers, done),
    decreases done,
{
    if done > 0 {
        lemma_parallel_layers_match(c, p, layers, (done - 1) as nat);
        lemma_parallel_layer_matches(
            decode_layers(c, p, layers, (done - 1) as nat),
            p,
            done == layers,
        );
    }
}

/// Decoding in parallel gives the bytes that decoding block after block gives,
/// for every encoding, IV and number of layers.
pub proof fn lemma_parallel_decode_matches(
    piece: Seq<u8>,
    iv: Seq<u8>,
    layers: nat,
    p: nat,
    b: nat,
)
    ensures
        decode_parallel_bytes(piece, iv, layers, p, b) == decode_bytes(piece, iv, layers, p, b),
{
    lemma_parallel_layers_match(parse_blocks(piece, b), p, layers, layers);
}

} // verus!
