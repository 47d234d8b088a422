//! A time-asymmetric permutation for proofs of replication: a CBC chain of
//! modular square roots in a prime field, slow to compute and fast to invert.
//!
//! The engine is [`Sloth`]: it cuts a piece into blocks, masks each block with
//! the block before it and takes it through the square-root permutation of a
//! field whose prime leaves 3 on division by 4. Decoding squares instead, one
//! block after the other or all blocks of a layer at once. [`Spartan`] encodes
//! one genesis piece under many keys and validates the encodings.
//!
//! What the functions compute is stated over natural numbers and sequences of
//! bytes:
//! - `digits` and `bits`: numbers as little-endian digit strings, exclusive or;
//! - `residues` and `fermat`: primes, the Jacobi symbol, Euler's criterion;
//! - `permutation`: the permutation and its inverse, and that they undo each
//!   other on every block but zero;
//! - `chain`: the chain over the blocks of a piece, and that decoding in
//!   parallel is decoding;
//! - `round_trip` and `binding`: that decoding undoes encoding, and what
//!   decoding tells apart;
//! - `prime_search`: the choice of the prime.
//!
//! The arithmetic on large numbers is that of the `rug` crate, behind the
//! contracts of `bignum`; `natural` wraps it in a number type.

pub mod bignum;
pub mod binding;
pub mod bits;
pub mod chain;
pub mod digits;
pub mod fermat;
pub mod natural;
pub mod permutation;
pub mod prime_search;
pub mod residues;
pub mod round_trip;
pub mod sloth;
pub mod spartan;

pub use crate::bignum::IsPrime;
pub use crate::natural::Natural;
pub use crate::prime_search::largest_prime;
pub use crate::sloth::{DataBiggerThanPrime, Sloth};
pub use crate::spartan::{
    Spartan, Spartan1024bit4096, Spartan128bit4096, Spartan2048bit4096, Spartan256bit4096,
    Spartan4096bit4096, Spartan512bit4096, Spartan64bit4096,
};
