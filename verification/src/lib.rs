//! A small state-folding digest.
//!
//! A digest is kept in a buffer of fixed length, the sbox. Inputs are folded
//! into it one at a time with a combining operation that the caller supplies:
//! the input at position `k` replaces the value `v` of slot `k % n` by
//! `op(&v, input)`, where `n` is the length of the buffer. The write position
//! thus goes round the slots, starting at slot 0.
//!
//! - [`hasher_single`] folds a whole run of inputs in one pass.
//! - [`Hasher`] keeps a write position and a buffer together across calls.
//! - [`model`] says what a fold is, in terms of sequences.
//! - [`lanes`] and [`laws`] hold what is proved of it.
//!
//! Nothing here promises resistance to preimages or collisions; how good the
//! digest is depends on the operation.

pub mod fold;
pub mod hasher;
pub mod lanes;
pub mod laws;
pub mod model;

pub use fold::hasher_single;
pub use hasher::Hasher;
