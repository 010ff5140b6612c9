//! Merkle trees over byte strings, with inclusion proofs that a holder of the
//! root digest alone can check.
//!
//! A tree is built once from leaf digests and a hash strategy, and is read
//! only afterwards. It sorts the digests first, so a leaf is addressed by its
//! place in the sorted and padded leaf level, or by its value.
//!
//! - [`hasher`]: the hash strategies, SHA-256 and truncated BLAKE2b.
//! - [`digest`]: digests as byte strings, and the order of the leaves.
//! - [`shape`]: height and width of a tree over a number of leaves.
//! - [`model`]: what every node of a tree holds, stated as mathematics.
//! - [`tree`]: the tree, its root and its proofs.
//! - [`merkle_proof`]: proofs, folded and verified against a root.
//! - [`record`] and [`hex_text`]: proofs as records of text, and back.
//! - [`utils`]: trees from strings and other conveniences.

pub mod digest;
pub mod hasher;
pub mod hex_text;
pub mod merkle_proof;
pub mod model;
pub mod record;
pub mod shape;
pub mod tree;
pub mod utils;
