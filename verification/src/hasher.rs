//! Hash strategies: how a leaf and how a pair of child digests is hashed.
//!
//! The tree and its proofs are written against the [`Hasher`] trait. The two
//! strategies here hash a pair as the concatenation of its children, left
//! child first, with the same function that hashes a leaf. Nothing in the
//! bytes tells a leaf from an inner node: a strategy that needs the two kept
//! apart has to put a prefix of its own in front of each.

use crate::digest::concat_bytes;
use blake2::Blake2b512;
use sha2::{Digest, Sha256};
use vstd::prelude::*;

verus! {

/// The SHA-256 digest of a byte string.
pub uninterp spec fn sha256(data: Seq<u8>) -> Seq<u8>;

/// The BLAKE2b digest of a byte string at its full output size of 64 bytes.
pub uninterp spec fn blake2b512(data: Seq<u8>) -> Seq<u8>;

/// `sha2::Sha256::digest`: the SHA-256 digest of `data`, which has 32 bytes.
#[verifier::external_body]
fn sha256_digest(data: &[u8]) -> (digest: Vec<u8>)
    ensures
        digest@ == sha256(data@),
        digest@.len() == 32,
{
    Sha256::digest(data).to_vec()
}

/// `blake2::Blake2b512::digest`: the BLAKE2b digest of `data` at the full
/// output size, which has 64 bytes.
#[verifier::external_body]
fn blake2b512_digest(data: &[u8]) -> (digest: Vec<u8>)
    ensures
        digest@ == blake2b512(data@),
        digest@.len() == 64,
{
    Blake2b512::digest(data).to_vec()
}

/// A hash strategy: one way to hash a leaf and one way to hash two child
/// digests into their parent. Both are functions of their arguments and of
/// the strategy's configuration alone, and the order of the children counts.
///
/// Each proof carries a clone of its tree's strategy, so an implementation
/// shows that a clone hashes as the strategy it was cloned from.
pub trait Hasher: Clone {
    /// The digest of a leaf's raw bytes.
    spec fn spec_hash_leaf(&self, data: Seq<u8>) -> Seq<u8>;

    /// The digest of a parent whose children are `left` and `right`, in that order.
    spec fn spec_hash_pair(&self, left: Seq<u8>, right: Seq<u8>) -> Seq<u8>;

    /// Hashes the raw bytes of a leaf.
    fn hash_leaf(&self, data: &[u8]) -> (digest: Vec<u8>)
        ensures
            digest@ == self.spec_hash_leaf(data@),
    ;

    /// Hashes two child digests into the digest of their parent.
    fn hash_pair(&self, left: &[u8], right: &[u8]) -> (digest: Vec<u8>)
        ensures
            digest@ == self.spec_hash_pair(left@, right@),
    ;

    /// A clone hashes exactly as the strategy it was cloned from.
    proof fn clone_hashes_alike(&self, copy: &Self)
        requires
            cloned(*self, *copy),
        ensures
            forall|data: Seq<u8>| #[trigger] copy.spec_hash_leaf(data) == self.spec_hash_leaf(data),
            forall|left: Seq<u8>, right: Seq<u8>| #[trigger]
                copy.spec_hash_pair(left, right) == self.spec_hash_pair(left, right),
    ;
}

/// Two strategies that give the same digest on every input.
pub open spec fn hashes_alike<H: Hasher>(a: H, b: H) -> bool {
    &&& forall|data: Seq<u8>| #[trigger] a.spec_hash_leaf(data) == b.spec_hash_leaf(data)
    &&& forall|left: Seq<u8>, right: Seq<u8>| #[trigger]
        a.spec_hash_pair(left, right) == b.spec_hash_pair(left, right)
}

/// Whether the strategy hashes two different pairs to one digest.
pub open spec fn pair_collision<H: Hasher>(hasher: H) -> bool {
    exists|a: Seq<u8>, b: Seq<u8>, c: Seq<u8>, d: Seq<u8>|
        (a, b) != (c, d) && #[trigger] hasher.spec_hash_pair(a, b) == #[trigger] hasher.spec_hash_pair(
            c,
            d,
        )
}

/// Two different pairs with one digest are a collision.
pub proof fn lemma_collision_found<H: Hasher>(
    hasher: H,
    a: Seq<u8>,
    b: Seq<u8>,
    c: Seq<u8>,
    d: Seq<u8>,
)
    requires
        a != c || b != d,
        hasher.spec_hash_pair(a, b) == hasher.spec_hash_pair(c, d),
    ensures
        pair_collision(hasher),
{
    assert((a, b) != (c, d));
}

/// The fixed-size strategy: SHA-256 for leaves and for pairs.
pub struct Sha256Hasher;

impl Clone for Sha256Hasher {
    fn clone(&self) -> (copy: Self)
        ensures
            copy == *self,
    {
        Sha256Hasher
    }
}

impl Sha256Hasher {
    /// The strategy; it has nothing to configure.
    pub fn new() -> (hasher: Self)
        ensures
            hasher == Sha256Hasher,
    {
        Sha256Hasher
    }
}

impl Hasher for Sha256Hasher {
    open spec fn spec_hash_leaf(&self, data: Seq<u8>) -> Seq<u8> {
        sha256(data)
    }

    open spec fn spec_hash_pair(&self, left: Seq<u8>, right: Seq<u8>) -> Seq<u8> {
        sha256(left + right)
    }

    fn hash_leaf(&self, data: &[u8]) -> (digest: Vec<u8>)
        ensures
            digest@.len() == 32,
    {
        sha256_digest(data)
    }

    fn hash_pair(&self, left: &[u8], right: &[u8]) -> (digest: Vec<u8>)
        ensures
            digest@.len() == 32,
    {
        let joined = concat_bytes(left, right);
        sha256_digest(joined.as_slice())
    }

    proof fn clone_hashes_alike(&self, copy: &Self) {
    }
}

/// The variable-size strategy: BLAKE2b at 64 bytes, cut down to the first
/// `output_size` bytes, for leaves and for pairs.
pub struct Blake2bHasher {
    output_size: usize,
}

impl Clone for Blake2bHasher {
    fn clone(&self) -> (copy: Self)
        ensures
            copy == *self,
    {
        proof {
            use_type_invariant(self);
        }
        Blake2bHasher { output_size: self.output_size }
    }
}

impl Blake2bHasher {
    #[verifier::type_invariant]
    spec fn fits_digest(self) -> bool {
        self.output_size <= 64
    }

    /// The number of bytes that every digest of this strategy has.
    pub closed spec fn spec_output_size(&self) -> nat {
        self.output_size as nat
    }

    /// A strategy whose digests are the first `output_size` bytes of
    /// BLAKE2b's 64, which is as many as there are to take.
    pub fn new(output_size: usize) -> (hasher: Self)
        requires
            output_size <= 64,
        ensures
            hasher.spec_output_size() == output_size,
    {
        Blake2bHasher { output_size }
    }

    /// The first `output_size` bytes of a full digest.
    fn truncated(&self, mut digest: Vec<u8>) -> (cut: Vec<u8>)
        requires
            digest@.len() == 64,
        ensures
            cut@ == digest@.take(self.spec_output_size() as int),
            cut@.len() == self.spec_output_size(),
    {
        proof {
            use_type_invariant(self);
        }
        digest.truncate(self.output_size);
        digest
    }
}

impl Hasher for Blake2bHasher {
    open spec fn spec_hash_leaf(&self, data: Seq<u8>) -> Seq<u8> {
        blake2b512(data).take(self.spec_output_size() as int)
    }

    open spec fn spec_hash_pair(&self, left: Seq<u8>, right: Seq<u8>) -> Seq<u8> {
        blake2b512(left + right).take(self.spec_output_size() as int)
    }

    fn hash_leaf(&self, data: &[u8]) -> (digest: Vec<u8>)
        ensures
            digest@.len() == self.spec_output_size(),
    {
        self.truncated(blake2b512_digest(data))
    }

    fn hash_pair(&self, left: &[u8], right: &[u8]) -> (digest: Vec<u8>)
        ensures
            digest@.len() == self.spec_output_size(),
    {
        let joined = concat_bytes(left, right);
        self.truncated(blake2b512_digest(joined.as_slice()))
    }

    proof fn clone_hashes_alike(&self, copy: &Self) {
    }
}

} // verus!
