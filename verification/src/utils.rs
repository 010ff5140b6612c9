//! Conveniences: trees built straight from strings, a membership test, and
//! the check of a proof that arrives as records.

use crate::digest::digests_view;
use crate::hasher::{Hasher, Sha256Hasher};
use crate::merkle_proof::{fold_root, items_view, MerkleProof, ProofItem};
use crate::record::{proof_item_from_record, record_readable, record_view, records_items};
use crate::model::canonical_leaves;
use crate::shape::padded_width;
use crate::tree::MerkleTree;
use vstd::hash_map::StringHashMap;
use vstd::prelude::*;
use vstd::slice::slice_to_vec;
use vstd::string::StringSliceAdditionalSpecFns;

verus! {

/// The leaf digests of `strings` under `hasher`: of each string, the hash of
/// its UTF-8 bytes.
pub open spec fn string_digests<H: Hasher>(hasher: H, strings: Seq<&str>) -> Seq<Seq<u8>> {
    strings.map_values(|s: &str| hasher.spec_hash_leaf(s.spec_bytes()))
}

/// The UTF-8 bytes of `s`.
pub fn string_to_bytes(s: &str) -> (bytes: Vec<u8>)
    ensures
        bytes@ == s.spec_bytes(),
{
    slice_to_vec(s.as_bytes())
}

/// The tree over the SHA-256 digests of `strings`, of which there is at
/// least one.
pub fn create_tree_from_strings(strings: Vec<&str>) -> (tree: MerkleTree<Sha256Hasher>)
    requires
        strings.len() > 0,
        padded_width(strings.len() as nat) <= usize::MAX,
    ensures
        tree.wf(),
        tree.spec_hasher() == Sha256Hasher,
        tree.spec_leaves() == canonical_leaves(string_digests(tree.spec_hasher(), strings@)),
{
    create_tree_from_strings_with_hasher(strings, Sha256Hasher::new())
}

/// The tree over the digests that `hasher` gives to `strings`, of which
/// there is at least one.
pub fn create_tree_from_strings_with_hasher<H: Hasher>(strings: Vec<&str>, hasher: H) -> (tree:
    MerkleTree<H>)
    requires
        strings.len() > 0,
        padded_width(strings.len() as nat) <= usize::MAX,
    ensures
        tree.wf(),
        tree.spec_hasher() == hasher,
        tree.spec_leaves() == canonical_leaves(string_digests(hasher, strings@)),
{
    let mut leaves: Vec<Vec<u8>> = Vec::new();
    let mut i: usize = 0;
    while i < strings.len()
        invariant
            i <= strings.len(),
            leaves.len() == i,
            forall|k: int|
                0 <= k < i ==> (#[trigger] leaves[k])@ == hasher.spec_hash_leaf(
                    strings[k].spec_bytes(),
                ),
        decreases strings.len() - i,
    {
        let bytes = string_to_bytes(strings[i]);
        leaves.push(hasher.hash_leaf(bytes.as_slice()));
        i = i + 1;
    }
    assert(digests_view(leaves@) =~= string_digests(hasher, strings@));
    MerkleTree::new(leaves, hasher)
}

/// Whether the leaf digest of `element` stands among the leaves of `tree`.
pub fn verify_element_in_tree<H: Hasher>(tree: &MerkleTree<H>, element: &str) -> (present: bool)
    ensures
        present == tree.spec_leaves().contains(
            tree.spec_hasher().spec_hash_leaf(element.spec_bytes()),
        ),
{
    let hasher = tree.get_hasher();
    let bytes = string_to_bytes(element);
    let leaf_value = hasher.hash_leaf(bytes.as_slice());
    proof {
        tree.spec_leaves().index_of_first_ensures(leaf_value@);
    }
    match tree.generate_proof_by_value(leaf_value.as_slice()) {
        Ok(proof) => {
            let root = tree.root();
            proof.verify(root.as_slice())
        },
        Err(_) => false,
    }
}

/// Reads `proof_data` back as the items of a proof for `leaf` and says
/// whether that proof folds to `root` under `hasher`. Every record has to be
/// one that can be read: `proof_item_from_record` tells.
pub fn verify_with_formatted_proof<H: Hasher>(
    root: &[u8],
    leaf: Vec<u8>,
    proof_data: Vec<StringHashMap<String>>,
    hasher: H,
) -> (ok: bool)
    requires
        forall|i: int|
            0 <= i < proof_data.len() ==> record_readable(record_view(#[trigger] proof_data[i])),
    ensures
        ok == (fold_root(hasher, leaf@, records_items(proof_data@)) == root@),
{
    let mut proof_items: Vec<ProofItem> = Vec::new();
    let mut i: usize = 0;
    while i < proof_data.len()
        invariant
            i <= proof_data.len(),
            proof_items.len() == i,
            forall|k: int|
                0 <= k < proof_data.len() ==> record_readable(
                    record_view(#[trigger] proof_data[k]),
                ),
            forall|k: int| 0 <= k < i ==> (#[trigger] proof_items[k])@ == records_items(proof_data@)[k],
        decreases proof_data.len() - i,
    {
        match proof_item_from_record(&proof_data[i]) {
            Some(item) => {
                proof_items.push(item);
            },
            None => {
                assert(false);
            },
        }
        i = i + 1;
    }
    assert(items_view(proof_items@) =~= records_items(proof_data@));
    let proof = MerkleProof::new(leaf, proof_items, hasher);
    proof.verify(root)
}

} // verus!
