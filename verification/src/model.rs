//! The tree as mathematics: what each node holds, what the root is, and which
//! siblings a proof for a leaf lists.

use crate::digest::{digest_order, lemma_digest_order_total, sorted_digests};
use crate::hasher::{hashes_alike, lemma_collision_found, pair_collision, Hasher};
use crate::merkle_proof::fold_root;
use crate::shape::{
    ancestor, lemma_ancestor_in_level, lemma_ancestor_nonnegative, lemma_padded_width_is_least,
    lemma_padding_keeps_height, lemma_tree_height_positive, padded_width, sibling, tree_height,
};
use vstd::prelude::*;
use vstd::seq_lib::{to_multiset_len, to_multiset_update};

verus! {

/// `leaves` followed by copies of its last digest, up to the padded width.
///
/// A padding slot holds a digest that is a leaf already, so nothing in the
/// tree or in a proof tells a copy made for padding from a digest that came
/// in twice.
pub open spec fn padded_leaves(leaves: Seq<Seq<u8>>) -> Seq<Seq<u8>> {
    leaves + Seq::new(
        (padded_width(leaves.len()) - leaves.len()) as nat,
        |i: int| leaves.last(),
    )
}

/// The leaf level of the tree built from `input`: the digests in
/// lexicographic order, then padded.
pub open spec fn canonical_leaves(input: Seq<Seq<u8>>) -> Seq<Seq<u8>> {
    padded_leaves(sorted_digests(input))
}

/// The digest of the node at `pos` on `level`, level 0 being the leaves.
pub open spec fn merkle_node<H: Hasher>(hasher: H, leaves: Seq<Seq<u8>>, level: nat, pos: int) -> Seq<
    u8,
>
    decreases level,
{
    if level == 0 {
        leaves[pos]
    } else {
        hasher.spec_hash_pair(
            merkle_node(hasher, leaves, (level - 1) as nat, 2 * pos),
            merkle_node(hasher, leaves, (level - 1) as nat, 2 * pos + 1),
        )
    }
}

/// The digest of the single node on the top level.
pub open spec fn merkle_root<H: Hasher>(hasher: H, leaves: Seq<Seq<u8>>) -> Seq<u8> {
    merkle_node(hasher, leaves, (tree_height(leaves.len()) - 1) as nat, 0)
}

/// The proof item for `level`: the sibling of the ancestor of the leaf at
/// `index` on that level, and whether that sibling stands to the left.
pub open spec fn proof_step<H: Hasher>(hasher: H, leaves: Seq<Seq<u8>>, index: int, level: nat) -> (
    Seq<u8>,
    bool,
) {
    let pos = ancestor(index, level);
    (merkle_node(hasher, leaves, level, sibling(pos)), pos % 2 == 1)
}

/// The proof items for the leaf at `index` over the lowest `levels` levels.
pub open spec fn proof_path<H: Hasher>(hasher: H, leaves: Seq<Seq<u8>>, index: int, levels: nat) -> Seq<
    (Seq<u8>, bool),
> {
    Seq::new(levels, |level: int| proof_step(hasher, leaves, index, level as nat))
}

/// Folding the proof items of the lowest `levels` levels into the leaf at
/// `index` gives the digest of that leaf's ancestor `levels` levels up.
pub proof fn lemma_fold_reaches_ancestor<H: Hasher>(
    hasher: H,
    leaves: Seq<Seq<u8>>,
    index: int,
    levels: nat,
)
    requires
        0 <= index,
    ensures
        fold_root(hasher, leaves[index], proof_path(hasher, leaves, index, levels)) == merkle_node(
            hasher,
            leaves,
            levels,
            ancestor(index, levels),
        ),
        0 <= ancestor(index, levels),
    decreases levels,
{
    if levels > 0 {
        let below = (levels - 1) as nat;
        lemma_fold_reaches_ancestor(hasher, leaves, index, below);
        let path = proof_path(hasher, leaves, index, levels);
        assert(path.drop_last() =~= proof_path(hasher, leaves, index, below));
        assert(path.last() == proof_step(hasher, leaves, index, below));
        let pos = ancestor(index, below);
        assert(ancestor(index, levels) == pos / 2);
        if pos % 2 == 1 {
            assert(2 * (pos / 2) == pos - 1);
        } else {
            assert(2 * (pos / 2) == pos);
        }
    }
}

/// The proof for any leaf of a padded leaf level folds to the root.
pub proof fn lemma_path_folds_to_root<H: Hasher>(hasher: H, leaves: Seq<Seq<u8>>, index: int)
    requires
        leaves.len() == padded_width(leaves.len()),
        0 <= index < leaves.len(),
    ensures
        fold_root(
            hasher,
            leaves[index],
            proof_path(hasher, leaves, index, (tree_height(leaves.len()) - 1) as nat),
        ) == merkle_root(hasher, leaves),
{
    let top = (tree_height(leaves.len()) - 1) as nat;
    lemma_tree_height_positive(leaves.len());
    lemma_fold_reaches_ancestor(hasher, leaves, index, top);
    lemma_ancestor_in_level(index, top, 0);
}

/// Strategies that hash alike give every node the same digest.
pub proof fn lemma_merkle_node_alike<H: Hasher>(a: H, b: H, leaves: Seq<Seq<u8>>, level: nat, pos: int)
    requires
        hashes_alike(a, b),
    ensures
        merkle_node(a, leaves, level, pos) == merkle_node(b, leaves, level, pos),
    decreases level,
{
    if level > 0 {
        lemma_merkle_node_alike(a, b, leaves, (level - 1) as nat, 2 * pos);
        lemma_merkle_node_alike(a, b, leaves, (level - 1) as nat, 2 * pos + 1);
    }
}

/// The padded leaf level is the leaves as they stand, followed by copies of
/// the last one, and its width is the padded width of their number, which
/// padding again would not change.
pub proof fn lemma_padding_repeats_last(leaves: Seq<Seq<u8>>)
    requires
        leaves.len() > 0,
    ensures
        padded_leaves(leaves).len() == padded_width(leaves.len()),
        padded_width(padded_leaves(leaves).len()) == padded_leaves(leaves).len(),
        padded_leaves(leaves).take(leaves.len() as int) == leaves,
        forall|i: int|
            leaves.len() <= i < padded_leaves(leaves).len() ==> #[trigger] padded_leaves(leaves)[i]
                == leaves.last(),
{
    lemma_padded_width_is_least(leaves.len());
    lemma_padding_keeps_height(leaves.len());
    assert(padded_leaves(leaves).take(leaves.len() as int) =~= leaves);
}

/// Two leaf levels whose nodes at one place have one digest agree on every
/// leaf below that place, unless the strategy has a collision.
pub proof fn lemma_node_binds_leaves<H: Hasher>(
    hasher: H,
    a: Seq<Seq<u8>>,
    b: Seq<Seq<u8>>,
    level: nat,
    pos: int,
)
    requires
        merkle_node(hasher, a, level, pos) == merkle_node(hasher, b, level, pos),
    ensures
        pair_collision(hasher) || forall|i: int|
            0 <= i && #[trigger] ancestor(i, level) == pos ==> a[i] == b[i],
    decreases level,
{
    if level > 0 {
        let below = (level - 1) as nat;
        let a_left = merkle_node(hasher, a, below, 2 * pos);
        let a_right = merkle_node(hasher, a, below, 2 * pos + 1);
        let b_left = merkle_node(hasher, b, below, 2 * pos);
        let b_right = merkle_node(hasher, b, below, 2 * pos + 1);
        if a_left != b_left || a_right != b_right {
            lemma_collision_found(hasher, a_left, a_right, b_left, b_right);
        } else {
            lemma_node_binds_leaves(hasher, a, b, below, 2 * pos);
            lemma_node_binds_leaves(hasher, a, b, below, 2 * pos + 1);
            if !pair_collision(hasher) {
                assert forall|i: int| 0 <= i && #[trigger] ancestor(i, level) == pos implies a[i]
                    == b[i] by {
                    lemma_ancestor_nonnegative(i, below);
                    let child = ancestor(i, below);
                    assert(child == 2 * pos || child == 2 * pos + 1);
                }
            }
        }
    }
}

/// Two padded leaf levels of one width with one root are the same leaves,
/// unless the strategy has a collision.
pub proof fn lemma_root_binds_leaves<H: Hasher>(hasher: H, a: Seq<Seq<u8>>, b: Seq<Seq<u8>>)
    requires
        a.len() == b.len(),
        a.len() == padded_width(a.len()),
        merkle_root(hasher, a) == merkle_root(hasher, b),
    ensures
        a == b || pair_collision(hasher),
{
    let top = (tree_height(a.len()) - 1) as nat;
    lemma_tree_height_positive(a.len());
    lemma_node_binds_leaves(hasher, a, b, top, 0);
    if !pair_collision(hasher) {
        assert forall|i: int| 0 <= i < a.len() implies a[i] == b[i] by {
            lemma_ancestor_in_level(i, top, 0);
        }
        assert(a =~= b);
    }
}

/// The root is a function of the digests that came in and of how the
/// strategy hashes: strategies that hash alike give one root to one input.
pub proof fn lemma_same_input_same_root<H: Hasher>(a: H, b: H, input: Seq<Seq<u8>>)
    requires
        hashes_alike(a, b),
    ensures
        merkle_root(a, canonical_leaves(input)) == merkle_root(b, canonical_leaves(input)),
{
    let leaves = canonical_leaves(input);
    lemma_merkle_node_alike(a, b, leaves, (tree_height(leaves.len()) - 1) as nat, 0);
}

/// Replacing one of the digests that came in by another changes the root,
/// unless the strategy has a collision.
pub proof fn lemma_changed_leaf_changes_root<H: Hasher>(
    hasher: H,
    input: Seq<Seq<u8>>,
    at: int,
    digest: Seq<u8>,
)
    requires
        0 <= at < input.len(),
        digest != input[at],
    ensures
        merkle_root(hasher, canonical_leaves(input.update(at, digest))) != merkle_root(
            hasher,
            canonical_leaves(input),
        ) || pair_collision(hasher),
{
    let changed = input.update(at, digest);
    let sorted = sorted_digests(input);
    let sorted_changed = sorted_digests(changed);
    lemma_digest_order_total();
    input.lemma_sort_by_ensures(digest_order());
    changed.lemma_sort_by_ensures(digest_order());
    to_multiset_len(input);
    to_multiset_len(changed);
    to_multiset_len(sorted);
    to_multiset_len(sorted_changed);
    lemma_padding_repeats_last(sorted);
    lemma_padding_repeats_last(sorted_changed);
    if canonical_leaves(input) == canonical_leaves(changed) {
        assert(sorted == sorted_changed);
        to_multiset_update(input, at, digest);
        assert(changed.to_multiset().count(digest) == input.to_multiset().count(digest) + 1);
        assert(false);
    }
    if merkle_root(hasher, canonical_leaves(changed)) == merkle_root(
        hasher,
        canonical_leaves(input),
    ) {
        lemma_root_binds_leaves(hasher, canonical_leaves(changed), canonical_leaves(input));
    }
}

} // verus!
