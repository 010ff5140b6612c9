//! The tree itself: built once from leaf digests, then read for its root and
//! for inclusion proofs.
//!
//! The leaves are sorted before the tree is built, so an index addresses the
//! sorted and padded leaf level, not the order in which the digests came.

use crate::digest::{digest_eq, digests_view, lemma_sorted_digests_unique, sort_digests};
use crate::hasher::{hashes_alike, Hasher};
use crate::merkle_proof::{items_view, lemma_fold_root_alike, MerkleProof, ProofItem};
use crate::model::{
    canonical_leaves, lemma_path_folds_to_root, lemma_same_input_same_root, merkle_node,
    merkle_root, padded_leaves, proof_path, proof_step,
};
use crate::shape::{
    ancestor, exp2, lemma_exp2_positive, lemma_height_of_exp2,
    lemma_padded_width_is_least, lemma_padding_keeps_height, lemma_tree_height_positive, measure,
    padded_width, sibling, tree_height,
};
use vstd::prelude::*;

verus! {

/// The digests of every level of a node table, level 0 first.
pub open spec fn table_view(nodes: Seq<Vec<Vec<u8>>>) -> Seq<Seq<Seq<u8>>> {
    nodes.map_values(|level: Vec<Vec<u8>>| digests_view(level@))
}

/// Whether `nodes` holds, for its lowest `levels` levels, the nodes of the
/// tree of height `height` over `leaves`: level 0 is the leaves, each level
/// is half as wide as the one below, and each node is the hash of its two
/// children.
pub open spec fn table_built<H: Hasher>(
    hasher: H,
    leaves: Seq<Seq<u8>>,
    height: nat,
    nodes: Seq<Seq<Seq<u8>>>,
    levels: nat,
) -> bool {
    &&& 1 <= levels <= height
    &&& nodes.len() == levels
    &&& nodes[0] == leaves
    &&& forall|level: int|
        0 <= level < levels ==> (#[trigger] nodes[level]).len() == exp2((height - 1 - level) as nat)
    &&& forall|level: int, pos: int|
        #![trigger nodes[level + 1][pos]]
        0 <= level < levels - 1 && 0 <= pos < exp2((height - 2 - level) as nat) ==> nodes[level
            + 1][pos] == hasher.spec_hash_pair(nodes[level][2 * pos], nodes[level][2 * pos + 1])
}

/// In a built table every node holds what the model says it holds.
pub proof fn lemma_table_matches_model<H: Hasher>(
    hasher: H,
    leaves: Seq<Seq<u8>>,
    height: nat,
    nodes: Seq<Seq<Seq<u8>>>,
    levels: nat,
    level: nat,
    pos: int,
)
    requires
        table_built(hasher, leaves, height, nodes, levels),
        level < levels,
        0 <= pos < exp2((height - 1 - level) as nat),
    ensures
        nodes[level as int][pos] == merkle_node(hasher, leaves, level, pos),
    decreases level,
{
    if level > 0 {
        let below = (level - 1) as nat;
        let b = below as int;
        assert(exp2((height - 1 - below) as nat) == 2 * exp2((height - 1 - level) as nat));
        lemma_table_matches_model(hasher, leaves, height, nodes, levels, below, 2 * pos);
        lemma_table_matches_model(hasher, leaves, height, nodes, levels, below, 2 * pos + 1);
        assert(nodes[b + 1][pos] == hasher.spec_hash_pair(nodes[b][2 * pos], nodes[b][2 * pos + 1]));
    }
}

/// Extends `leaves` to `width` digests with copies of its last one.
fn pad_leaves(leaves: &mut Vec<Vec<u8>>, width: usize)
    requires
        0 < old(leaves).len() <= width,
    ensures
        final(leaves).len() == width,
        digests_view(final(leaves)@) == digests_view(old(leaves)@) + Seq::new(
            (width - old(leaves).len()) as nat,
            |i: int| digests_view(old(leaves)@).last(),
        ),
{
    let given = leaves.len();
    let last_leaf = leaves[given - 1].clone();
    let ghost start = digests_view(leaves@);
    assert(digests_view(leaves@) =~= start + Seq::new(0, |i: int| start.last()));
    while leaves.len() < width
        invariant
            given == start.len(),
            given <= leaves.len() <= width,
            last_leaf@ == start.last(),
            digests_view(leaves@) == start + Seq::new(
                (leaves.len() - given) as nat,
                |i: int| start.last(),
            ),
        decreases width - leaves.len(),
    {
        let ghost before = digests_view(leaves@);
        leaves.push(last_leaf.clone());
        assert(digests_view(leaves@) =~= before.push(last_leaf@));
        assert(before.push(last_leaf@) =~= start + Seq::new(
            (leaves.len() - given) as nat,
            |i: int| start.last(),
        ));
    }
}

/// The level above `level`: the hash of each pair of neighbours.
fn next_level<H: Hasher>(hasher: &H, level: &Vec<Vec<u8>>) -> (parents: Vec<Vec<u8>>)
    requires
        level.len() % 2 == 0,
    ensures
        parents.len() * 2 == level.len(),
        forall|i: int|
            0 <= i < parents.len() ==> (#[trigger] parents[i])@ == hasher.spec_hash_pair(
                level[2 * i]@,
                level[2 * i + 1]@,
            ),
{
    let width = level.len() / 2;
    let mut parents: Vec<Vec<u8>> = Vec::new();
    let mut i: usize = 0;
    while i < width
        invariant
            i <= width,
            width * 2 == level.len(),
            parents.len() == i,
            forall|k: int|
                0 <= k < i ==> (#[trigger] parents[k])@ == hasher.spec_hash_pair(
                    level[2 * k]@,
                    level[2 * k + 1]@,
                ),
        decreases width - i,
    {
        let parent = hasher.hash_pair(level[2 * i].as_slice(), level[2 * i + 1].as_slice());
        parents.push(parent);
        i = i + 1;
    }
    parents
}

/// A copy of the leaf level, to stand as level 0 of the node table.
fn copy_level(leaves: &Vec<Vec<u8>>) -> (level: Vec<Vec<u8>>)
    ensures
        digests_view(level@) == digests_view(leaves@),
{
    let mut level: Vec<Vec<u8>> = Vec::new();
    let mut i: usize = 0;
    while i < leaves.len()
        invariant
            i <= leaves.len(),
            level.len() == i,
            forall|k: int| 0 <= k < i ==> (#[trigger] level[k])@ == leaves[k]@,
        decreases leaves.len() - i,
    {
        level.push(leaves[i].clone());
        i = i + 1;
    }
    assert(digests_view(level@) =~= digests_view(leaves@));
    level
}

/// A Merkle tree over leaf digests, with every node of every level kept.
pub struct MerkleTree<H: Hasher> {
    /// The leaf digests, sorted and padded.
    leaves: Vec<Vec<u8>>,
    /// The nodes of each level, level 0 being the leaves.
    nodes: Vec<Vec<Vec<u8>>>,
    /// The number of levels, the leaf level included.
    height: usize,
    /// The strategy that hashed the pairs, and that the proofs carry.
    hasher: H,
}

impl<H: Hasher> MerkleTree<H> {
    /// The leaf level: the digests in sorted order, then the padding.
    pub closed spec fn spec_leaves(&self) -> Seq<Seq<u8>> {
        digests_view(self.leaves@)
    }

    /// The node table, level by level.
    pub closed spec fn spec_nodes(&self) -> Seq<Seq<Seq<u8>>> {
        table_view(self.nodes@)
    }

    /// The number of levels.
    pub closed spec fn spec_height(&self) -> nat {
        self.height as nat
    }

    /// The tree's hash strategy.
    pub closed spec fn spec_hasher(&self) -> H {
        self.hasher
    }

    /// The root digest.
    pub open spec fn spec_root(&self) -> Seq<u8> {
        merkle_root(self.spec_hasher(), self.spec_leaves())
    }

    /// What holds of every tree: the leaf level is a power of two wide, the
    /// height is the one that belongs to that width, and the table holds
    /// every level, each node the hash of its two children.
    #[verifier::type_invariant]
    pub open spec fn wf(&self) -> bool {
        &&& self.spec_leaves().len() == exp2((self.spec_height() - 1) as nat)
        &&& self.spec_height() == tree_height(self.spec_leaves().len())
        &&& table_built(
            self.spec_hasher(),
            self.spec_leaves(),
            self.spec_height(),
            self.spec_nodes(),
            self.spec_height(),
        )
    }

    /// Pads the sorted leaves to `width`, hashes every level up to the root,
    /// and puts the tree together.
    fn build(mut leaves: Vec<Vec<u8>>, height: usize, width: usize, hasher: H) -> (tree: Self)
        requires
            0 < leaves.len(),
            height == tree_height(leaves.len() as nat),
            width == padded_width(leaves.len() as nat),
        ensures
            tree.wf(),
            tree.spec_hasher() == hasher,
            tree.spec_leaves() == padded_leaves(digests_view(leaves@)),
            tree.spec_height() == height,
    {
        let ghost given = digests_view(leaves@);
        proof {
            lemma_padded_width_is_least(given.len());
            lemma_padding_keeps_height(given.len());
            lemma_tree_height_positive(given.len());
        }
        pad_leaves(&mut leaves, width);
        let ghost padded = digests_view(leaves@);
        assert(padded == padded_leaves(given));

        let mut nodes: Vec<Vec<Vec<u8>>> = Vec::new();
        let bottom = copy_level(&leaves);
        nodes.push(bottom);
        assert(table_view(nodes@)[0] == padded);
        let mut level: usize = 0;
        while level < height - 1
            invariant
                1 <= height,
                level < height,
                nodes.len() == level + 1,
                padded == digests_view(leaves@),
                table_built(hasher, padded, height as nat, table_view(nodes@), (level + 1) as nat),
            decreases height - level,
        {
            let ghost before = table_view(nodes@);
            assert(before[level as int].len() == exp2((height - 1 - level) as nat));
            assert(nodes[level as int].len() == before[level as int].len());
            let parents = next_level(&hasher, &nodes[level]);
            let ghost above = digests_view(parents@);
            nodes.push(parents);
            proof {
                let after = table_view(nodes@);
                assert(after =~= before.push(above));
                assert forall|l: int| 0 <= l < level + 2 implies (#[trigger] after[l]).len() == exp2(
                    (height - 1 - l) as nat,
                ) by {
                    if l <= level {
                        assert(after[l] == before[l]);
                    }
                }
                assert forall|l: int, pos: int|
                    #![trigger after[l + 1][pos]]
                    0 <= l < level + 1 && 0 <= pos < exp2((height - 2 - l) as nat) implies after[l
                        + 1][pos] == hasher.spec_hash_pair(
                    after[l][2 * pos],
                    after[l][2 * pos + 1],
                ) by {
                    if l < level {
                        assert(after[l + 1] == before[l + 1]);
                        assert(after[l] == before[l]);
                    } else {
                        assert(after[l] == before[l]);
                        assert(above[pos] == parents[pos]@);
                    }
                }
            }
            level = level + 1;
        }
        MerkleTree { leaves, nodes, height, hasher }
    }

    /// Builds the tree over `leaves`, of which there is at least one: sorts
    /// them, pads them to the next power of two with copies of the last one,
    /// and hashes every level. The padded leaf level has to fit a `usize`.
    pub fn new(mut leaves: Vec<Vec<u8>>, hasher: H) -> (tree: Self)
        requires
            leaves.len() > 0,
            padded_width(leaves.len() as nat) <= usize::MAX,
        ensures
            tree.wf(),
            tree.spec_hasher() == hasher,
            tree.spec_leaves() == canonical_leaves(digests_view(leaves@)),
            tree.spec_height() == tree_height(leaves.len() as nat),
    {
        let ghost input = digests_view(leaves@);
        sort_digests(&mut leaves);
        proof {
            lemma_sorted_digests_unique(input, digests_view(leaves@));
        }
        let (height, width) = measure(leaves.len());
        Self::build(leaves, height, width, hasher)
    }

    /// The root digest.
    pub fn root(&self) -> (root: Vec<u8>)
        ensures
            root@ == self.spec_root(),
    {
        proof {
            use_type_invariant(self);
            lemma_table_matches_model(
                self.spec_hasher(),
                self.spec_leaves(),
                self.spec_height(),
                self.spec_nodes(),
                self.spec_height(),
                (self.height - 1) as nat,
                0,
            );
            lemma_exp2_positive(0);
        }
        self.nodes[self.height - 1][0].clone()
    }

    /// The leaf digest at `index` of the sorted and padded leaf level.
    pub fn get_leaf(&self, index: usize) -> (leaf: Option<&Vec<u8>>)
        ensures
            index < self.spec_leaves().len() ==> leaf is Some && leaf.unwrap()@
                == self.spec_leaves()[index as int],
            index >= self.spec_leaves().len() ==> leaf is None,
    {
        if index < self.leaves.len() {
            Some(&self.leaves[index])
        } else {
            None
        }
    }

    /// A copy of the tree's hash strategy.
    pub fn get_hasher(&self) -> (hasher: H)
        ensures
            hashes_alike(hasher, self.spec_hasher()),
    {
        let hasher = self.hasher.clone();
        proof {
            self.hasher.clone_hashes_alike(&hasher);
        }
        hasher
    }

    /// The number of leaves, padding included.
    pub fn leaf_count(&self) -> (count: usize)
        ensures
            count == self.spec_leaves().len(),
    {
        self.leaves.len()
    }

    /// The lowest index at which `leaf_value` stands among the leaves.
    pub fn find_leaf_index(&self, leaf_value: &[u8]) -> (found: Option<usize>)
        ensures
            match found {
                Some(index) => {
                    &&& index < self.spec_leaves().len()
                    &&& self.spec_leaves()[index as int] == leaf_value@
                    &&& forall|k: int| 0 <= k < index ==> self.spec_leaves()[k] != leaf_value@
                },
                None => !self.spec_leaves().contains(leaf_value@),
            },
    {
        let mut i: usize = 0;
        while i < self.leaves.len()
            invariant
                i <= self.leaves.len(),
                forall|k: int| 0 <= k < i ==> self.spec_leaves()[k] != leaf_value@,
            decreases self.leaves.len() - i,
        {
            if digest_eq(self.leaves[i].as_slice(), leaf_value) {
                return Some(i);
            }
            i = i + 1;
        }
        None
    }

    /// What a proof for the leaf at `index` of this tree holds.
    pub open spec fn proves_leaf(&self, proof: MerkleProof<H>, index: int) -> bool {
        &&& proof.leaf@ == self.spec_leaves()[index]
        &&& proof.spec_items() == proof_path(
            self.spec_hasher(),
            self.spec_leaves(),
            index,
            (self.spec_height() - 1) as nat,
        )
        &&& hashes_alike(proof.hasher, self.spec_hasher())
    }

    /// The inclusion proof for the leaf at `leaf_index` of the sorted and
    /// padded leaf level: one sibling per level below the root, the lowest
    /// first. The proof folds to the root of this tree.
    pub fn generate_proof(&self, leaf_index: usize) -> (result: Result<MerkleProof<H>, &'static str>)
        ensures
            match result {
                Ok(proof) => {
                    &&& leaf_index < self.spec_leaves().len()
                    &&& self.proves_leaf(proof, leaf_index as int)
                    &&& proof.spec_root() == self.spec_root()
                },
                Err(message) => {
                    &&& leaf_index >= self.spec_leaves().len()
                    &&& message@ == "Leaf index out of bounds"@
                },
            },
    {
        proof {
            use_type_invariant(self);
        }
        if leaf_index >= self.leaves.len() {
            return Err("Leaf index out of bounds");
        }
        let ghost hasher = self.spec_hasher();
        let ghost leaves = self.spec_leaves();
        let mut proof_items: Vec<ProofItem> = Vec::new();
        let mut current_index = leaf_index;
        let mut level: usize = 0;
        assert(items_view(proof_items@) =~= proof_path(hasher, leaves, leaf_index as int, 0));
        while level < self.height - 1
            invariant
                self.wf(),
                hasher == self.spec_hasher(),
                leaves == self.spec_leaves(),
                level <= self.height - 1,
                current_index == ancestor(leaf_index as int, level as nat),
                current_index < exp2((self.height - 1 - level) as nat),
                items_view(proof_items@) == proof_path(
                    hasher,
                    leaves,
                    leaf_index as int,
                    level as nat,
                ),
            decreases self.height - level,
        {
            let is_right_child = current_index % 2 == 1;
            let sibling_index = if is_right_child {
                current_index - 1
            } else {
                current_index + 1
            };
            proof {
                assert(exp2((self.height - 1 - level) as nat) == 2 * exp2(
                    (self.height - 2 - level) as nat,
                ));
                lemma_table_matches_model(
                    hasher,
                    leaves,
                    self.spec_height(),
                    self.spec_nodes(),
                    self.spec_height(),
                    level as nat,
                    sibling_index as int,
                );
                assert(self.spec_nodes()[level as int].len() == exp2(
                    (self.height - 1 - level) as nat,
                ));
            }
            let ghost before = items_view(proof_items@);
            let item = ProofItem {
                hash: self.nodes[level][sibling_index].clone(),
                is_left: is_right_child,
            };
            proof_items.push(item);
            proof {
                assert(item@ == proof_step(hasher, leaves, leaf_index as int, level as nat));
                assert(items_view(proof_items@) =~= before.push(item@));
                assert(before.push(item@) =~= proof_path(
                    hasher,
                    leaves,
                    leaf_index as int,
                    (level + 1) as nat,
                ));
            }
            current_index = current_index / 2;
            level = level + 1;
        }
        let copy = self.hasher.clone();
        let proof = MerkleProof::new(self.leaves[leaf_index].clone(), proof_items, copy);
        proof {
            self.hasher.clone_hashes_alike(&copy);
            self.lemma_proof_verifies(proof, leaf_index as int);
        }
        Ok(proof)
    }

    /// The inclusion proof for the first leaf that equals `leaf_value`.
    pub fn generate_proof_by_value(&self, leaf_value: &[u8]) -> (result: Result<
        MerkleProof<H>,
        &'static str,
    >)
        ensures
            match result {
                Ok(proof) => {
                    &&& self.spec_leaves().index_of_first(leaf_value@) matches Some(index)
                    &&& self.proves_leaf(proof, index)
                    &&& proof.leaf@ == leaf_value@
                    &&& proof.spec_root() == self.spec_root()
                },
                Err(message) => {
                    &&& self.spec_leaves().index_of_first(leaf_value@) is None
                    &&& message@ == "Leaf value not found in the tree"@
                },
            },
    {
        proof {
            self.spec_leaves().index_of_first_ensures(leaf_value@);
        }
        match self.find_leaf_index(leaf_value) {
            Some(index) => {
                assert(self.spec_leaves().contains(leaf_value@));
                self.generate_proof(index)
            },
            None => Err("Leaf value not found in the tree"),
        }
    }

    /// Whether `proof` folds to the root of this tree.
    pub fn verify_proof(&self, proof: &MerkleProof<H>) -> (ok: bool)
        ensures
            ok == (proof.spec_root() == self.spec_root()),
    {
        let calculated_root = proof.calculate_root();
        let root = self.root();
        digest_eq(root.as_slice(), calculated_root.as_slice())
    }

    /// The root is the single node of the top level of the table.
    pub proof fn lemma_root_is_top_node(&self)
        requires
            self.wf(),
        ensures
            self.spec_nodes()[self.spec_height() - 1].len() == 1,
            self.spec_nodes()[self.spec_height() - 1][0] == self.spec_root(),
    {
        lemma_table_matches_model(
            self.spec_hasher(),
            self.spec_leaves(),
            self.spec_height(),
            self.spec_nodes(),
            self.spec_height(),
            (self.spec_height() - 1) as nat,
            0,
        );
    }

    /// Two trees built from the same digests by strategies that hash alike
    /// have the same padded leaves and the same root.
    pub proof fn lemma_rebuilt_alike(&self, other: &Self, input: Seq<Seq<u8>>)
        requires
            self.spec_leaves() == canonical_leaves(input),
            other.spec_leaves() == canonical_leaves(input),
            hashes_alike(self.spec_hasher(), other.spec_hasher()),
        ensures
            self.spec_leaves() == other.spec_leaves(),
            self.spec_root() == other.spec_root(),
    {
        lemma_same_input_same_root(self.spec_hasher(), other.spec_hasher(), input);
    }

    /// Every proof that the tree gives for one of its leaves folds to the
    /// tree's root: whoever holds the root accepts it.
    pub proof fn lemma_proof_verifies(&self, proof: MerkleProof<H>, index: int)
        requires
            self.wf(),
            0 <= index < self.spec_leaves().len(),
            self.proves_leaf(proof, index),
        ensures
            proof.spec_root() == self.spec_root(),
    {
        let leaves = self.spec_leaves();
        lemma_height_of_exp2((self.spec_height() - 1) as nat);
        lemma_path_folds_to_root(self.spec_hasher(), leaves, index);
        lemma_fold_root_alike(proof.hasher, self.spec_hasher(), proof.leaf@, proof.spec_items());
    }
}

} // verus!
