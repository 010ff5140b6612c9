use merkle_tree::hasher::{Blake2bHasher, Hasher, Sha256Hasher};
use merkle_tree::tree::MerkleTree;
use merkle_tree::utils::{
    create_tree_from_strings, create_tree_from_strings_with_hasher, verify_element_in_tree,
};

const LEAF1: &str = "d103cfb5e499c566904787533afbdec56f95492d67fc00e2c0d0161ba99653f1";
const LEAF2: &str = "5038da95330ba16edb486954197e37eb777c3047327ca54df4199c35c5edc17a";
const LEAF3: &str = "f2764fd79fdab5132fc349ba555c9c56ff0c935c889c17ebe3d61315d780934e";
const LEAF4: &str = "565fb0e0cefe32cf4000e4a67ddec8820111a733aa8ba010d242a5fe477e04c4";

fn unhex(text: &str) -> Vec<u8> {
    hex::decode(text).unwrap()
}

fn sha_leaves(strings: &[&str]) -> Vec<Vec<u8>> {
    let hasher = Sha256Hasher::new();
    strings.iter().map(|s| hasher.hash_leaf(s.as_bytes())).collect()
}

#[test]
fn four_leaves_are_sorted_and_not_padded() {
    let tree = MerkleTree::new(sha_leaves(&["leaf1", "leaf2", "leaf3", "leaf4"]), Sha256Hasher::new());
    assert_eq!(tree.leaf_count(), 4);
    assert_eq!(tree.get_leaf(0), Some(&unhex(LEAF2)));
    assert_eq!(tree.get_leaf(1), Some(&unhex(LEAF4)));
    assert_eq!(tree.get_leaf(2), Some(&unhex(LEAF1)));
    assert_eq!(tree.get_leaf(3), Some(&unhex(LEAF3)));
    assert_eq!(tree.get_leaf(4), None);
}

#[test]
fn four_leaves_have_the_expected_root_and_height() {
    let tree = create_tree_from_strings(vec!["leaf1", "leaf2", "leaf3", "leaf4"]);
    assert_eq!(
        tree.root(),
        unhex("8aa5eecf780cd414312d0dd9c287ffda606b465c4095c2e02a4fea85b8b5d481")
    );
    // Height 3: every proof lists one sibling for each of the two levels below the root.
    assert_eq!(tree.generate_proof(0).unwrap().proof_items.len(), 2);
}

#[test]
fn proof_for_leaf2_verifies_and_fails_against_another_root() {
    let hasher = Sha256Hasher::new();
    let tree = create_tree_from_strings(vec!["leaf1", "leaf2", "leaf3", "leaf4"]);
    let position = tree.find_leaf_index(&hasher.hash_leaf(b"leaf2")).unwrap();
    assert_eq!(position, 0);
    let proof = tree.generate_proof(position).unwrap();
    assert!(proof.verify(&tree.root()));
    assert!(tree.verify_proof(&proof));
    assert!(!proof.verify(&hasher.hash_leaf(b"different")));
}

#[test]
fn single_leaf_is_its_own_root() {
    let tree = create_tree_from_strings(vec!["leaf1"]);
    assert_eq!(tree.leaf_count(), 1);
    assert_eq!(tree.root(), unhex(LEAF1));
    let proof = tree.generate_proof(0).unwrap();
    assert!(proof.proof_items.is_empty());
    assert_eq!(proof.calculate_root(), unhex(LEAF1));
    assert!(proof.verify(&tree.root()));
}

#[test]
fn three_leaves_are_padded_with_the_last() {
    let tree = create_tree_from_strings(vec!["leaf1", "leaf2", "leaf3"]);
    assert_eq!(tree.leaf_count(), 4);
    assert_eq!(tree.get_leaf(0), Some(&unhex(LEAF2)));
    assert_eq!(tree.get_leaf(1), Some(&unhex(LEAF1)));
    assert_eq!(tree.get_leaf(2), Some(&unhex(LEAF3)));
    assert_eq!(tree.get_leaf(3), Some(&unhex(LEAF3)));
    assert_eq!(
        tree.root(),
        unhex("f4308b186bfabf098302f51163642fd3f519b8d7c410ff305b12530b25615b98")
    );
    for index in 0..4 {
        let proof = tree.generate_proof(index).unwrap();
        assert_eq!(proof.proof_items.len(), 2);
        assert!(tree.verify_proof(&proof));
    }
}

#[test]
fn five_leaves_are_padded_to_eight() {
    let tree = create_tree_from_strings(vec!["Create", "a", "tree", "from", "strings"]);
    assert_eq!(tree.leaf_count(), 8);
    assert_eq!(
        tree.root(),
        unhex("9d774f3c268406f16c5b5f9ccc5f00f8237e964aa1646713e7d6bbca2c8dca76")
    );
    let last = tree.get_leaf(4).unwrap().clone();
    for index in 5..8 {
        assert_eq!(tree.get_leaf(index), Some(&last));
    }
    for index in 0..8 {
        let proof = tree.generate_proof(index).unwrap();
        assert_eq!(proof.proof_items.len(), 3);
        assert!(tree.verify_proof(&proof));
    }
}

#[test]
fn every_proof_of_every_small_tree_verifies() {
    let hasher = Sha256Hasher::new();
    for count in 1..=17usize {
        let leaves: Vec<Vec<u8>> =
            (0..count).map(|i| hasher.hash_leaf(format!("item-{i}").as_bytes())).collect();
        let tree = MerkleTree::new(leaves, Sha256Hasher::new());
        assert_eq!(tree.leaf_count(), count.next_power_of_two());
        let root = tree.root();
        for index in 0..tree.leaf_count() {
            let proof = tree.generate_proof(index).unwrap();
            assert_eq!(&proof.leaf, tree.get_leaf(index).unwrap());
            assert!(proof.verify(&root));
        }
    }
}

#[test]
fn root_does_not_depend_on_the_order_of_the_input() {
    let forward = MerkleTree::new(sha_leaves(&["a", "b", "c", "d", "e"]), Sha256Hasher::new());
    let backward = MerkleTree::new(sha_leaves(&["e", "d", "c", "b", "a"]), Sha256Hasher::new());
    let again = MerkleTree::new(sha_leaves(&["a", "b", "c", "d", "e"]), Sha256Hasher::new());
    assert_eq!(forward.root(), backward.root());
    assert_eq!(forward.root(), again.root());
    for index in 0..forward.leaf_count() {
        assert_eq!(forward.get_leaf(index), backward.get_leaf(index));
    }
}

#[test]
fn changing_one_leaf_changes_the_root() {
    let tree = MerkleTree::new(sha_leaves(&["a", "b", "c", "d"]), Sha256Hasher::new());
    let changed = MerkleTree::new(sha_leaves(&["a", "b", "x", "d"]), Sha256Hasher::new());
    assert_ne!(tree.root(), changed.root());
}

#[test]
fn leaves_come_out_in_lexicographic_order() {
    let leaves = vec![vec![2u8, 0], vec![1, 255], vec![1], vec![], vec![1, 0, 0], vec![0, 9]];
    let tree = MerkleTree::new(leaves, Sha256Hasher::new());
    assert_eq!(tree.leaf_count(), 8);
    let expected: Vec<Vec<u8>> = vec![
        vec![],
        vec![0, 9],
        vec![1],
        vec![1, 0, 0],
        vec![1, 255],
        vec![2, 0],
        vec![2, 0],
        vec![2, 0],
    ];
    for (index, leaf) in expected.iter().enumerate() {
        assert_eq!(tree.get_leaf(index), Some(leaf));
    }
}

#[test]
fn index_out_of_bounds_is_an_error() {
    let tree = create_tree_from_strings(vec!["leaf1", "leaf2", "leaf3"]);
    assert_eq!(tree.generate_proof(4).err(), Some("Leaf index out of bounds"));
    assert_eq!(tree.generate_proof(usize::MAX).err(), Some("Leaf index out of bounds"));
    assert!(tree.generate_proof(3).is_ok());
}

#[test]
fn proof_by_value_takes_the_first_match() {
    let tree = create_tree_from_strings(vec!["leaf1", "leaf2", "leaf3"]);
    let padded = unhex(LEAF3);
    assert_eq!(tree.find_leaf_index(&padded), Some(2));
    let by_value = tree.generate_proof_by_value(&padded).unwrap();
    let by_index = tree.generate_proof(2).unwrap();
    assert_eq!(by_value.leaf, by_index.leaf);
    assert_eq!(by_value.proof_items.len(), by_index.proof_items.len());
    for (a, b) in by_value.proof_items.iter().zip(by_index.proof_items.iter()) {
        assert_eq!(a.hash, b.hash);
        assert_eq!(a.is_left, b.is_left);
    }
    assert!(tree.verify_proof(&by_value));
}

#[test]
fn value_not_found_is_an_error() {
    let tree = create_tree_from_strings(vec!["leaf1", "leaf2", "leaf3"]);
    let absent = unhex(LEAF4);
    assert_eq!(tree.find_leaf_index(&absent), None);
    assert_eq!(
        tree.generate_proof_by_value(&absent).err(),
        Some("Leaf value not found in the tree")
    );
}

#[test]
fn element_membership() {
    let tree = create_tree_from_strings(vec!["Create", "a", "tree", "from", "strings"]);
    assert!(verify_element_in_tree(&tree, "from"));
    assert!(verify_element_in_tree(&tree, "strings"));
    assert!(!verify_element_in_tree(&tree, "absent"));
    assert!(!verify_element_in_tree(&tree, ""));
}

#[test]
fn blake2b_tree_has_the_expected_root() {
    let tree = create_tree_from_strings_with_hasher(
        vec!["leaf1", "leaf2", "leaf3", "leaf4"],
        Blake2bHasher::new(32),
    );
    assert_eq!(
        tree.root(),
        unhex("998573de95b3adea359c24563194a7223dc600eba30f2ae5141ef236800ff3ea")
    );
    assert_eq!(
        tree.get_hasher().hash_leaf(b"leaf1"),
        unhex("c788d0ff7e4381ed3700dca355e07069654557646b8f9b53603de52007bfbaba")
    );
    assert!(verify_element_in_tree(&tree, "leaf3"));
}

#[test]
fn proofs_of_one_strategy_fail_under_another_size() {
    let wide = create_tree_from_strings_with_hasher(vec!["a", "b"], Blake2bHasher::new(32));
    let narrow = create_tree_from_strings_with_hasher(vec!["a", "b"], Blake2bHasher::new(16));
    let proof = wide.generate_proof(0).unwrap();
    assert!(wide.verify_proof(&proof));
    assert!(!narrow.verify_proof(&proof));
}
