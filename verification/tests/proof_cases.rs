use merkle_tree::hasher::{Hasher, Sha256Hasher};
use merkle_tree::merkle_proof::{MerkleProof, ProofItem};
use merkle_tree::record::proof_item_from_record;
use merkle_tree::utils::{create_tree_from_strings, verify_with_formatted_proof};

fn unhex(text: &str) -> Vec<u8> {
    hex::decode(text).unwrap()
}

#[test]
fn proof_items_name_the_siblings_and_their_sides() {
    // Sorted leaves: leaf2, leaf4, leaf1, leaf3.
    let tree = create_tree_from_strings(vec!["leaf1", "leaf2", "leaf3", "leaf4"]);
    let proof = tree.generate_proof(2).unwrap();
    assert_eq!(
        proof.leaf,
        unhex("d103cfb5e499c566904787533afbdec56f95492d67fc00e2c0d0161ba99653f1")
    );
    assert_eq!(proof.proof_items.len(), 2);
    assert_eq!(
        proof.proof_items[0].hash,
        unhex("f2764fd79fdab5132fc349ba555c9c56ff0c935c889c17ebe3d61315d780934e")
    );
    assert!(!proof.proof_items[0].is_left);
    assert_eq!(
        proof.proof_items[1].hash,
        unhex("2adb5aee1aee8fab6f62f49f8e8ba118172b7d545a172564577735d76316456e")
    );
    assert!(proof.proof_items[1].is_left);

    let right_most = tree.generate_proof(3).unwrap();
    assert!(right_most.proof_items[0].is_left);
    assert!(right_most.proof_items[1].is_left);
    let left_most = tree.generate_proof(0).unwrap();
    assert!(!left_most.proof_items[0].is_left);
    assert!(!left_most.proof_items[1].is_left);
}

#[test]
fn calculate_root_folds_by_side() {
    let hasher = Sha256Hasher::new();
    let leaf = hasher.hash_leaf(b"x");
    let sibling = hasher.hash_leaf(b"y");
    let uncle = hasher.hash_leaf(b"z");
    let proof = MerkleProof::new(
        leaf.clone(),
        vec![
            ProofItem { hash: sibling.clone(), is_left: true },
            ProofItem { hash: uncle.clone(), is_left: false },
        ],
        Sha256Hasher::new(),
    );
    let parent = hasher.hash_pair(&sibling, &leaf);
    let expected = hasher.hash_pair(&parent, &uncle);
    assert_eq!(proof.calculate_root(), expected);
    assert!(proof.verify(&expected));
    assert!(!proof.verify(&parent));
    assert!(!proof.verify(&[]));
}

#[test]
fn empty_proof_folds_to_the_leaf() {
    let proof = MerkleProof::new(vec![1, 2, 3], Vec::new(), Sha256Hasher::new());
    assert_eq!(proof.calculate_root(), vec![1, 2, 3]);
    assert!(proof.verify(&[1, 2, 3]));
    assert!(!proof.verify(&[1, 2]));
    assert!(!proof.verify(&[1, 2, 4]));
}

#[test]
fn tampered_sibling_is_detected() {
    let tree = create_tree_from_strings(vec!["a", "b", "c", "d", "e", "f", "g", "h"]);
    let root = tree.root();
    for index in 0..8 {
        for level in 0..3 {
            for byte in [0usize, 15, 31] {
                let mut proof = tree.generate_proof(index).unwrap();
                proof.proof_items[level].hash[byte] ^= 1;
                assert!(!proof.verify(&root));
            }
        }
    }
}

#[test]
fn swapped_side_is_detected() {
    let tree = create_tree_from_strings(vec!["a", "b", "c", "d", "e", "f", "g", "h"]);
    let root = tree.root();
    for index in 0..8 {
        for level in 0..3 {
            let mut proof = tree.generate_proof(index).unwrap();
            proof.proof_items[level].is_left = !proof.proof_items[level].is_left;
            assert!(!proof.verify(&root));
        }
    }
}

#[test]
fn swapped_side_next_to_padding_changes_nothing() {
    // Sorted and padded: leaf2, leaf1, leaf3, leaf3. The sibling of the last
    // leaf is its own copy, so either side gives the same parent.
    let tree = create_tree_from_strings(vec!["leaf1", "leaf2", "leaf3"]);
    let mut proof = tree.generate_proof(3).unwrap();
    assert_eq!(proof.proof_items[0].hash, proof.leaf);
    proof.proof_items[0].is_left = !proof.proof_items[0].is_left;
    assert!(proof.verify(&tree.root()));
}

#[test]
fn tampered_leaf_is_detected() {
    let tree = create_tree_from_strings(vec!["a", "b", "c"]);
    let mut proof = tree.generate_proof(1).unwrap();
    proof.leaf[0] ^= 0x80;
    assert!(!tree.verify_proof(&proof));
}

#[test]
fn debug_format_holds_hex_and_direction() {
    let tree = create_tree_from_strings(vec!["leaf1", "leaf2", "leaf3", "leaf4"]);
    let proof = tree.generate_proof(2).unwrap();
    let records = proof.to_debug_format();
    assert_eq!(records.len(), 2);
    assert_eq!(records[0].len(), 2);
    assert_eq!(
        records[0].get("hash").map(|s| s.as_str()),
        Some("f2764fd79fdab5132fc349ba555c9c56ff0c935c889c17ebe3d61315d780934e")
    );
    assert_eq!(records[0].get("direction").map(|s| s.as_str()), Some("right"));
    assert_eq!(
        records[1].get("hash").map(|s| s.as_str()),
        Some("2adb5aee1aee8fab6f62f49f8e8ba118172b7d545a172564577735d76316456e")
    );
    assert_eq!(records[1].get("direction").map(|s| s.as_str()), Some("left"));
    assert!(records[1].get("other").is_none());
}

#[test]
fn debug_format_of_an_empty_proof_is_empty() {
    let tree = create_tree_from_strings(vec!["leaf1"]);
    let proof = tree.generate_proof(0).unwrap();
    assert!(proof.to_debug_format().is_empty());
    assert!(verify_with_formatted_proof(
        &tree.root(),
        proof.leaf.clone(),
        proof.to_debug_format(),
        tree.get_hasher()
    ));
}

#[test]
fn formatted_proof_verifies_as_the_proof_does() {
    let tree = create_tree_from_strings(vec!["Create", "a", "tree", "from", "strings"]);
    let root = tree.root();
    let other_root = Sha256Hasher::new().hash_leaf(b"different");
    for index in 0..tree.leaf_count() {
        let proof = tree.generate_proof(index).unwrap();
        assert_eq!(
            verify_with_formatted_proof(
                &root,
                proof.leaf.clone(),
                proof.to_debug_format(),
                tree.get_hasher()
            ),
            proof.verify(&root)
        );
        assert_eq!(
            verify_with_formatted_proof(
                &other_root,
                proof.leaf.clone(),
                proof.to_debug_format(),
                tree.get_hasher()
            ),
            proof.verify(&other_root)
        );
    }
    let proof = tree.generate_proof(1).unwrap();
    assert!(verify_with_formatted_proof(
        &root,
        proof.leaf.clone(),
        proof.to_debug_format(),
        tree.get_hasher()
    ));
    assert!(!verify_with_formatted_proof(
        &other_root,
        proof.leaf.clone(),
        proof.to_debug_format(),
        tree.get_hasher()
    ));
}

#[test]
fn formatted_proof_with_a_changed_record_fails() {
    let tree = create_tree_from_strings(vec!["a", "b", "c", "d"]);
    let root = tree.root();
    let proof = tree.generate_proof(0).unwrap();

    let mut swapped = proof.to_debug_format();
    swapped[0].insert("direction".to_string(), "left".to_string());
    assert!(!verify_with_formatted_proof(&root, proof.leaf.clone(), swapped, tree.get_hasher()));

    let mut forged = proof.to_debug_format();
    forged[1].insert("hash".to_string(), "00".repeat(32));
    assert!(!verify_with_formatted_proof(&root, proof.leaf.clone(), forged, tree.get_hasher()));
}

#[test]
fn record_reads_back_as_its_item() {
    let tree = create_tree_from_strings(vec!["a", "b", "c", "d"]);
    let proof = tree.generate_proof(3).unwrap();
    let records = proof.to_debug_format();
    for (record, item) in records.iter().zip(proof.proof_items.iter()) {
        let read = proof_item_from_record(record).unwrap();
        assert_eq!(read.hash, item.hash);
        assert_eq!(read.is_left, item.is_left);
    }
}

#[test]
fn record_accepts_upper_case_and_any_other_direction() {
    let tree = create_tree_from_strings(vec!["a", "b"]);
    let mut records = tree.generate_proof(0).unwrap().to_debug_format();
    records[0].insert("hash".to_string(), "00fFAb9C".to_string());
    records[0].insert("direction".to_string(), "up".to_string());
    let read = proof_item_from_record(&records[0]).unwrap();
    assert_eq!(read.hash, vec![0x00, 0xff, 0xab, 0x9c]);
    assert!(!read.is_left);
    records[0].insert("direction".to_string(), "left".to_string());
    assert!(proof_item_from_record(&records[0]).unwrap().is_left);
    records[0].insert("direction".to_string(), "Left".to_string());
    assert!(!proof_item_from_record(&records[0]).unwrap().is_left);
    records[0].insert("hash".to_string(), String::new());
    assert_eq!(proof_item_from_record(&records[0]).unwrap().hash, Vec::<u8>::new());
}

#[test]
fn unreadable_records_are_refused() {
    let tree = create_tree_from_strings(vec!["a", "b"]);
    let records = tree.generate_proof(0).unwrap().to_debug_format();

    let mut no_hash = tree.generate_proof(0).unwrap().to_debug_format();
    no_hash[0].remove("hash");
    assert!(proof_item_from_record(&no_hash[0]).is_none());

    let mut no_direction = tree.generate_proof(0).unwrap().to_debug_format();
    no_direction[0].remove("direction");
    assert!(proof_item_from_record(&no_direction[0]).is_none());

    for bad in ["abc", "zz", "0g", "\u{e9}", "a\u{e9}", " 00", "0x00"] {
        let mut record = tree.generate_proof(0).unwrap().to_debug_format();
        record[0].insert("hash".to_string(), bad.to_string());
        assert!(proof_item_from_record(&record[0]).is_none());
    }
    assert!(proof_item_from_record(&records[0]).is_some());
}
