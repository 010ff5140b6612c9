use merkle_tree::hasher::{Blake2bHasher, Hasher, Sha256Hasher};
use merkle_tree::utils::string_to_bytes;

fn unhex(text: &str) -> Vec<u8> {
    hex::decode(text).unwrap()
}

#[test]
fn sha256_leaf_matches_known_digest() {
    let hasher = Sha256Hasher::new();
    assert_eq!(
        hasher.hash_leaf(b"leaf1"),
        unhex("d103cfb5e499c566904787533afbdec56f95492d67fc00e2c0d0161ba99653f1")
    );
    assert_eq!(
        hasher.hash_leaf(b""),
        unhex("e3b0c44298fc1c149afbf4c8996fb92427ae41e4649b934ca495991b7852b855")
    );
}

#[test]
fn sha256_pair_hashes_the_concatenation() {
    let hasher = Sha256Hasher::new();
    let left = unhex("5038da95330ba16edb486954197e37eb777c3047327ca54df4199c35c5edc17a");
    let right = unhex("565fb0e0cefe32cf4000e4a67ddec8820111a733aa8ba010d242a5fe477e04c4");
    let parent = hasher.hash_pair(&left, &right);
    assert_eq!(
        parent,
        unhex("2adb5aee1aee8fab6f62f49f8e8ba118172b7d545a172564577735d76316456e")
    );
    let mut joined = left.clone();
    joined.extend_from_slice(&right);
    assert_eq!(parent, hasher.hash_leaf(&joined));
    assert_eq!(parent.len(), 32);
}

#[test]
fn hash_pair_depends_on_the_order() {
    let hasher = Sha256Hasher::new();
    let a = hasher.hash_leaf(b"a");
    let b = hasher.hash_leaf(b"b");
    assert_ne!(hasher.hash_pair(&a, &b), hasher.hash_pair(&b, &a));
}

#[test]
fn blake2b_truncates_the_full_digest() {
    let full = unhex(
        "c788d0ff7e4381ed3700dca355e07069654557646b8f9b53603de52007bfbaba\
         9b128d4c7da33a58a71701c28b9b3606dd2815d27a044508cfe9312e720abbc9",
    );
    assert_eq!(Blake2bHasher::new(64).hash_leaf(b"leaf1"), full);
    assert_eq!(Blake2bHasher::new(32).hash_leaf(b"leaf1"), full[..32].to_vec());
    assert_eq!(Blake2bHasher::new(16).hash_leaf(b"leaf1"), full[..16].to_vec());
    assert_eq!(Blake2bHasher::new(0).hash_leaf(b"leaf1"), Vec::<u8>::new());
}

#[test]
fn blake2b_pair_hashes_the_concatenation() {
    let hasher = Blake2bHasher::new(32);
    let left = unhex("263b65ba2595f1c28567badb683e93fa6c9ef542720e857da5cb939714008ca2");
    let right = unhex("5809945fcbb6acecfd5f7785f012bc19ef85703aef39301ade350e2bf446156e");
    assert_eq!(
        hasher.hash_pair(&left, &right),
        unhex("e311baa24386ab2c3a050f85ab0979bd62228e0a6f1a51814e6fb95302145ae1")
    );
}

#[test]
fn cloned_hasher_hashes_alike() {
    let hasher = Blake2bHasher::new(20);
    let copy = hasher.clone();
    assert_eq!(hasher.hash_leaf(b"x"), copy.hash_leaf(b"x"));
    assert_eq!(copy.hash_leaf(b"x").len(), 20);
    let sha = Sha256Hasher::new();
    assert_eq!(sha.clone().hash_pair(b"l", b"r"), sha.hash_pair(b"l", b"r"));
}

#[test]
fn string_to_bytes_gives_utf8() {
    assert_eq!(string_to_bytes("leaf1"), b"leaf1".to_vec());
    assert_eq!(string_to_bytes(""), Vec::<u8>::new());
    assert_eq!(string_to_bytes("\u{e9}"), vec![0xc3, 0xa9]);
}
