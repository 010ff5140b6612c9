//! Inclusion proofs: a leaf digest and the sibling digests on its way to the
//! root, folded into a candidate root and compared with the root held.
//!
//! A proof that does not fit the root, because an item was changed or
//! because it is folded with another strategy than the tree's, is no error:
//! it does not verify.

use crate::digest::digest_eq;
use crate::hasher::{hashes_alike, lemma_collision_found, pair_collision, Hasher};
use crate::hex_text::hex_encode;
use crate::record::{item_record, record_view};
use vstd::hash_map::StringHashMap;
use vstd::prelude::*;

verus! {

/// One step of a proof: the digest of the sibling, and the side it stands on.
pub struct ProofItem {
    /// The digest of the sibling node.
    pub hash: Vec<u8>,
    /// Whether the sibling stands to the left of the node being folded.
    pub is_left: bool,
}

impl View for ProofItem {
    type V = (Seq<u8>, bool);

    open spec fn view(&self) -> (Seq<u8>, bool) {
        (self.hash@, self.is_left)
    }
}

/// The views of a run of proof items, in order.
pub open spec fn items_view(items: Seq<ProofItem>) -> Seq<(Seq<u8>, bool)> {
    items.map_values(|item: ProofItem| item@)
}

/// The parent of `current` and the sibling of `item`, each on its own side.
pub open spec fn fold_step<H: Hasher>(hasher: H, current: Seq<u8>, item: (Seq<u8>, bool)) -> Seq<
    u8,
> {
    if item.1 {
        hasher.spec_hash_pair(item.0, current)
    } else {
        hasher.spec_hash_pair(current, item.0)
    }
}

/// The digest reached from `leaf` by folding `items` in, the first item first.
pub open spec fn fold_root<H: Hasher>(hasher: H, leaf: Seq<u8>, items: Seq<(Seq<u8>, bool)>) -> Seq<
    u8,
>
    decreases items.len(),
{
    if items.len() == 0 {
        leaf
    } else {
        fold_step(hasher, fold_root(hasher, leaf, items.drop_last()), items.last())
    }
}

/// A proof that one leaf digest belongs to a tree.
pub struct MerkleProof<H: Hasher> {
    /// The digest of the leaf whose membership is proved.
    pub leaf: Vec<u8>,
    /// The siblings on the way up, the one next to the leaf first.
    pub proof_items: Vec<ProofItem>,
    /// The strategy that folds the proof.
    pub hasher: H,
}

impl<H: Hasher> MerkleProof<H> {
    /// The items of the proof as plain values.
    pub open spec fn spec_items(&self) -> Seq<(Seq<u8>, bool)> {
        items_view(self.proof_items@)
    }

    /// The root that this proof folds to.
    pub open spec fn spec_root(&self) -> Seq<u8> {
        fold_root(self.hasher, self.leaf@, self.spec_items())
    }

    /// The proof for `leaf` that lists `proof_items`, to be folded by `hasher`.
    pub fn new(leaf: Vec<u8>, proof_items: Vec<ProofItem>, hasher: H) -> (proof: Self)
        ensures
            proof.leaf == leaf,
            proof.proof_items == proof_items,
            proof.hasher == hasher,
    {
        MerkleProof { leaf, proof_items, hasher }
    }

    /// Folds the proof from the leaf upwards and returns the digest reached.
    pub fn calculate_root(&self) -> (root: Vec<u8>)
        ensures
            root@ == self.spec_root(),
    {
        let mut current = self.leaf.clone();
        let mut i: usize = 0;
        assert(self.spec_items().take(0) =~= Seq::<(Seq<u8>, bool)>::empty());
        while i < self.proof_items.len()
            invariant
                i <= self.proof_items.len(),
                current@ == fold_root(self.hasher, self.leaf@, self.spec_items().take(i as int)),
            decreases self.proof_items.len() - i,
        {
            let item = &self.proof_items[i];
            let next = if item.is_left {
                self.hasher.hash_pair(item.hash.as_slice(), current.as_slice())
            } else {
                self.hasher.hash_pair(current.as_slice(), item.hash.as_slice())
            };
            proof {
                let done = self.spec_items().take(i + 1);
                assert(done.drop_last() =~= self.spec_items().take(i as int));
                assert(done.last() == item@);
            }
            current = next;
            i = i + 1;
        }
        assert(self.spec_items().take(i as int) =~= self.spec_items());
        current
    }

    /// The proof items as records, in order: the form in which a proof is
    /// handed to a verifier that holds no tree.
    pub fn to_debug_format(&self) -> (records: Vec<StringHashMap<String>>)
        ensures
            records.len() == self.proof_items.len(),
            forall|i: int|
                0 <= i < records.len() ==> record_view(#[trigger] records[i]) == item_record(
                    self.spec_items()[i],
                ),
    {
        let mut records: Vec<StringHashMap<String>> = Vec::new();
        let mut i: usize = 0;
        while i < self.proof_items.len()
            invariant
                i <= self.proof_items.len(),
                records.len() == i,
                forall|k: int|
                    0 <= k < i ==> record_view(#[trigger] records[k]) == item_record(
                        self.spec_items()[k],
                    ),
            decreases self.proof_items.len() - i,
        {
            let item = &self.proof_items[i];
            let mut record: StringHashMap<String> = StringHashMap::new();
            let hash_hex = hex_encode(item.hash.as_slice());
            let direction = if item.is_left {
                "left"
            } else {
                "right"
            };
            record.insert("hash".to_owned(), hash_hex);
            record.insert("direction".to_owned(), direction.to_owned());
            assert(record_view(record) =~= item_record(item@));
            records.push(record);
            i = i + 1;
        }
        records
    }

    /// Whether the proof folds to `root`.
    pub fn verify(&self, root: &[u8]) -> (ok: bool)
        ensures
            ok == (self.spec_root() == root@),
    {
        let calculated = self.calculate_root();
        digest_eq(calculated.as_slice(), root)
    }
}

/// Strategies that hash alike fold every proof to the same digest.
pub proof fn lemma_fold_root_alike<H: Hasher>(
    a: H,
    b: H,
    leaf: Seq<u8>,
    items: Seq<(Seq<u8>, bool)>,
)
    requires
        hashes_alike(a, b),
    ensures
        fold_root(a, leaf, items) == fold_root(b, leaf, items),
    decreases items.len(),
{
    if items.len() > 0 {
        lemma_fold_root_alike(a, b, leaf, items.drop_last());
    }
}

/// Folding all of `items` is folding the first `done` of them, then the
/// rest into what that gave.
pub proof fn lemma_fold_root_split<H: Hasher>(
    hasher: H,
    leaf: Seq<u8>,
    items: Seq<(Seq<u8>, bool)>,
    done: int,
)
    requires
        0 <= done <= items.len(),
    ensures
        fold_root(hasher, leaf, items) == fold_root(
            hasher,
            fold_root(hasher, leaf, items.take(done)),
            items.skip(done),
        ),
    decreases items.len(),
{
    if done == items.len() {
        assert(items.take(done) =~= items);
        assert(items.skip(done).len() == 0);
    } else {
        let shorter = items.drop_last();
        lemma_fold_root_split(hasher, leaf, shorter, done);
        assert(shorter.take(done) =~= items.take(done));
        assert(items.skip(done).drop_last() =~= shorter.skip(done));
        assert(items.skip(done).last() == items.last());
    }
}

/// The same items folded into two different digests give two different
/// digests, unless the strategy has a collision.
pub proof fn lemma_fold_root_keeps_apart<H: Hasher>(
    hasher: H,
    first: Seq<u8>,
    second: Seq<u8>,
    items: Seq<(Seq<u8>, bool)>,
)
    requires
        first != second,
    ensures
        fold_root(hasher, first, items) != fold_root(hasher, second, items) || pair_collision(
            hasher,
        ),
    decreases items.len(),
{
    if items.len() > 0 {
        lemma_fold_root_keeps_apart(hasher, first, second, items.drop_last());
        let below_first = fold_root(hasher, first, items.drop_last());
        let below_second = fold_root(hasher, second, items.drop_last());
        let item = items.last();
        if below_first != below_second && fold_root(hasher, first, items) == fold_root(
            hasher,
            second,
            items,
        ) {
            if item.1 {
                lemma_collision_found(hasher, item.0, below_first, item.0, below_second);
            } else {
                lemma_collision_found(hasher, below_first, item.0, below_second, item.0);
            }
        }
    }
}

/// A proof in which one item was replaced folds to another digest than the
/// proof as it was, so it fails against every root that the proof as it was
/// verifies against, unless the strategy has a collision.
/// This holds whenever the sibling's digest was changed. Where only the side
/// was swapped, it holds unless the sibling's digest equals the digest folded
/// so far: hashing a digest with itself gives one parent, whichever side the
/// sibling is said to stand on.
pub proof fn lemma_tampered_item_detected<H: Hasher>(
    hasher: H,
    leaf: Seq<u8>,
    items: Seq<(Seq<u8>, bool)>,
    at: int,
    forged: (Seq<u8>, bool),
)
    requires
        0 <= at < items.len(),
        forged != items[at],
        forged.0 != items[at].0 || items[at].0 != fold_root(hasher, leaf, items.take(at)),
    ensures
        fold_root(hasher, leaf, items.update(at, forged)) != fold_root(hasher, leaf, items)
            || pair_collision(hasher),
{
    let tampered = items.update(at, forged);
    let below = fold_root(hasher, leaf, items.take(at));
    lemma_fold_root_split(hasher, leaf, items, at + 1);
    lemma_fold_root_split(hasher, leaf, tampered, at + 1);
    assert(tampered.skip(at + 1) =~= items.skip(at + 1));
    assert(items.take(at + 1).drop_last() =~= items.take(at));
    assert(tampered.take(at + 1).drop_last() =~= items.take(at));
    assert(items.take(at + 1).last() == items[at]);
    assert(tampered.take(at + 1).last() == forged);
    let honest = fold_step(hasher, below, items[at]);
    let other = fold_step(hasher, below, forged);
    assert(fold_root(hasher, leaf, items.take(at + 1)) == honest);
    assert(fold_root(hasher, leaf, tampered.take(at + 1)) == other);
    if honest == other {
        let (a, b) = if items[at].1 {
            (items[at].0, below)
        } else {
            (below, items[at].0)
        };
        let (c, d) = if forged.1 {
            (forged.0, below)
        } else {
            (below, forged.0)
        };
        lemma_collision_found(hasher, a, b, c, d);
    } else {
        lemma_fold_root_keeps_apart(hasher, honest, other, items.skip(at + 1));
    }
}

} // verus!
