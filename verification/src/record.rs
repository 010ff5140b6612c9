//! Proof items as records: the form in which a proof travels to a verifier
//! that holds the root, the leaf digest and the hash strategy, but no tree.
//!
//! A record maps `hash` to the sibling's digest in hexadecimal text and
//! `direction` to `left` or `right`.

use crate::hasher::Hasher;
use crate::hex_text::{hex_bytes, hex_decode, hex_text, is_hex_text, lemma_hex_round_trip};
use crate::merkle_proof::{fold_root, ProofItem};
use vstd::hash_map::StringHashMap;
use vstd::prelude::*;

verus! {

/// The word that a record holds for a side.
pub open spec fn direction_word(is_left: bool) -> Seq<char> {
    if is_left {
        "left"@
    } else {
        "right"@
    }
}

/// What a record holds under each of its keys, as text.
pub open spec fn record_view(record: StringHashMap<String>) -> Map<Seq<char>, Seq<char>> {
    record@.map_values(|text: String| text@)
}

/// The record of a proof item: under `hash` the sibling's digest as
/// hexadecimal text, under `direction` the word for its side.
pub open spec fn item_record(item: (Seq<u8>, bool)) -> Map<Seq<char>, Seq<char>> {
    Map::<Seq<char>, Seq<char>>::empty().insert("hash"@, hex_text(item.0)).insert(
        "direction"@,
        direction_word(item.1),
    )
}

/// Whether a record can be read back as a proof item: it has both keys, and
/// what stands under `hash` is hexadecimal text.
pub open spec fn record_readable(record: Map<Seq<char>, Seq<char>>) -> bool {
    &&& record.contains_key("hash"@)
    &&& record.contains_key("direction"@)
    &&& is_hex_text(record["hash"@])
}

/// The proof item that a readable record stands for. The sibling is on the
/// left where the record says `left`, and on the right for any other word.
pub open spec fn record_item(record: Map<Seq<char>, Seq<char>>) -> (Seq<u8>, bool) {
    (hex_bytes(record["hash"@]), record["direction"@] == "left"@)
}

/// The proof items that a run of records stands for, in order.
pub open spec fn records_items(records: Seq<StringHashMap<String>>) -> Seq<(Seq<u8>, bool)> {
    records.map_values(|record: StringHashMap<String>| record_item(record_view(record)))
}

/// The record of an item can be read, and reads back as that item.
pub proof fn lemma_record_round_trip(item: (Seq<u8>, bool))
    ensures
        record_readable(item_record(item)),
        record_item(item_record(item)) == item,
{
    reveal_strlit("hash");
    reveal_strlit("direction");
    reveal_strlit("left");
    reveal_strlit("right");
    lemma_hex_round_trip(item.0);
    assert("hash"@ != "direction"@) by {
        assert("hash"@.len() != "direction"@.len());
    }
    assert("left"@ != "right"@) by {
        assert("left"@.len() != "right"@.len());
    }
}

/// Reads a record back as a proof item; `None` where it cannot be read.
pub fn proof_item_from_record(record: &StringHashMap<String>) -> (item: Option<ProofItem>)
    ensures
        item is Some <==> record_readable(record_view(*record)),
        item matches Some(read) ==> read@ == record_item(record_view(*record)),
{
    let hash_text = match record.get("hash") {
        Some(text) => text,
        None => {
            return None;
        },
    };
    let direction = match record.get("direction") {
        Some(text) => text,
        None => {
            return None;
        },
    };
    match hex_decode(hash_text.as_str()) {
        Ok(hash) => {
            let left = "left".to_owned();
            let is_left = *direction == left;
            Some(ProofItem { hash, is_left })
        },
        Err(_) => None,
    }
}

/// Records that hold what `to_debug_format` puts into them can all be read,
/// and read back as the items they were made from: the proof rebuilt from
/// them folds to the same digest, and so verifies against a root exactly
/// where the proof itself does.
pub proof fn lemma_debug_format_round_trip<H: Hasher>(
    hasher: H,
    leaf: Seq<u8>,
    items: Seq<(Seq<u8>, bool)>,
    records: Seq<StringHashMap<String>>,
)
    requires
        records.len() == items.len(),
        forall|i: int|
            0 <= i < records.len() ==> record_view(#[trigger] records[i]) == item_record(items[i]),
    ensures
        forall|i: int| 0 <= i < records.len() ==> record_readable(record_view(#[trigger] records[i])),
        records_items(records) == items,
        fold_root(hasher, leaf, records_items(records)) == fold_root(hasher, leaf, items),
{
    assert forall|i: int| 0 <= i < records.len() implies record_readable(
        record_view(#[trigger] records[i]),
    ) && records_items(records)[i] == items[i] by {
        lemma_record_round_trip(items[i]);
    }
    assert(records_items(records) =~= items);
}

} // verus!
