//! Digests as byte strings: equality, concatenation and the order in which a
//! tree lays its leaves out.

use vstd::prelude::*;
use vstd::relations::{sorted_by, total_ordering};
use vstd::seq_lib::{lemma_sorted_unique, to_multiset_len};

verus! {

/// The digests that a vector holds, each as a byte string.
pub open spec fn digests_view(digests: Seq<Vec<u8>>) -> Seq<Seq<u8>> {
    digests.map_values(|digest: Vec<u8>| digest@)
}

/// Whether `a` comes before `b`, or equals it, in the lexicographic order of
/// byte strings: the first differing byte decides, and a prefix comes first.
pub open spec fn lex_le(a: Seq<u8>, b: Seq<u8>) -> bool
    decreases a.len(),
{
    if a.len() == 0 {
        true
    } else if b.len() == 0 {
        false
    } else if a[0] != b[0] {
        a[0] < b[0]
    } else {
        lex_le(a.drop_first(), b.drop_first())
    }
}

/// The lexicographic order as a relation.
pub open spec fn digest_order() -> spec_fn(Seq<u8>, Seq<u8>) -> bool {
    |a: Seq<u8>, b: Seq<u8>| lex_le(a, b)
}

/// The digests of `input` in lexicographic order.
pub open spec fn sorted_digests(input: Seq<Seq<u8>>) -> Seq<Seq<u8>> {
    input.sort_by(digest_order())
}

/// Every byte string stands at its own place in the order.
pub proof fn lemma_lex_le_reflexive(a: Seq<u8>)
    ensures
        lex_le(a, a),
    decreases a.len(),
{
    if a.len() > 0 {
        lemma_lex_le_reflexive(a.drop_first());
    }
}

/// Two byte strings that each come before the other are one byte string.
pub proof fn lemma_lex_le_antisymmetric(a: Seq<u8>, b: Seq<u8>)
    requires
        lex_le(a, b),
        lex_le(b, a),
    ensures
        a == b,
    decreases a.len(),
{
    if a.len() == 0 || b.len() == 0 {
        assert(a =~= b);
    } else {
        lemma_lex_le_antisymmetric(a.drop_first(), b.drop_first());
        assert(a =~= seq![a[0]] + a.drop_first());
        assert(b =~= seq![b[0]] + b.drop_first());
    }
}

/// What comes before a byte string comes before all that follow it.
pub proof fn lemma_lex_le_transitive(a: Seq<u8>, b: Seq<u8>, c: Seq<u8>)
    requires
        lex_le(a, b),
        lex_le(b, c),
    ensures
        lex_le(a, c),
    decreases a.len(),
{
    if a.len() > 0 && b.len() > 0 && c.len() > 0 && a[0] == b[0] && b[0] == c[0] {
        lemma_lex_le_transitive(a.drop_first(), b.drop_first(), c.drop_first());
    }
}

/// Of two byte strings one comes before the other.
pub proof fn lemma_lex_le_total(a: Seq<u8>, b: Seq<u8>)
    ensures
        lex_le(a, b) || lex_le(b, a),
    decreases a.len(),
{
    if a.len() > 0 && b.len() > 0 && a[0] == b[0] {
        lemma_lex_le_total(a.drop_first(), b.drop_first());
    }
}

/// The lexicographic order is a total order on byte strings.
pub proof fn lemma_digest_order_total()
    ensures
        total_ordering(digest_order()),
{
    let r = digest_order();
    assert forall|x: Seq<u8>| #[trigger] r(x, x) by {
        lemma_lex_le_reflexive(x);
    }
    assert forall|x: Seq<u8>, y: Seq<u8>| #[trigger] r(x, y) && #[trigger] r(y, x) implies x
        == y by {
        lemma_lex_le_antisymmetric(x, y);
    }
    assert forall|x: Seq<u8>, y: Seq<u8>, z: Seq<u8>| #[trigger] r(x, y) && #[trigger] r(y, z) implies r(x, z) by {
        lemma_lex_le_transitive(x, y, z);
    }
    assert forall|x: Seq<u8>, y: Seq<u8>| #[trigger] r(x, y) || #[trigger] r(y, x) by {
        lemma_lex_le_total(x, y);
    }
}

/// Sorting puts the digests in lexicographic order and keeps each of them as
/// often as it came.
pub proof fn lemma_sorted_digests_is_sorted(input: Seq<Seq<u8>>)
    ensures
        sorted_by(sorted_digests(input), digest_order()),
        sorted_digests(input).to_multiset() == input.to_multiset(),
        sorted_digests(input).len() == input.len(),
{
    lemma_digest_order_total();
    input.lemma_sort_by_ensures(digest_order());
    to_multiset_len(sorted_digests(input));
    to_multiset_len(input);
}

/// A sequence in lexicographic order that holds the digests of `input`, each
/// as often as `input` does, is `sorted_digests(input)`.
pub proof fn lemma_sorted_digests_unique(input: Seq<Seq<u8>>, sorted: Seq<Seq<u8>>)
    requires
        sorted_by(sorted, digest_order()),
        sorted.to_multiset() == input.to_multiset(),
    ensures
        sorted == sorted_digests(input),
        sorted.len() == input.len(),
{
    lemma_sorted_digests_is_sorted(input);
    lemma_digest_order_total();
    lemma_sorted_unique(sorted, sorted_digests(input), digest_order());
}

/// `<[Vec<u8>]>::sort` on the digests: afterwards they stand in ascending
/// order, which for byte vectors is the lexicographic one, and each digest
/// occurs as often as it did before.
#[verifier::external_body]
pub(crate) fn sort_digests(digests: &mut Vec<Vec<u8>>)
    ensures
        sorted_by(digests_view(final(digests)@), digest_order()),
        digests_view(final(digests)@).to_multiset() == digests_view(old(digests)@).to_multiset(),
{
    digests.sort();
}

/// Whether two byte strings are equal, byte for byte.
pub(crate) fn digest_eq(a: &[u8], b: &[u8]) -> (same: bool)
    ensures
        same == (a@ == b@),
{
    if a.len() != b.len() {
        return false;
    }
    let mut i: usize = 0;
    while i < a.len()
        invariant
            i <= a.len(),
            a.len() == b.len(),
            a@.subrange(0, i as int) == b@.subrange(0, i as int),
        decreases a.len() - i,
    {
        if a[i] != b[i] {
            return false;
        }
        assert(a@.subrange(0, i + 1) == a@.subrange(0, i as int).push(a@[i as int]));
        assert(b@.subrange(0, i + 1) == b@.subrange(0, i as int).push(b@[i as int]));
        i = i + 1;
    }
    assert(a@ == a@.subrange(0, a.len() as int));
    assert(b@ == b@.subrange(0, b.len() as int));
    true
}

/// `left` followed by `right` in one buffer.
pub(crate) fn concat_bytes(left: &[u8], right: &[u8]) -> (joined: Vec<u8>)
    ensures
        joined@ == left@ + right@,
{
    let mut joined: Vec<u8> = Vec::new();
    let mut i: usize = 0;
    while i < left.len()
        invariant
            i <= left.len(),
            joined@ == left@.subrange(0, i as int),
        decreases left.len() - i,
    {
        joined.push(left[i]);
        i = i + 1;
    }
    let mut j: usize = 0;
    while j < right.len()
        invariant
            j <= right.len(),
            joined@ == left@ + right@.subrange(0, j as int),
        decreases right.len() - j,
    {
        joined.push(right[j]);
        j = j + 1;
    }
    joined
}

} // verus!
