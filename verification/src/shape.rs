//! The shape of a tree over a given number of leaves: its height, the width
//! of its levels, and the position of a leaf's ancestors.

use vstd::prelude::*;

verus! {

/// Two to the power `k`.
pub open spec fn exp2(k: nat) -> nat
    decreases k,
{
    if k == 0 {
        1
    } else {
        2 * exp2((k - 1) as nat)
    }
}

/// The number of levels, the leaf level included, of a tree over `n` leaves.
pub open spec fn tree_height(n: nat) -> nat
    decreases n,
{
    if n <= 1 {
        1
    } else {
        1 + tree_height((n + 1) / 2)
    }
}

/// The width of the leaf level of a tree over `n` leaves: the least power of
/// two that is not below `n`.
pub open spec fn padded_width(n: nat) -> nat {
    exp2((tree_height(n) - 1) as nat)
}

/// The position, `level` levels up, of the ancestor of the leaf at `index`.
pub open spec fn ancestor(index: int, level: nat) -> int
    decreases level,
{
    if level == 0 {
        index
    } else {
        ancestor(index, (level - 1) as nat) / 2
    }
}

/// The position of the other child of the parent of the node at `pos`.
pub open spec fn sibling(pos: int) -> int {
    if pos % 2 == 1 {
        pos - 1
    } else {
        pos + 1
    }
}

/// A power of two is at least one.
pub proof fn lemma_exp2_positive(k: nat)
    ensures
        exp2(k) >= 1,
    decreases k,
{
    if k > 0 {
        lemma_exp2_positive((k - 1) as nat);
    }
}

/// A power of two is above its exponent.
pub proof fn lemma_exp2_above_exponent(k: nat)
    ensures
        k < exp2(k),
    decreases k,
{
    if k > 0 {
        lemma_exp2_above_exponent((k - 1) as nat);
    }
}

/// A higher exponent gives no lower power.
pub proof fn lemma_exp2_monotonic(j: nat, k: nat)
    requires
        j <= k,
    ensures
        exp2(j) <= exp2(k),
    decreases k,
{
    if j < k {
        lemma_exp2_monotonic(j, (k - 1) as nat);
    }
}

/// Every tree has its leaf level.
pub proof fn lemma_tree_height_positive(n: nat)
    ensures
        tree_height(n) >= 1,
    decreases n,
{
    if n > 1 {
        lemma_tree_height_positive((n + 1) / 2);
    }
}

/// A tree over more than `exp2(k)` leaves has more than `k + 1` levels.
pub proof fn lemma_height_above(k: nat, n: nat)
    requires
        exp2(k) < n,
    ensures
        k + 2 <= tree_height(n),
    decreases k,
{
    lemma_exp2_positive(k);
    if k == 0 {
        lemma_tree_height_positive((n + 1) / 2);
    } else {
        lemma_height_above((k - 1) as nat, (n + 1) / 2);
    }
}

/// A tree over at most `exp2(k)` leaves has at most `k + 1` levels.
pub proof fn lemma_height_below(k: nat, n: nat)
    requires
        n <= exp2(k),
    ensures
        tree_height(n) <= k + 1,
    decreases k,
{
    if k > 0 && n > 1 {
        lemma_height_below((k - 1) as nat, (n + 1) / 2);
    }
}

/// The padded width is a power of two, holds all `n` leaves, and is the least
/// such: half of it would not hold them.
pub proof fn lemma_padded_width_is_least(n: nat)
    ensures
        n <= padded_width(n),
        n > 1 ==> padded_width(n) < 2 * n,
        n <= 1 ==> padded_width(n) == 1,
{
    let k = (tree_height(n) - 1) as nat;
    lemma_tree_height_positive(n);
    if exp2(k) < n {
        lemma_height_above(k, n);
    }
    if n > 1 {
        let j = (k - 1) as nat;
        if n <= exp2(j) {
            lemma_height_below(j, n);
        }
    }
}

/// A full leaf level needs no padding: the height of a tree over `exp2(k)`
/// leaves is `k + 1`.
pub proof fn lemma_height_of_exp2(k: nat)
    ensures
        tree_height(exp2(k)) == k + 1,
        padded_width(exp2(k)) == exp2(k),
    decreases k,
{
    lemma_height_below(k, exp2(k));
    lemma_exp2_positive(k);
    if k > 0 {
        lemma_exp2_positive((k - 1) as nat);
        lemma_height_of_exp2((k - 1) as nat);
        if exp2(k) > 1 {
        }
    }
}

/// Padding changes neither the height nor the width.
pub proof fn lemma_padding_keeps_height(n: nat)
    ensures
        tree_height(padded_width(n)) == tree_height(n),
        padded_width(padded_width(n)) == padded_width(n),
{
    lemma_tree_height_positive(n);
    lemma_height_of_exp2((tree_height(n) - 1) as nat);
}

/// The ancestors of a leaf stand at positions from zero up.
pub proof fn lemma_ancestor_nonnegative(index: int, level: nat)
    requires
        0 <= index,
    ensures
        0 <= ancestor(index, level),
    decreases level,
{
    if level > 0 {
        lemma_ancestor_nonnegative(index, (level - 1) as nat);
    }
}

/// The ancestors of a position below `exp2(k + m)` stay below `exp2(m)` once
/// `k` levels up.
pub proof fn lemma_ancestor_in_level(index: int, k: nat, m: nat)
    requires
        0 <= index < exp2(k + m),
    ensures
        0 <= ancestor(index, k) < exp2(m),
    decreases k,
{
    if k > 0 {
        lemma_ancestor_in_level(index, (k - 1) as nat, m + 1);
    }
}

/// The height and the padded width of a tree over `n` leaves.
pub(crate) fn measure(n: usize) -> (shape: (usize, usize))
    requires
        padded_width(n as nat) <= usize::MAX,
    ensures
        shape.0 == tree_height(n as nat),
        shape.1 == padded_width(n as nat),
{
    let mut height: usize = 1;
    let mut width: usize = 1;
    proof {
        lemma_tree_height_positive(n as nat);
    }
    while width < n
        invariant
            1 <= height <= tree_height(n as nat),
            width == exp2((height - 1) as nat),
            padded_width(n as nat) <= usize::MAX,
        decreases tree_height(n as nat) - height,
    {
        proof {
            lemma_height_above((height - 1) as nat, n as nat);
            lemma_exp2_above_exponent((height - 1) as nat);
            lemma_exp2_monotonic(height as nat, (tree_height(n as nat) - 1) as nat);
        }
        width = width * 2;
        height = height + 1;
    }
    proof {
        lemma_height_below((height - 1) as nat, n as nat);
    }
    (height, width)
}

} // verus!
