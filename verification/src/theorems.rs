//! What holds of every valid tree, stated over its levels and leaves.

use vstd::prelude::*;
use vstd::arithmetic::power2::{pow2, lemma_pow2_pos};
use crate::hasher::Hasher;
use crate::incremental_merkle_tree::MerkleTree;
use crate::levels::{
    fold_pairs, fold_path, grown, is_chain, lemma_climb_linked, lemma_levels_needed_bounds,
    lemma_levels_needed_pow2, lemma_padding_keeps_depth, lemma_pairs_reach_root,
    lemma_path_reaches_root, lemma_sibling_positions, padded, pairs_from, siblings_from,
};
use crate::index::sibling_of;

verus! {

/// A growing tree with one leaf has one level. With `n >= 2` leaves it has
/// `ceil(log2(n)) + 1` levels: `n` lies above `2^(depth-2)` and not above
/// `2^(depth-1)`.
pub proof fn theorem_depth_of_growing_tree<H: Hasher>(t: &MerkleTree<H>)
    requires
        t.wf(),
        !t.is_fixed(),
        t.count() >= 1,
    ensures
        t.count() == 1 ==> t.levels().len() == 1,
        t.count() >= 2 ==> t.levels().len() >= 2 && pow2((t.levels().len() - 2) as nat)
            < t.count() <= pow2((t.levels().len() - 1) as nat),
{
    lemma_climb_linked::<H>(padded(t.leaves()));
    lemma_padding_keeps_depth(t.count());
    if t.count() >= 2 {
        lemma_levels_needed_bounds(t.count());
    }
}

/// The sibling-list proof of every inserted leaf has one element for each
/// level below the root, and folding it into that leaf gives the root: the
/// opening of a leaf verifies against the tree it was taken from.
pub proof fn theorem_opening_verifies<H: Hasher>(t: &MerkleTree<H>, leaf_index: int)
    requires
        t.wf(),
        0 <= leaf_index < t.count(),
    ensures
        t.levels().len() >= 1,
        siblings_from(t.levels(), 0, leaf_index).len() == t.levels().len() - 1,
        fold_path::<H>(
            t.leaves()[leaf_index],
            siblings_from(t.levels(), 0, leaf_index),
            leaf_index,
        ) == t.spec_root(),
{
    t.lemma_linked();
    lemma_path_reaches_root::<H>(t.levels(), 0, leaf_index);
}

/// Each element of a leaf's sibling-list proof is a stored entry: on level
/// `k`, the sibling of the leaf's position halved `k` times.
pub proof fn theorem_opening_is_a_lookup<H: Hasher>(t: &MerkleTree<H>, leaf_index: int, k: int)
    requires
        t.wf(),
        0 <= leaf_index < t.count(),
        0 <= k < t.levels().len() - 1,
    ensures
        siblings_from(t.levels(), 0, leaf_index)[k] == t.levels()[k][sibling_of(
            leaf_index / (pow2(k as nat) as int),
        )],
{
    lemma_sibling_positions(t.levels(), 0, leaf_index, k);
}

/// The ordered-pair proof of every inserted leaf has one pair for each
/// level below the root. Its first pair holds the leaf, each later pair the
/// hash of the pair before, and the hash of the last pair is the root.
pub proof fn theorem_ordered_pairs_reach_root<H: Hasher>(t: &MerkleTree<H>, leaf_index: int)
    requires
        t.wf(),
        0 <= leaf_index < t.count(),
    ensures
        t.levels().len() >= 1,
        pairs_from(t.levels(), 0, leaf_index).len() == t.levels().len() - 1,
        is_chain::<H>(t.leaves()[leaf_index], pairs_from(t.levels(), 0, leaf_index)),
        fold_pairs::<H>(t.leaves()[leaf_index], pairs_from(t.levels(), 0, leaf_index))
            == t.spec_root(),
{
    t.lemma_linked();
    lemma_path_reaches_root::<H>(t.levels(), 0, leaf_index);
    lemma_pairs_reach_root::<H>(t.levels(), 0, leaf_index);
}

/// The levels of a tree that holds leaves, and so its root and its depth,
/// are a function of the sequence of its leaves alone, whether the tree
/// grew with them or was made with exactly as many slots and is full.
pub proof fn theorem_levels_follow_from_leaves<H: Hasher>(t: &MerkleTree<H>)
    requires
        t.wf(),
        t.count() >= 1,
        t.is_fixed() ==> t.spec_is_full(),
    ensures
        t.levels() == grown::<H>(t.leaves()),
        t.spec_root() == grown::<H>(t.leaves()).last()[0],
{
    if t.is_fixed() {
        lemma_levels_needed_pow2((t.levels().len() - 1) as nat);
        assert(t.leaves() =~= t.levels()[0]);
    }
}

/// Two trees with the same leaves, each grown or full, have the same
/// levels, and so the same root and depth, whatever capacity either was
/// made with.
pub proof fn theorem_same_leaves_same_root<H: Hasher>(a: &MerkleTree<H>, b: &MerkleTree<H>)
    requires
        a.wf(),
        b.wf(),
        a.leaves() == b.leaves(),
        a.is_fixed() ==> a.spec_is_full(),
        b.is_fixed() ==> b.spec_is_full(),
    ensures
        a.levels() == b.levels(),
        a.spec_root() == b.spec_root(),
{
    lemma_holds_leaves(a);
    lemma_holds_leaves(b);
    if a.leaves().len() >= 1 {
        theorem_levels_follow_from_leaves(a);
        theorem_levels_follow_from_leaves(b);
    } else {
        assert(a.levels() =~= b.levels());
    }
}

/// A tree, grown or full, has levels exactly when it has leaves, and as
/// many leaves as it counts.
proof fn lemma_holds_leaves<H: Hasher>(t: &MerkleTree<H>)
    requires
        t.wf(),
        t.is_fixed() ==> t.spec_is_full(),
    ensures
        t.leaves().len() == t.count(),
        t.count() == 0 <==> t.levels().len() == 0,
{
    if t.is_fixed() {
        lemma_pow2_pos((t.levels().len() - 1) as nat);
    }
}

} // verus!
