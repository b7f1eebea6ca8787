//! The tree: levels of hashes kept bottom-up, rebuilt above the leaves after
//! every insertion.

use core::marker::PhantomData;
use vstd::prelude::*;
use vstd::arithmetic::power2::{
    pow2, lemma_pow2_pos, lemma_pow2_strictly_increases, lemma_pow2_unfold, lemma2_to64,
};
use crate::field::{FieldElement, field_zero, zero_element};
use crate::hasher::Hasher;
use crate::index::{is_left_child, parent, sibling};
use crate::levels::{
    climb, fold_path, grown, is_padded, lemma_climb_linked, lemma_levels_needed_pow2,
    lemma_step_in_bounds, lemma_uniform_climb, linked, padded, pair_up, pairs_from, self_hashed,
    siblings_from, uniform_levels,
};

verus! {

pub type Hash = FieldElement;

/// `Clone::clone` of `PhantomData`: the marker has a single value, so the
/// copy is the same marker.
pub assume_specification<T: core::marker::PointeeSized>[ <core::marker::PhantomData<
    T,
> as core::clone::Clone>::clone ](marker: &core::marker::PhantomData<T>) -> (r:
    core::marker::PhantomData<T>)
    ensures
        r == *marker,
;

/// Why a query on a tree was refused.
#[derive(Clone, Copy, Debug, PartialEq, Eq, Structural)]
pub enum TreeError {
    /// The tree has no level yet.
    EmptyTree,
    /// The position is not that of an inserted leaf.
    IndexOutOfRange,
    /// The proof does not have one element for each level below the root.
    StructuralMismatch,
}

/// An append-only Merkle tree over the hash engine `H`.
///
/// A tree made by `new` grows with its leaves: a level of odd length is
/// padded with a copy of its last entry. A tree made by `build_empty_tree`
/// has a fixed number of levels and leaf slots, all slots zero until a leaf
/// is written into them.
#[derive(Debug, Clone)]
pub struct MerkleTree<H: Hasher> {
    tree: Vec<Vec<Hash>>,
    leaves_count: usize,
    empty_hashes: Vec<Hash>,
    engine: PhantomData<H>,
}

/// The levels held in `tree`, each as a sequence.
pub open spec fn levels_of(tree: Seq<Vec<Hash>>) -> Seq<Seq<FieldElement>> {
    Seq::new(tree.len(), |k: int| tree[k]@)
}

/// The hashes of the consecutive pairs of `level`.
fn hash_pairs<H: Hasher>(level: &Vec<Hash>) -> (row: Vec<Hash>)
    requires
        level@.len() % 2 == 0,
    ensures
        row@ == pair_up::<H>(level@),
{
    let n = level.len();
    let mut row: Vec<Hash> = Vec::with_capacity(n / 2);
    let mut i: usize = 0;
    while i < n
        invariant
            n == level@.len(),
            n % 2 == 0,
            i % 2 == 0,
            i <= n,
            row@.len() == i / 2,
            forall|j: int|
                0 <= j < row@.len() ==> row@[j] == pair_up::<H>(level@)[j],
        decreases n - i,
    {
        let internal_node = H::concat_and_hash(&level[i], &level[i + 1]);
        row.push(internal_node);
        i += 2;
    }
    assert(row@ =~= pair_up::<H>(level@));
    row
}

impl<H: Hasher> MerkleTree<H> {
    /// The levels of the tree, leaves first.
    pub closed spec fn levels(&self) -> Seq<Seq<FieldElement>> {
        levels_of(self.tree@)
    }

    /// The number of leaves inserted so far.
    pub closed spec fn count(&self) -> nat {
        self.leaves_count as nat
    }

    /// Whether the tree was made with a fixed number of levels.
    pub closed spec fn is_fixed(&self) -> bool {
        self.empty_hashes@.len() > 0
    }

    /// Whether the cached hash of each level's empty subtree is the zero
    /// element hashed with itself once per level below.
    pub closed spec fn cache_is_valid(&self) -> bool {
        self.is_fixed() ==> {
            &&& self.empty_hashes@.len() == self.tree@.len()
            &&& forall|k: int|
                0 <= k < self.empty_hashes@.len() ==> self.empty_hashes@[k] == self_hashed::<H>(
                    zero_element(),
                    k as nat,
                )
        }
    }

    /// The hashes of the inserted leaves, in the order of insertion.
    pub open spec fn leaves(&self) -> Seq<FieldElement> {
        if self.levels().len() == 0 {
            Seq::empty()
        } else {
            self.levels()[0].take(self.count() as int)
        }
    }

    /// The root: the single entry of the top level.
    pub open spec fn spec_root(&self) -> FieldElement
        recommends
            self.levels().len() > 0,
    {
        self.levels().last()[0]
    }

    /// Whether every leaf slot of a fixed tree is taken.
    pub open spec fn spec_is_full(&self) -> bool {
        self.is_fixed() && self.count() >= self.capacity()
    }

    /// The number of leaf slots.
    pub open spec fn capacity(&self) -> nat
        recommends
            self.levels().len() > 0,
    {
        self.levels()[0].len()
    }

    /// The invariant of the tree. A tree without levels is a growing tree
    /// without leaves. Otherwise every level above the leaves is derived
    /// from the one below. A growing tree holds at least one leaf, and its
    /// bottom level is the padded sequence of its leaves. A fixed tree of
    /// `d` levels has `2^(d-1)` leaf slots, zero from the first free one on.
    pub open spec fn wf(&self) -> bool {
        &&& self.cache_is_valid()
        &&& if self.levels().len() == 0 {
            self.count() == 0 && !self.is_fixed()
        } else {
            &&& self.levels() == climb::<H>(self.levels()[0])
            &&& self.count() <= self.capacity()
            &&& if self.is_fixed() {
                &&& self.capacity() == pow2((self.levels().len() - 1) as nat)
                &&& forall|i: int|
                    self.count() <= i < self.capacity() ==> self.levels()[0][i] == zero_element()
            } else {
                &&& self.count() >= 1
                &&& self.levels()[0] == padded(self.leaves())
            }
        }
    }

    /// A growing tree without leaves.
    pub fn new() -> (t: Self)
        ensures
            t.wf(),
            !t.is_fixed(),
            t.levels().len() == 0,
            t.count() == 0,
    {
        Self { tree: Vec::new(), leaves_count: 0, empty_hashes: Vec::new(), engine: PhantomData }
    }

    /// Appends the hash of `leaf` as the next leaf and derives every level
    /// above the leaves anew. A leaf of one element is stored under its leaf
    /// hash. In a fixed tree the hash takes the first free slot; a growing
    /// tree drops the padding of its bottom level, appends the hash and pads
    /// again.
    pub fn insert_leaf<const N: usize>(&mut self, leaf: [FieldElement; N])
        requires
            old(self).wf(),
            !old(self).spec_is_full(),
        ensures
            final(self).wf(),
            final(self).is_fixed() == old(self).is_fixed(),
            final(self).count() == old(self).count() + 1,
            final(self).leaves() == old(self).leaves().push(H::spec_hash(leaf@)),
            forall|j: int|
                0 <= j < old(self).count() ==> final(self).leaves()[j] == old(self).leaves()[j],
            final(self).is_fixed() ==> final(self).levels() == climb::<H>(
                old(self).levels()[0].update(old(self).count() as int, H::spec_hash(leaf@)),
            ),
            !final(self).is_fixed() ==> final(self).levels() == grown::<H>(final(self).leaves()),
            final(self).levels().len() >= 1,
            final(self).is_fixed() ==> final(self).levels().len() == old(self).levels().len(),
    {
        let h = H::hash(leaf);
        let ghost old_leaves = self.leaves();
        let ghost old_levels = self.levels();
        if self.empty_hashes.len() > 0 {
            proof {
                lemma_levels_needed_pow2((old_levels.len() - 1) as nat);
            }
            self.tree[0].set(self.leaves_count, h);
            let slots = self.tree[0].len();
            assert(self.leaves_count < slots);
            self.leaves_count += 1;
            assert(self.tree@[0]@ == old_levels[0].update(old(self).count() as int, h));
            assert(self.tree@[0]@.take(self.leaves_count as int) =~= old_leaves.push(h));
        } else {
            if self.tree.len() == 0 {
                let mut level: Vec<Hash> = Vec::new();
                level.push(h);
                self.tree.push(level);
            } else {
                self.tree[0].truncate(self.leaves_count);
                self.tree[0].push(h);
            }
            assert(self.tree@[0]@ =~= old_leaves.push(h));
            self.leaves_count = self.tree[0].len();
            if self.leaves_count > 1 && self.leaves_count % 2 != 0 {
                self.tree[0].push(h);
            }
            assert(self.tree@[0]@.take(self.leaves_count as int) =~= old_leaves.push(h));
            assert(self.tree@[0]@ =~= padded(old_leaves.push(h)));
        }
        proof {
            lemma_climb_linked::<H>(self.tree@[0]@);
        }
        Self::build_tree(&mut self.tree);
        assert(self.levels()[0] == self.tree@[0]@);
    }

    /// Drops every level above the leaves and derives them anew, up to the root.
    fn build_tree(tree: &mut Vec<Vec<Hash>>)
        requires
            old(tree)@.len() >= 1,
            old(tree)@[0]@.len() >= 1,
            is_padded(old(tree)@[0]@),
        ensures
            final(tree)@.len() >= 1,
            final(tree)@[0] == old(tree)@[0],
            levels_of(final(tree)@) == climb::<H>(old(tree)@[0]@),
    {
        tree.truncate(1);
        let ghost bottom = tree@[0]@;
        let mut idx: usize = 0;
        let mut n: usize = tree[0].len();
        assert(levels_of(tree@).drop_last() + climb::<H>(tree@[0]@) =~= climb::<H>(bottom));
        while n != 1
            invariant
                old(tree)@.len() >= 1,
                tree@.len() == idx + 1,
                tree@[0] == old(tree)@[0],
                bottom == old(tree)@[0]@,
                n == tree@[idx as int]@.len(),
                n >= 1,
                is_padded(tree@[idx as int]@),
                levels_of(tree@).drop_last() + climb::<H>(tree@[idx as int]@) == climb::<H>(bottom),
            decreases n,
        {
            let ghost before = levels_of(tree@);
            let ghost current = tree@[idx as int]@;
            let mut row = hash_pairs::<H>(&tree[idx]);
            if row.len() > 1 && row.len() % 2 != 0 {
                let last = row[row.len() - 1];
                row.push(last);
            }
            assert(row@ =~= padded(pair_up::<H>(current)));
            n = row.len();
            tree.push(row);
            idx = tree.len() - 1;
            proof {
                let after = levels_of(tree@);
                assert(after.drop_last() =~= before);
                assert(before =~= before.drop_last().push(current));
                assert(after.drop_last() + climb::<H>(tree@[idx as int]@) =~= before.drop_last()
                    + climb::<H>(current));
            }
        }
        assert(levels_of(tree@) =~= levels_of(tree@).drop_last() + climb::<H>(tree@[idx as int]@));
    }

    /// The number of leaves inserted so far.
    pub fn leaves_count(&self) -> (n: usize)
        ensures
            n == self.count(),
    {
        self.leaves_count
    }

    /// The number of levels, the leaves' and the root's included; 0 before
    /// the first level exists.
    pub fn depth(&self) -> (d: usize)
        ensures
            d == self.levels().len(),
    {
        self.tree.len()
    }

    /// Whether every leaf slot of a fixed tree is taken, so that it takes
    /// no further leaf. A growing tree is never full.
    pub fn is_full(&self) -> (full: bool)
        requires
            self.wf(),
        ensures
            full == self.spec_is_full(),
    {
        self.empty_hashes.len() > 0 && self.leaves_count >= self.tree[0].len()
    }

    /// The hash of the leaf inserted at position `leaf_index`.
    pub fn value(&self, leaf_index: usize) -> (r: Result<Hash, TreeError>)
        requires
            self.wf(),
        ensures
            self.levels().len() == 0 ==> r == Err::<Hash, TreeError>(TreeError::EmptyTree),
            self.levels().len() > 0 && leaf_index >= self.count() ==> r == Err::<Hash, TreeError>(
                TreeError::IndexOutOfRange,
            ),
            self.levels().len() > 0 && leaf_index < self.count() ==> r == Ok::<Hash, TreeError>(
                self.leaves()[leaf_index as int],
            ),
    {
        if self.tree.len() == 0 {
            Err(TreeError::EmptyTree)
        } else if leaf_index >= self.leaves_count {
            Err(TreeError::IndexOutOfRange)
        } else {
            Ok(self.tree[0][leaf_index])
        }
    }

    /// The root of the tree.
    pub fn root(&self) -> (r: Result<Hash, TreeError>)
        requires
            self.wf(),
        ensures
            self.levels().len() == 0 ==> r == Err::<Hash, TreeError>(TreeError::EmptyTree),
            self.levels().len() > 0 ==> r == Ok::<Hash, TreeError>(self.spec_root()),
    {
        if self.tree.len() == 0 {
            Err(TreeError::EmptyTree)
        } else {
            proof {
                self.lemma_linked();
            }
            Ok(self.tree[self.tree.len() - 1][0])
        }
    }

    /// A fixed tree of `depth` levels without leaves: `2^(depth-1)` zero
    /// leaf slots, and above them the hashes of the empty subtrees. The hash
    /// of each level's empty subtree is cached.
    pub fn build_empty_tree(depth: u32) -> (t: MerkleTree<H>)
        requires
            depth >= 1,
            pow2((depth - 1) as nat) <= usize::MAX,
        ensures
            t.wf(),
            t.is_fixed(),
            t.count() == 0,
            t.levels() == uniform_levels::<H>(zero_element(), depth as nat),
            t.levels().len() == depth,
            t.spec_root() == self_hashed::<H>(zero_element(), (depth - 1) as nat),
    {
        let mut tree = MerkleTree::new();
        let zero = field_zero();
        let mut current_level: Vec<Hash> = Vec::new();
        current_level.push(zero);
        let mut exponent: u32 = 0;
        proof {
            lemma2_to64();
        }
        while exponent < depth - 1
            invariant
                exponent <= depth - 1,
                pow2((depth - 1) as nat) <= usize::MAX,
                current_level@.len() == pow2(exponent as nat),
                forall|i: int| 0 <= i < current_level@.len() ==> current_level@[i] == zero,
            decreases depth - 1 - exponent,
        {
            proof {
                lemma_pow2_unfold((exponent + 1) as nat);
                if exponent + 1 < depth - 1 {
                    lemma_pow2_strictly_increases((exponent + 1) as nat, (depth - 1) as nat);
                }
            }
            let half = current_level.len();
            let mut i: usize = 0;
            while i < half
                invariant
                    i <= half,
                    2 * half <= usize::MAX,
                    current_level@.len() == half + i,
                    forall|i: int| 0 <= i < current_level@.len() ==> current_level@[i] == zero,
                decreases half - i,
            {
                current_level.push(zero);
                i += 1;
            }
            exponent += 1;
        }
        let ghost bottom = current_level@;
        proof {
            lemma_pow2_pos((depth - 1) as nat);
            lemma_levels_needed_pow2((depth - 1) as nat);
            lemma_uniform_climb::<H>(zero_element(), (depth - 1) as nat);
            lemma_climb_linked::<H>(bottom);
            assert(bottom =~= Seq::new(pow2((depth - 1) as nat), |i: int| zero_element()));
        }
        tree.tree.push(current_level);
        Self::build_tree(&mut tree.tree);
        assert(levels_of(tree.tree@).len() == depth);
        let mut level: usize = 0;
        while level < tree.tree.len()
            invariant
                level <= tree.tree@.len(),
                tree.tree@.len() == depth,
                tree.leaves_count == 0,
                tree.empty_hashes@.len() == level,
                levels_of(tree.tree@) == uniform_levels::<H>(zero_element(), depth as nat),
                forall|k: int|
                    0 <= k < level ==> tree.empty_hashes@[k] == self_hashed::<H>(
                        zero_element(),
                        k as nat,
                    ),
            decreases tree.tree@.len() - level,
        {
            proof {
                lemma_pow2_pos((depth - 1 - level) as nat);
                let uniform = uniform_levels::<H>(zero_element(), depth as nat);
                assert(levels_of(tree.tree@)[level as int] == tree.tree@[level as int]@);
                assert(uniform[level as int].len() == pow2((depth - 1 - level) as nat));
                assert(uniform[level as int][0] == self_hashed::<H>(zero_element(), level as nat));
            }
            let empty = tree.tree[level][0];
            tree.empty_hashes.push(empty);
            level += 1;
        }
        assert(tree.levels()[0] == bottom);
        tree
    }

    /// The sibling-list proof for the leaf at `leaf_index`: the sibling at
    /// each level from the leaves to the level below the root.
    pub fn opening_orig(&self, leaf_index: usize) -> (r: Result<Vec<Hash>, TreeError>)
        requires
            self.wf(),
        ensures
            self.levels().len() == 0 ==> r == Err::<Vec<Hash>, TreeError>(TreeError::EmptyTree),
            self.levels().len() > 0 && leaf_index >= self.count() ==> r == Err::<
                Vec<Hash>,
                TreeError,
            >(TreeError::IndexOutOfRange),
            self.levels().len() > 0 && leaf_index < self.count() ==> r.is_ok() && r.unwrap()@
                == siblings_from(self.levels(), 0, leaf_index as int),
    {
        if self.tree.len() == 0 {
            return Err(TreeError::EmptyTree);
        }
        if leaf_index >= self.leaves_count {
            return Err(TreeError::IndexOutOfRange);
        }
        proof {
            self.lemma_linked();
        }
        let mut opening: Vec<Hash> = Vec::new();
        let top = self.tree.len() - 1;
        let mut index = leaf_index;
        let mut k: usize = 0;
        while k < top
            invariant
                self.wf(),
                linked::<H>(self.levels()),
                top == self.tree@.len() - 1,
                k <= top,
                index < self.levels()[k as int].len(),
                opening@ + siblings_from(self.levels(), k as int, index as int) == siblings_from(
                    self.levels(),
                    0,
                    leaf_index as int,
                ),
            decreases top - k,
        {
            proof {
                lemma_step_in_bounds::<H>(self.levels(), k as int, index as int);
            }
            let ghost before = opening@;
            let level = &self.tree[k];
            if index % 2 != 0 {
                opening.push(level[index - 1]);
            } else {
                opening.push(level[index + 1]);
            }
            assert(opening@ + siblings_from(self.levels(), k + 1, index as int / 2) =~= before
                + siblings_from(self.levels(), k as int, index as int));
            index /= 2;
            k += 1;
        }
        assert(opening@ =~= opening@ + siblings_from(self.levels(), k as int, index as int));
        Ok(opening)
    }

    /// The ordered-pair proof for the leaf at `leaf_index`: at each level
    /// from the leaves to the level below the root, the node on the path
    /// and its sibling, left one first.
    pub fn opening(&self, leaf_index: u32) -> (r: Result<Vec<(Hash, Hash)>, TreeError>)
        requires
            self.wf(),
        ensures
            self.levels().len() == 0 ==> r == Err::<Vec<(Hash, Hash)>, TreeError>(
                TreeError::EmptyTree,
            ),
            self.levels().len() > 0 && leaf_index >= self.count() ==> r == Err::<
                Vec<(Hash, Hash)>,
                TreeError,
            >(TreeError::IndexOutOfRange),
            self.levels().len() > 0 && leaf_index < self.count() ==> r.is_ok() && r.unwrap()@
                == pairs_from(self.levels(), 0, leaf_index as int),
    {
        if self.tree.len() == 0 {
            return Err(TreeError::EmptyTree);
        }
        if leaf_index as usize >= self.leaves_count {
            return Err(TreeError::IndexOutOfRange);
        }
        proof {
            self.lemma_linked();
        }
        let mut path: Vec<(Hash, Hash)> = Vec::new();
        let top = self.tree.len() - 1;
        let mut current_node = leaf_index;
        let mut k: usize = 0;
        while k < top
            invariant
                self.wf(),
                linked::<H>(self.levels()),
                top == self.tree@.len() - 1,
                k <= top,
                current_node < self.levels()[k as int].len(),
                path@ + pairs_from(self.levels(), k as int, current_node as int) == pairs_from(
                    self.levels(),
                    0,
                    leaf_index as int,
                ),
            decreases top - k,
        {
            proof {
                lemma_step_in_bounds::<H>(self.levels(), k as int, current_node as int);
            }
            let ghost before = path@;
            let level = &self.tree[k];
            let sibling_node = sibling(current_node).unwrap();
            let current = level[current_node as usize];
            let sibling = level[sibling_node as usize];
            if is_left_child(current_node) {
                path.push((current, sibling));
            } else {
                path.push((sibling, current));
            }
            assert(path@ + pairs_from(self.levels(), k + 1, current_node as int / 2) =~= before
                + pairs_from(self.levels(), k as int, current_node as int));
            current_node = parent(current_node).unwrap();
            k += 1;
        }
        assert(path@ =~= path@ + pairs_from(self.levels(), k as int, current_node as int));
        Ok(path)
    }

    /// Checks a sibling-list proof for the leaf at `leaf_index` against the
    /// root: folds the proof into the stored leaf, level by level, and
    /// compares what comes out with the root.
    pub fn try_verify(&self, proof: &Vec<Hash>, leaf_index: usize) -> (r: Result<bool, TreeError>)
        requires
            self.wf(),
        ensures
            self.levels().len() == 0 ==> r == Err::<bool, TreeError>(TreeError::EmptyTree),
            self.levels().len() > 0 && leaf_index >= self.count() ==> r == Err::<bool, TreeError>(
                TreeError::IndexOutOfRange,
            ),
            self.levels().len() > 0 && leaf_index < self.count() && proof@.len()
                != self.levels().len() - 1 ==> r == Err::<bool, TreeError>(
                TreeError::StructuralMismatch,
            ),
            self.levels().len() > 0 && leaf_index < self.count() && proof@.len()
                == self.levels().len() - 1 ==> r == Ok::<bool, TreeError>(
                fold_path::<H>(self.leaves()[leaf_index as int], proof@, leaf_index as int)
                    == self.spec_root(),
            ),
    {
        if self.tree.len() == 0 {
            return Err(TreeError::EmptyTree);
        }
        if leaf_index >= self.leaves_count {
            return Err(TreeError::IndexOutOfRange);
        }
        if proof.len() != self.tree.len() - 1 {
            return Err(TreeError::StructuralMismatch);
        }
        proof {
            self.lemma_linked();
        }
        let mut prev = self.tree[0][leaf_index];
        let mut index = leaf_index;
        let mut k: usize = 0;
        assert(proof@.skip(0) =~= proof@);
        assert(prev == self.leaves()[leaf_index as int]);
        while k < proof.len()
            invariant
                k <= proof@.len(),
                self.levels().len() > 0,
                leaf_index < self.count() <= self.capacity(),
                fold_path::<H>(prev, proof@.skip(k as int), index as int) == fold_path::<H>(
                    self.leaves()[leaf_index as int],
                    proof@,
                    leaf_index as int,
                ),
            decreases proof@.len() - k,
        {
            let node = &proof[k];
            assert(proof@.skip(k as int).drop_first() =~= proof@.skip(k + 1));
            if index % 2 == 0 {
                prev = H::concat_and_hash(&prev, node);
            } else {
                prev = H::concat_and_hash(node, &prev);
            }
            index /= 2;
            k += 1;
        }
        Ok(prev == self.tree[self.tree.len() - 1][0])
    }

    /// Whether `proof` is a sibling-list proof that leads from the leaf at
    /// `leaf_index` to the root. A proof of the wrong length, a position
    /// without a leaf and a tree without levels give `false`.
    pub fn verify(&self, proof: Vec<Hash>, leaf_index: usize) -> (ok: bool)
        requires
            self.wf(),
        ensures
            ok == (self.levels().len() > 0 && leaf_index < self.count() && proof@.len()
                == self.levels().len() - 1 && fold_path::<H>(
                self.leaves()[leaf_index as int],
                proof@,
                leaf_index as int,
            ) == self.spec_root()),
    {
        match self.try_verify(&proof, leaf_index) {
            Ok(ok) => ok,
            Err(_) => false,
        }
    }

    /// The levels of a valid tree that has any are linked.
    pub proof fn lemma_linked(&self)
        requires
            self.wf(),
            self.levels().len() > 0,
        ensures
            linked::<H>(self.levels()),
    {
        if self.is_fixed() {
            lemma_levels_needed_pow2((self.levels().len() - 1) as nat);
        }
        lemma_climb_linked::<H>(self.levels()[0]);
    }
}

} // verus!
