//! The mathematical model of a tree: its levels, bottom-up, as sequences of
//! field elements, and the facts about them that the tree rests on.
//!
//! A level of odd length greater than one is padded with a copy of its last
//! entry before it is paired, so every node but the root has a sibling.

use vstd::prelude::*;
use vstd::arithmetic::div_mod::lemma_div_denominator;
use vstd::arithmetic::power2::{pow2, lemma2_to64, lemma_pow2_pos, lemma_pow2_unfold};
use crate::field::FieldElement;
use crate::hasher::{Hasher, node_of};
use crate::index::sibling_of;

verus! {

/// The level above `level`: the hashes of its consecutive pairs. A last
/// entry without a partner is left out.
pub open spec fn pair_up<H: Hasher>(level: Seq<FieldElement>) -> Seq<FieldElement> {
    Seq::new((level.len() / 2) as nat, |i: int| node_of::<H>(level[2 * i], level[2 * i + 1]))
}

/// Whether every entry of `level` has a partner, or `level` is a root.
pub open spec fn is_padded(level: Seq<FieldElement>) -> bool {
    level.len() <= 1 || level.len() % 2 == 0
}

/// `level` with a copy of its last entry appended where that entry has no
/// partner.
pub open spec fn padded(level: Seq<FieldElement>) -> Seq<FieldElement> {
    if is_padded(level) {
        level
    } else {
        level.push(level.last())
    }
}

/// All levels of the tree over the bottom level `level`, bottom-up: each
/// level is the padded pairing of the one below, up to a level of one entry.
pub open spec fn climb<H: Hasher>(level: Seq<FieldElement>) -> Seq<Seq<FieldElement>>
    decreases level.len(),
{
    if level.len() <= 1 {
        seq![level]
    } else {
        seq![level] + climb::<H>(padded(pair_up::<H>(level)))
    }
}

/// The levels of the tree that grows leaf by leaf, once it holds `leaves`.
pub open spec fn grown<H: Hasher>(leaves: Seq<FieldElement>) -> Seq<Seq<FieldElement>> {
    climb::<H>(padded(leaves))
}

/// `x` hashed with itself `times` times: the root of a full subtree of that
/// height whose leaves are all `x`.
pub open spec fn self_hashed<H: Hasher>(x: FieldElement, times: nat) -> FieldElement
    decreases times,
{
    if times == 0 {
        x
    } else {
        let below = self_hashed::<H>(x, (times - 1) as nat);
        node_of::<H>(below, below)
    }
}

/// The levels of a tree of `depth` levels whose leaves are all `x`: level
/// `k` holds `2^(depth-1-k)` copies of `x` hashed with itself `k` times.
pub open spec fn uniform_levels<H: Hasher>(x: FieldElement, depth: nat) -> Seq<Seq<FieldElement>> {
    Seq::new(
        depth,
        |k: int| Seq::new(pow2((depth - 1 - k) as nat), |i: int| self_hashed::<H>(x, k as nat)),
    )
}

/// The number of levels of a tree over `n` bottom entries: 1 for a single
/// entry, else one more than over half as many, rounded up.
pub open spec fn levels_needed(n: nat) -> nat
    decreases n,
{
    if n <= 1 {
        1
    } else {
        1 + levels_needed(((n + 1) / 2) as nat)
    }
}

/// The sibling-list proof for position `index` of level `from`: the sibling
/// at that level, then the parent's sibling, and so on up to the level below
/// the root.
pub open spec fn siblings_from(levels: Seq<Seq<FieldElement>>, from: int, index: int) -> Seq<
    FieldElement,
>
    decreases levels.len() - from,
{
    if from + 1 >= levels.len() {
        Seq::empty()
    } else {
        seq![levels[from][sibling_of(index)]] + siblings_from(levels, from + 1, index / 2)
    }
}

/// The two children, left one first, among which position `index` of a
/// level lies.
pub open spec fn pair_at(level: Seq<FieldElement>, index: int) -> (FieldElement, FieldElement) {
    if index % 2 == 0 {
        (level[index], level[index + 1])
    } else {
        (level[index - 1], level[index])
    }
}

/// The ordered-pair proof for position `index` of level `from`: at each
/// level up to the one below the root, the pair of children that holds the
/// node on the path.
pub open spec fn pairs_from(levels: Seq<Seq<FieldElement>>, from: int, index: int) -> Seq<
    (FieldElement, FieldElement),
>
    decreases levels.len() - from,
{
    if from + 1 >= levels.len() {
        Seq::empty()
    } else {
        seq![pair_at(levels[from], index)] + pairs_from(levels, from + 1, index / 2)
    }
}

/// One step of a verification: the parent of `current`, which stands at
/// position `index`, given its sibling.
pub open spec fn combine<H: Hasher>(current: FieldElement, other: FieldElement, index: int) -> FieldElement {
    if index % 2 == 0 {
        node_of::<H>(current, other)
    } else {
        node_of::<H>(other, current)
    }
}

/// The value that a sibling-list proof leads to, from `current` at position
/// `index` upwards.
pub open spec fn fold_path<H: Hasher>(current: FieldElement, proof: Seq<FieldElement>, index: int) -> FieldElement
    decreases proof.len(),
{
    if proof.len() == 0 {
        current
    } else {
        fold_path::<H>(combine::<H>(current, proof[0], index), proof.drop_first(), index / 2)
    }
}

/// The value that an ordered-pair proof leads to from `current`: each pair
/// is hashed, left one first, to the node of the next level.
pub open spec fn fold_pairs<H: Hasher>(
    current: FieldElement,
    pairs: Seq<(FieldElement, FieldElement)>,
) -> FieldElement
    decreases pairs.len(),
{
    if pairs.len() == 0 {
        current
    } else {
        fold_pairs::<H>(node_of::<H>(pairs[0].0, pairs[0].1), pairs.drop_first())
    }
}

/// Whether an ordered-pair proof is a chain from `current`: the first pair
/// holds `current`, the second the hash of the first, and so on.
pub open spec fn is_chain<H: Hasher>(
    current: FieldElement,
    pairs: Seq<(FieldElement, FieldElement)>,
) -> bool
    decreases pairs.len(),
{
    if pairs.len() == 0 {
        true
    } else {
        &&& pairs[0].0 == current || pairs[0].1 == current
        &&& is_chain::<H>(node_of::<H>(pairs[0].0, pairs[0].1), pairs.drop_first())
    }
}

/// Whether level `k` of `levels` has an even number of entries, at least
/// two, and the level above it is its padded pairing.
pub open spec fn linked_at<H: Hasher>(levels: Seq<Seq<FieldElement>>, k: int) -> bool {
    &&& levels[k].len() >= 2
    &&& levels[k].len() % 2 == 0
    &&& levels[k + 1] == padded(pair_up::<H>(levels[k]))
}

/// Whether `levels` are those of a tree: every level but the top is linked
/// to the one above it, and the top has one entry.
pub open spec fn linked<H: Hasher>(levels: Seq<Seq<FieldElement>>) -> bool {
    &&& levels.len() >= 1
    &&& levels.last().len() == 1
    &&& forall|k: int| 0 <= k < levels.len() - 1 ==> #[trigger] linked_at::<H>(levels, k)
}

/// The levels over a padded, non-empty bottom level are linked, and start
/// with that level.
pub proof fn lemma_climb_linked<H: Hasher>(level: Seq<FieldElement>)
    requires
        is_padded(level),
        level.len() >= 1,
    ensures
        linked::<H>(climb::<H>(level)),
        climb::<H>(level)[0] == level,
        climb::<H>(level).len() == levels_needed(level.len()),
    decreases level.len(),
{
    if level.len() > 1 {
        let above = padded(pair_up::<H>(level));
        let rest = climb::<H>(above);
        lemma_climb_linked::<H>(above);
        lemma_padding_keeps_depth(pair_up::<H>(level).len());
        let levels = climb::<H>(level);
        assert(levels == seq![level] + rest);
        assert(levels.last() == rest.last());
        assert forall|k: int| 0 <= k < levels.len() - 1 implies #[trigger] linked_at::<H>(
            levels,
            k,
        ) by {
            if k > 0 {
                assert(linked_at::<H>(rest, k - 1));
                assert(levels[k] == rest[k - 1]);
                assert(levels[k + 1] == rest[k]);
            } else {
                assert(levels[0] == level);
                assert(levels[1] == rest[0]);
            }
        }
    }
}

/// Padding a level does not change the number of levels over it.
pub proof fn lemma_padding_keeps_depth(n: nat)
    ensures
        levels_needed(if n <= 1 || n % 2 == 0 { n } else { n + 1 }) == levels_needed(n),
{
    if n > 1 && n % 2 == 1 {
        assert((n + 2) / 2 == (n + 1) / 2);
        assert(levels_needed(n + 1) == 1 + levels_needed(((n + 2) / 2) as nat));
    }
}

/// A tree over `n >= 2` entries has `ceil(log2(n)) + 1` levels: `n` lies
/// above `2^(levels-2)` and not above `2^(levels-1)`.
pub proof fn lemma_levels_needed_bounds(n: nat)
    requires
        n >= 2,
    ensures
        levels_needed(n) >= 2,
        pow2((levels_needed(n) - 2) as nat) < n <= pow2((levels_needed(n) - 1) as nat),
    decreases n,
{
    let half = ((n + 1) / 2) as nat;
    if n == 2 {
        assert(levels_needed(1) == 1);
        assert(levels_needed(2) == 2);
        lemma2_to64();
    } else {
        lemma_levels_needed_bounds(half);
        let d = levels_needed(half);
        assert(levels_needed(n) == d + 1);
        lemma_pow2_unfold((d - 1) as nat);
        lemma_pow2_unfold(d);
    }
}

/// A tree over `2^e` entries has `e + 1` levels.
pub proof fn lemma_levels_needed_pow2(e: nat)
    ensures
        levels_needed(pow2(e)) == e + 1,
        pow2(e) == 1 || (pow2(e) >= 2 && pow2(e) % 2 == 0),
    decreases e,
{
    lemma_pow2_pos(e);
    if e == 0 {
        lemma2_to64();
    } else {
        lemma_pow2_unfold(e);
        lemma_levels_needed_pow2((e - 1) as nat);
        assert((pow2(e) + 1) / 2 == pow2((e - 1) as nat));
    }
}

/// On a linked level below the top, a position's sibling lies on the same
/// level, and its parent on the level above.
pub proof fn lemma_step_in_bounds<H: Hasher>(levels: Seq<Seq<FieldElement>>, from: int, index: int)
    requires
        linked::<H>(levels),
        0 <= from < levels.len() - 1,
        0 <= index < levels[from].len(),
    ensures
        0 <= sibling_of(index) < levels[from].len(),
        0 <= index / 2 < levels[from + 1].len(),
        levels[from + 1][index / 2] == combine::<H>(
            levels[from][index],
            levels[from][sibling_of(index)],
            index,
        ),
{
    assert(linked_at::<H>(levels, from));
    let level = levels[from];
    let j = index / 2;
    assert(pair_up::<H>(level)[j] == node_of::<H>(level[2 * j], level[2 * j + 1]));
    assert(levels[from + 1][j] == pair_up::<H>(level)[j]);
}

/// The sibling-list proof of a position leads from the entry at that
/// position to the root, and has one element for each level below the top.
pub proof fn lemma_path_reaches_root<H: Hasher>(
    levels: Seq<Seq<FieldElement>>,
    from: int,
    index: int,
)
    requires
        linked::<H>(levels),
        0 <= from < levels.len(),
        0 <= index < levels[from].len(),
    ensures
        fold_path::<H>(levels[from][index], siblings_from(levels, from, index), index)
            == levels.last()[0],
        siblings_from(levels, from, index).len() == levels.len() - 1 - from,
        pairs_from(levels, from, index).len() == levels.len() - 1 - from,
    decreases levels.len() - from,
{
    if from + 1 < levels.len() {
        lemma_step_in_bounds::<H>(levels, from, index);
        let path = siblings_from(levels, from, index);
        let rest = siblings_from(levels, from + 1, index / 2);
        assert(path.drop_first() =~= rest);
        lemma_path_reaches_root::<H>(levels, from + 1, index / 2);
    }
}

/// Element `k` of a sibling-list proof is a plain lookup: the sibling of
/// the position halved `k` times, on the level `k` above the start.
pub proof fn lemma_sibling_positions(
    levels: Seq<Seq<FieldElement>>,
    from: int,
    index: int,
    k: int,
)
    requires
        0 <= from,
        0 <= index,
        0 <= k,
        from + k + 1 < levels.len(),
    ensures
        siblings_from(levels, from, index).len() == levels.len() - 1 - from,
        siblings_from(levels, from, index)[k] == levels[from + k][sibling_of(
            index / (pow2(k as nat) as int),
        )],
    decreases k,
{
    lemma_siblings_len(levels, from, index);
    if k == 0 {
        lemma2_to64();
    } else {
        lemma_sibling_positions(levels, from + 1, index / 2, k - 1);
        lemma_pow2_unfold(k as nat);
        lemma_pow2_pos((k - 1) as nat);
        lemma_div_denominator(index, 2, pow2((k - 1) as nat) as int);
        let path = siblings_from(levels, from, index);
        let rest = siblings_from(levels, from + 1, index / 2);
        assert(path[k] == rest[k - 1]);
    }
}

/// A sibling-list proof has one element for each level from its start to
/// the level below the top.
pub proof fn lemma_siblings_len(levels: Seq<Seq<FieldElement>>, from: int, index: int)
    requires
        0 <= from < levels.len(),
    ensures
        siblings_from(levels, from, index).len() == levels.len() - 1 - from,
    decreases levels.len() - from,
{
    if from + 1 < levels.len() {
        lemma_siblings_len(levels, from + 1, index / 2);
    }
}

/// The ordered-pair proof of a position is a chain from the entry at that
/// position to the root.
pub proof fn lemma_pairs_reach_root<H: Hasher>(
    levels: Seq<Seq<FieldElement>>,
    from: int,
    index: int,
)
    requires
        linked::<H>(levels),
        0 <= from < levels.len(),
        0 <= index < levels[from].len(),
    ensures
        is_chain::<H>(levels[from][index], pairs_from(levels, from, index)),
        fold_pairs::<H>(levels[from][index], pairs_from(levels, from, index)) == levels.last()[0],
    decreases levels.len() - from,
{
    if from + 1 < levels.len() {
        lemma_step_in_bounds::<H>(levels, from, index);
        let pairs = pairs_from(levels, from, index);
        let rest = pairs_from(levels, from + 1, index / 2);
        assert(pairs.drop_first() =~= rest);
        assert(pairs[0] == pair_at(levels[from], index));
        lemma_pairs_reach_root::<H>(levels, from + 1, index / 2);
    }
}

/// Hashing `x` with itself once and then `times` times is hashing it with
/// itself `times + 1` times.
pub proof fn lemma_self_hashed_shift<H: Hasher>(x: FieldElement, times: nat)
    ensures
        self_hashed::<H>(node_of::<H>(x, x), times) == self_hashed::<H>(x, times + 1),
    decreases times,
{
    if times > 0 {
        lemma_self_hashed_shift::<H>(x, (times - 1) as nat);
    } else {
        assert(self_hashed::<H>(x, 1) == node_of::<H>(
            self_hashed::<H>(x, 0),
            self_hashed::<H>(x, 0),
        ));
    }
}

/// The tree over `2^e` copies of `x` has `e + 1` levels, each uniform.
pub proof fn lemma_uniform_climb<H: Hasher>(x: FieldElement, e: nat)
    ensures
        climb::<H>(Seq::new(pow2(e), |i: int| x)) == uniform_levels::<H>(x, e + 1),
    decreases e,
{
    let level = Seq::new(pow2(e), |i: int| x);
    let target = uniform_levels::<H>(x, e + 1);
    lemma_pow2_pos(e);
    assert(target[0] =~= level);
    if e == 0 {
        lemma2_to64();
        assert(climb::<H>(level) =~= target);
    } else {
        lemma_pow2_unfold(e);
        lemma_levels_needed_pow2((e - 1) as nat);
        let y = node_of::<H>(x, x);
        let above = Seq::new(pow2((e - 1) as nat), |i: int| y);
        assert(pair_up::<H>(level) =~= above);
        lemma_uniform_climb::<H>(y, (e - 1) as nat);
        let rest = uniform_levels::<H>(y, e);
        assert(climb::<H>(level) == seq![level] + rest);
        assert forall|k: int| 1 <= k < e + 1 implies #[trigger] target[k] == rest[k - 1] by {
            lemma_self_hashed_shift::<H>(x, (k - 1) as nat);
            assert(target[k] =~= rest[k - 1]);
        }
        assert(climb::<H>(level) =~= target);
    }
}

} // verus!
