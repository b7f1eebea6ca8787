use ark_bn254::Fr;
use ark_ff::{BigInt, PrimeField, Zero};
use incremental_merkle_tree::field::FieldElement;
use incremental_merkle_tree::hasher::{Hasher, Tuple};
use incremental_merkle_tree::incremental_merkle_tree::{MerkleTree, TreeError};

/// A small deterministic engine: it starts from the tuple's length, so that
/// a leaf never hashes like a node, and cubes as it goes, so that the order
/// of the elements matters.
#[derive(Clone, Debug)]
struct Cubic;

fn to_fr(e: FieldElement) -> Fr {
    Fr::from_bigint(BigInt::new([e.l0, e.l1, e.l2, e.l3])).unwrap()
}

fn from_fr(f: Fr) -> FieldElement {
    let b = f.into_bigint().0;
    FieldElement { l0: b[0], l1: b[1], l2: b[2], l3: b[3] }
}

fn elem(n: u64) -> FieldElement {
    from_fr(Fr::from(n))
}

impl Hasher for Cubic {
    type Hash = FieldElement;

    fn spec_hash(_data: Tuple) -> FieldElement {
        panic!("the model of the engine is never run")
    }

    fn hash<const N: usize>(data: [FieldElement; N]) -> FieldElement {
        let mut acc = Fr::from(N as u64);
        for e in data {
            let x = acc + to_fr(e);
            acc = x * x * x + Fr::from(7u64);
        }
        from_fr(acc)
    }
}

fn leaf(n: u64) -> FieldElement {
    Cubic::leaf_hash(elem(n))
}

fn node(l: FieldElement, r: FieldElement) -> FieldElement {
    Cubic::concat_and_hash(&l, &r)
}

fn grown(n: u64) -> MerkleTree<Cubic> {
    let mut tree = MerkleTree::<Cubic>::new();
    for v in 0..n {
        tree.insert_leaf([elem(v)]);
    }
    tree
}

fn ceil_log2(n: usize) -> usize {
    let mut bits = 0;
    while (1usize << bits) < n {
        bits += 1;
    }
    bits
}

#[test]
fn engine_is_order_sensitive_and_keeps_arities_apart() {
    let a = elem(3);
    let b = elem(4);
    assert_ne!(node(a, b), node(b, a));
    assert_ne!(Cubic::leaf_hash(a), node(a, a));
    assert_eq!(Cubic::leaf_hash(a), Cubic::hash([a]));
    assert_eq!(node(a, b), Cubic::hash([a, b]));
    // (1 + 3)^3 + 7
    assert_eq!(Cubic::leaf_hash(a), elem(71));
}

#[test]
fn new_tree_is_empty() {
    let tree = MerkleTree::<Cubic>::new();
    assert_eq!(tree.leaves_count(), 0);
    assert_eq!(tree.depth(), 0);
    assert!(!tree.is_full());
    assert_eq!(tree.root(), Err(TreeError::EmptyTree));
    assert_eq!(tree.value(0), Err(TreeError::EmptyTree));
    assert_eq!(tree.opening_orig(0), Err(TreeError::EmptyTree));
    assert_eq!(tree.opening(0), Err(TreeError::EmptyTree));
    assert_eq!(tree.try_verify(&vec![], 0), Err(TreeError::EmptyTree));
    assert!(!tree.verify(vec![], 0));
}

#[test]
fn one_leaf_is_its_own_root() {
    let mut tree = MerkleTree::<Cubic>::new();
    tree.insert_leaf([elem(11)]);
    assert_eq!(tree.leaves_count(), 1);
    assert_eq!(tree.depth(), 1);
    assert_eq!(tree.root(), Ok(leaf(11)));
    assert_eq!(tree.root(), tree.value(0));
    assert_eq!(tree.opening_orig(0), Ok(vec![]));
    assert_eq!(tree.opening(0), Ok(vec![]));
    assert!(tree.verify(vec![], 0));
    assert_eq!(tree.try_verify(&vec![], 0), Ok(true));
}

#[test]
fn two_leaves_open_to_each_other() {
    let mut tree = MerkleTree::<Cubic>::new();
    tree.insert_leaf([elem(11)]);
    tree.insert_leaf([elem(22)]);
    assert_eq!(tree.depth(), 2);
    assert_eq!(tree.leaves_count(), 2);
    assert_eq!(tree.value(0), Ok(leaf(11)));
    assert_eq!(tree.value(1), Ok(leaf(22)));
    assert_eq!(tree.root(), Ok(node(leaf(11), leaf(22))));
    assert_eq!(tree.opening_orig(0), Ok(vec![leaf(22)]));
    assert_eq!(tree.opening_orig(1), Ok(vec![leaf(11)]));
    assert_eq!(tree.opening(0), Ok(vec![(leaf(11), leaf(22))]));
    assert_eq!(tree.opening(1), Ok(vec![(leaf(11), leaf(22))]));
    assert!(tree.verify(vec![leaf(22)], 0));
    assert!(tree.verify(vec![leaf(11)], 1));
    assert!(!tree.verify(vec![leaf(11)], 0));
}

#[test]
fn third_leaf_is_paired_with_its_copy() {
    let mut tree = MerkleTree::<Cubic>::new();
    tree.insert_leaf([elem(11)]);
    tree.insert_leaf([elem(22)]);
    tree.insert_leaf([elem(33)]);
    assert_eq!(tree.leaves_count(), 3);
    assert_eq!(tree.depth(), 3);
    assert_eq!(tree.value(2), Ok(leaf(33)));
    assert_eq!(tree.value(3), Err(TreeError::IndexOutOfRange));
    let left = node(leaf(11), leaf(22));
    let right = node(leaf(33), leaf(33));
    assert_eq!(tree.root(), Ok(node(left, right)));
    assert_eq!(tree.opening_orig(2), Ok(vec![leaf(33), left]));
    assert!(tree.verify(vec![leaf(33), left], 2));
    assert_eq!(tree.opening(2), Ok(vec![(leaf(33), leaf(33)), (left, right)]));
    // a proof that pads with zero is not one of this tree
    assert!(!tree.verify(vec![from_fr(Fr::zero()), left], 2));
    let opening = tree.opening_orig(1).unwrap();
    assert_eq!(opening, vec![leaf(11), right]);
    assert!(tree.verify(opening, 1));
}

#[test]
fn padding_is_dropped_before_the_next_leaf() {
    let mut tree = grown(3);
    tree.insert_leaf([elem(3)]);
    assert_eq!(tree.depth(), 3);
    assert_eq!(tree.value(3), Ok(leaf(3)));
    assert_eq!(tree.root(), Ok(node(node(leaf(0), leaf(1)), node(leaf(2), leaf(3)))));
}

#[test]
fn five_leaves_pad_two_levels() {
    let tree = grown(5);
    assert_eq!(tree.leaves_count(), 5);
    assert_eq!(tree.depth(), 4);
    let i0 = node(leaf(0), leaf(1));
    let i1 = node(leaf(2), leaf(3));
    let i2 = node(leaf(4), leaf(4));
    let root = node(node(i0, i1), node(i2, i2));
    assert_eq!(tree.root(), Ok(root));
    assert_eq!(tree.opening_orig(4), Ok(vec![leaf(4), i2, node(i0, i1)]));
    let opening = tree.opening_orig(4).unwrap();
    assert!(tree.verify(opening, 4));
}

#[test]
fn depth_is_one_more_than_the_rounded_up_logarithm() {
    let mut tree = MerkleTree::<Cubic>::new();
    for n in 1..=70usize {
        tree.insert_leaf([elem(n as u64)]);
        let expected = if n == 1 { 1 } else { ceil_log2(n) + 1 };
        assert_eq!(tree.depth(), expected, "with {} leaves", n);
        assert_eq!(tree.leaves_count(), n);
    }
}

#[test]
fn every_opening_verifies() {
    let mut tree = MerkleTree::<Cubic>::new();
    for n in 1..=33usize {
        tree.insert_leaf([elem(100 + n as u64)]);
        for i in 0..n {
            let opening = tree.opening_orig(i).unwrap();
            assert_eq!(opening.len(), tree.depth() - 1);
            assert_eq!(tree.try_verify(&opening, i), Ok(true));
            assert!(tree.verify(opening, i));
        }
    }
}

#[test]
fn ordered_pairs_hash_up_to_the_root() {
    let tree = grown(13);
    for i in 0..13u32 {
        let pairs = tree.opening(i).unwrap();
        let siblings = tree.opening_orig(i as usize).unwrap();
        assert_eq!(pairs.len(), tree.depth() - 1);
        let mut current = tree.value(i as usize).unwrap();
        let mut index = i;
        for (level, (left, right)) in pairs.iter().enumerate() {
            if index % 2 == 0 {
                assert_eq!(*left, current);
                assert_eq!(*right, siblings[level]);
            } else {
                assert_eq!(*right, current);
                assert_eq!(*left, siblings[level]);
            }
            current = node(*left, *right);
            index /= 2;
        }
        assert_eq!(Ok(current), tree.root());
    }
}

#[test]
fn opening_of_a_large_tree_verifies() {
    let tree = grown(300);
    assert_eq!(tree.leaves_count(), 300);
    assert_eq!(tree.depth(), 10);
    assert_eq!(tree.value(0), Ok(leaf(0)));
    assert_eq!(tree.value(101), Ok(leaf(101)));
    assert_eq!(tree.value(299), Ok(leaf(299)));
    let opening = tree.opening_orig(279).unwrap();
    assert!(tree.verify(opening, 279));
}

#[test]
fn tampered_proofs_are_refused() {
    let tree = grown(6);
    let good = tree.opening_orig(3).unwrap();
    assert!(tree.verify(good.clone(), 3));
    assert!(!tree.verify(good.clone(), 2));
    let mut bad = good.clone();
    bad[1] = elem(5);
    assert_eq!(tree.try_verify(&bad, 3), Ok(false));
    let mut swapped = good.clone();
    swapped.swap(0, 1);
    assert!(!tree.verify(swapped, 3));
}

#[test]
fn proofs_of_the_wrong_length_are_a_structural_mismatch() {
    let tree = grown(6);
    let mut proof = tree.opening_orig(3).unwrap();
    proof.pop();
    assert_eq!(tree.try_verify(&proof, 3), Err(TreeError::StructuralMismatch));
    assert!(!tree.verify(proof, 3));
    let mut long = tree.opening_orig(3).unwrap();
    long.push(elem(1));
    assert_eq!(tree.try_verify(&long, 3), Err(TreeError::StructuralMismatch));
    assert_eq!(tree.try_verify(&vec![], 0), Err(TreeError::StructuralMismatch));
}

#[test]
fn positions_without_a_leaf_are_out_of_range() {
    let tree = grown(3);
    // position 3 holds the copy of the last leaf, not a leaf
    assert_eq!(tree.value(3), Err(TreeError::IndexOutOfRange));
    assert_eq!(tree.value(4), Err(TreeError::IndexOutOfRange));
    assert_eq!(tree.value(usize::MAX), Err(TreeError::IndexOutOfRange));
    assert_eq!(tree.opening_orig(3), Err(TreeError::IndexOutOfRange));
    assert_eq!(tree.opening(3), Err(TreeError::IndexOutOfRange));
    assert_eq!(tree.opening(u32::MAX), Err(TreeError::IndexOutOfRange));
    let proof = tree.opening_orig(2).unwrap();
    assert_eq!(tree.try_verify(&proof, 3), Err(TreeError::IndexOutOfRange));
    assert!(!tree.verify(proof, 3));
}

#[test]
fn inserting_keeps_earlier_values() {
    let mut tree = MerkleTree::<Cubic>::new();
    for n in 0..40u64 {
        tree.insert_leaf([elem(n * n)]);
        for j in 0..=n {
            assert_eq!(tree.value(j as usize), Ok(leaf(j * j)));
        }
    }
}

#[test]
fn root_depends_on_the_leaves_alone() {
    let a = grown(21);
    let mut b = MerkleTree::<Cubic>::new();
    for v in 0..21u64 {
        b.insert_leaf([elem(v)]);
        assert_eq!(b.root(), grown(v + 1).root());
    }
    assert_eq!(a.root(), b.root());
    let mut c = grown(20);
    c.insert_leaf([elem(99)]);
    assert_ne!(a.root(), c.root());
}

#[test]
fn leaves_of_several_elements_are_hashed_as_one() {
    let mut tree = MerkleTree::<Cubic>::new();
    tree.insert_leaf([elem(1), elem(2), elem(3)]);
    tree.insert_leaf([elem(4), elem(5)]);
    assert_eq!(tree.value(0), Ok(Cubic::hash([elem(1), elem(2), elem(3)])));
    assert_eq!(tree.value(1), Ok(Cubic::hash([elem(4), elem(5)])));
    assert_eq!(
        tree.root(),
        Ok(node(Cubic::hash([elem(1), elem(2), elem(3)]), Cubic::hash([elem(4), elem(5)])))
    );
}

#[test]
fn empty_fixed_tree_has_the_zero_hashed_with_itself_as_root() {
    let zero = from_fr(Fr::zero());
    assert_eq!(zero, FieldElement { l0: 0, l1: 0, l2: 0, l3: 0 });
    let mut expected = zero;
    for depth in 1..=8u32 {
        let tree = MerkleTree::<Cubic>::build_empty_tree(depth);
        assert_eq!(tree.depth(), depth as usize);
        assert_eq!(tree.leaves_count(), 0);
        assert_eq!(tree.root(), Ok(expected));
        assert_eq!(tree.value(0), Err(TreeError::IndexOutOfRange));
        assert_eq!(tree.opening_orig(0), Err(TreeError::IndexOutOfRange));
        assert!(!tree.is_full());
        expected = node(expected, expected);
    }
}

#[test]
fn fixed_tree_of_one_level_has_the_zero_as_root() {
    let tree = MerkleTree::<Cubic>::build_empty_tree(1);
    assert_eq!(tree.root(), Ok(FieldElement { l0: 0, l1: 0, l2: 0, l3: 0 }));
}

#[test]
fn fixed_tree_writes_leaves_into_its_slots() {
    let zero = from_fr(Fr::zero());
    let mut tree = MerkleTree::<Cubic>::build_empty_tree(3);
    tree.insert_leaf([elem(11)]);
    assert_eq!(tree.depth(), 3);
    assert_eq!(tree.leaves_count(), 1);
    assert_eq!(tree.value(0), Ok(leaf(11)));
    assert_eq!(tree.value(1), Err(TreeError::IndexOutOfRange));
    let empty_pair = node(zero, zero);
    assert_eq!(tree.root(), Ok(node(node(leaf(11), zero), empty_pair)));
    assert_eq!(tree.opening_orig(0), Ok(vec![zero, empty_pair]));
    assert!(tree.verify(vec![zero, empty_pair], 0));
    tree.insert_leaf([elem(22)]);
    tree.insert_leaf([elem(33)]);
    assert_eq!(tree.root(), Ok(node(node(leaf(11), leaf(22)), node(leaf(33), zero))));
    assert_eq!(tree.opening_orig(2), Ok(vec![zero, node(leaf(11), leaf(22))]));
    assert_eq!(tree.opening(2), Ok(vec![
        (leaf(33), zero),
        (node(leaf(11), leaf(22)), node(leaf(33), zero)),
    ]));
    for i in 0..3 {
        let opening = tree.opening_orig(i).unwrap();
        assert!(tree.verify(opening, i));
    }
}

#[test]
fn full_fixed_tree_has_the_root_of_the_grown_tree() {
    for depth in 1..=6u32 {
        let slots = 1u64 << (depth - 1);
        let mut fixed = MerkleTree::<Cubic>::build_empty_tree(depth);
        for v in 0..slots {
            assert!(!fixed.is_full());
            fixed.insert_leaf([elem(v)]);
        }
        assert!(fixed.is_full());
        let dynamic = grown(slots);
        assert!(!dynamic.is_full());
        assert_eq!(fixed.root(), dynamic.root());
        assert_eq!(fixed.depth(), dynamic.depth());
        for i in 0..slots as usize {
            assert_eq!(fixed.opening_orig(i), dynamic.opening_orig(i));
            assert_eq!(fixed.value(i), dynamic.value(i));
        }
    }
}

#[test]
fn clone_is_independent_of_the_tree_it_came_from() {
    let mut tree = grown(4);
    let snapshot = tree.clone();
    tree.insert_leaf([elem(4)]);
    assert_eq!(snapshot.leaves_count(), 4);
    assert_eq!(snapshot.root(), grown(4).root());
    assert_eq!(tree.leaves_count(), 5);
    assert_ne!(tree.root(), snapshot.root());
}
