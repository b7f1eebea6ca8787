//! The hash engine that the tree is built over.

use vstd::prelude::*;
use crate::field::FieldElement;

verus! {

/// A finite tuple of field elements, as the engine's model sees its input.
pub type Tuple = Seq<FieldElement>;

/// A hash engine: a deterministic map from tuples of field elements to a
/// field element. An implementation must keep hashes of tuples of different
/// lengths apart, so that a leaf can never stand for an inner node.
pub trait Hasher: Clone {
    type Hash: Clone + PartialEq;

    /// The hash of a tuple of elements, as a mathematical function.
    spec fn spec_hash(data: Tuple) -> FieldElement;

    /// Hashes `data`.
    fn hash<const N: usize>(data: [FieldElement; N]) -> (h: FieldElement)
        ensures
            h == Self::spec_hash(data@),
    ;

    /// The hash under which a single value is stored as a leaf.
    fn leaf_hash(leaf: FieldElement) -> (h: FieldElement)
        ensures
            h == Self::spec_hash(seq![leaf]),
    {
        let data = [leaf];
        assert(data@ =~= seq![leaf]);
        Self::hash(data)
    }

    /// The hash of an inner node with the given children, left one first.
    fn concat_and_hash(left: &FieldElement, right: &FieldElement) -> (h: FieldElement)
        ensures
            h == Self::spec_hash(seq![*left, *right]),
    {
        let data = [*left, *right];
        assert(data@ =~= seq![*left, *right]);
        Self::hash(data)
    }
}

/// The hash of the inner node over `left` and `right` under `H`.
pub open spec fn node_of<H: Hasher>(left: FieldElement, right: FieldElement) -> FieldElement {
    H::spec_hash(seq![left, right])
}

} // verus!
