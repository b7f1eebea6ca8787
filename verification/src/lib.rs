//! An append-only binary Merkle tree over elements of the BN254 scalar field.
//!
//! The tree commits to an ordered sequence of values by a single root and
//! hands out inclusion proofs for each of them. It is generic over the hash
//! engine, which maps field elements to a field element.
//!
//! A tree either grows with its leaves or is made with a fixed number of
//! levels and zero-filled leaf slots. In a growing tree a level of odd
//! length is padded with a copy of its last entry, at every level, so that
//! every node below the root has a stored sibling. Roots and proofs of trees
//! under another padding rule are not interchangeable with these. Proofs
//! come in two shapes: the list of siblings, and the list of ordered pairs
//! of children.

pub mod field;
pub mod hasher;
pub mod incremental_merkle_tree;
pub mod index;
pub mod levels;
pub mod theorems;
