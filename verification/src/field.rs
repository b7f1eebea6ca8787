//! The field elements that the tree stores.

use vstd::prelude::*;

verus! {

/// An element of the BN254 scalar field, held as the four 64-bit limbs of
/// its canonical integer form, least significant first. The tree never looks
/// inside an element: it stores, copies and compares them.
#[derive(Clone, Copy, Debug, PartialEq, Eq, Structural)]
pub struct FieldElement {
    pub l0: u64,
    pub l1: u64,
    pub l2: u64,
    pub l3: u64,
}

/// The additive identity: every limb is 0.
pub open spec fn zero_element() -> FieldElement {
    FieldElement { l0: 0, l1: 0, l2: 0, l3: 0 }
}

/// `ark_ff::Zero::zero` on the scalar field, read through
/// `ark_ff::PrimeField::into_bigint`: the additive identity, whose canonical
/// integer form has all limbs 0.
#[verifier::external_body]
pub(crate) fn field_zero() -> (z: FieldElement)
    ensures
        z == zero_element(),
{
    let z: ark_bn254::Fr = ark_ff::Zero::zero();
    let b = ark_ff::PrimeField::into_bigint(z).0;
    FieldElement { l0: b[0], l1: b[1], l2: b[2], l3: b[3] }
}

} // verus!
