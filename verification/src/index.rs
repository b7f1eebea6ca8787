//! Arithmetic on the positions of nodes within a level.

use vstd::prelude::*;

verus! {

/// Whether the node at `index` is the left child of its parent.
pub fn is_left_child(index: u32) -> (left: bool)
    ensures
        left == (index % 2 == 0),
{
    index % 2 == 0
}

/// The position of the other child of the same parent.
pub fn sibling(index: u32) -> (s: Option<u32>)
    ensures
        s == Some(sibling_of(index as int) as u32),
        sibling_of(index as int) <= u32::MAX,
{
    if is_left_child(index) {
        Some(index + 1)
    } else {
        Some(index - 1)
    }
}

/// The position of the parent in the level above.
pub fn parent(index: u32) -> (p: Option<u32>)
    ensures
        p == Some((index / 2) as u32),
{
    if index > 0 {
        assert(index >> 1 == index / 2) by (bit_vector);
        Some(index >> 1)
    } else {
        Some(0)
    }
}

/// The sibling of position `index`: the next position for an even one, the
/// one before for an odd one.
pub open spec fn sibling_of(index: int) -> int {
    if index % 2 == 0 {
        index + 1
    } else {
        index - 1
    }
}

} // verus!
