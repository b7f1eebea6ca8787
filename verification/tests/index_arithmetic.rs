use incremental_merkle_tree::index::{is_left_child, parent, sibling};

#[test]
fn left_children_are_even() {
    assert!(is_left_child(0));
    assert!(!is_left_child(1));
    assert!(is_left_child(4));
    assert!(!is_left_child(u32::MAX));
}

#[test]
fn sibling_flips_the_last_bit() {
    assert_eq!(sibling(0), Some(1));
    assert_eq!(sibling(1), Some(0));
    assert_eq!(sibling(6), Some(7));
    assert_eq!(sibling(7), Some(6));
    assert_eq!(sibling(u32::MAX), Some(u32::MAX - 1));
    assert_eq!(sibling(u32::MAX - 1), Some(u32::MAX));
}

#[test]
fn parent_halves() {
    assert_eq!(parent(0), Some(0));
    assert_eq!(parent(1), Some(0));
    assert_eq!(parent(2), Some(1));
    assert_eq!(parent(7), Some(3));
    assert_eq!(parent(u32::MAX), Some(u32::MAX / 2));
}
