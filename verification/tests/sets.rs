use statustracker::sets::{copy_of, difference, is_subset, same, union};
use std::collections::HashSet;

fn members(list: &[usize]) -> HashSet<usize> {
    list.iter().copied().collect()
}

#[test]
fn set_copy() {
    assert_eq!(copy_of(&members(&[1, 5, 9])), members(&[1, 5, 9]));
    assert_eq!(copy_of(&members(&[])), members(&[]));
}

#[test]
fn set_union() {
    assert_eq!(union(&members(&[1, 2]), &members(&[2, 3])), members(&[1, 2, 3]));
    assert_eq!(union(&members(&[]), &members(&[7])), members(&[7]));
}

#[test]
fn set_difference() {
    assert_eq!(difference(&members(&[1, 2, 3]), &members(&[2, 4])), members(&[1, 3]));
    assert_eq!(difference(&members(&[1]), &members(&[1])), members(&[]));
    assert_eq!(difference(&members(&[]), &members(&[1])), members(&[]));
}

#[test]
fn set_inclusion_and_equality() {
    assert!(is_subset(&members(&[]), &members(&[1])));
    assert!(is_subset(&members(&[1]), &members(&[1, 2])));
    assert!(!is_subset(&members(&[1, 3]), &members(&[1, 2])));
    assert!(same(&members(&[2, 1]), &members(&[1, 2])));
    assert!(!same(&members(&[1]), &members(&[1, 2])));
    assert!(!same(&members(&[1, 2]), &members(&[1])));
}
