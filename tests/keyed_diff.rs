use reactive_core::keyed::{diff, DiffError, Move};

const A: u64 = 10;
const B: u64 = 20;
const C: u64 = 30;

#[test]
fn identical_snapshots_give_empty_diff() {
    let s = vec![(1, A), (2, B), (3, C)];
    let d = diff(&s, &s).unwrap();
    assert!(d.created.is_empty());
    assert!(d.removed.is_empty());
    assert!(d.moved.is_empty());
    assert!(d.updated.is_empty());
}

#[test]
fn empty_to_two_rows_creates_both() {
    let d = diff(&vec![], &vec![(1, A), (2, B)]).unwrap();
    assert_eq!(d.created, vec![1, 2]);
    assert!(d.removed.is_empty());
    assert!(d.moved.is_empty());
    assert!(d.updated.is_empty());
}

#[test]
fn swapped_rows_are_both_moved() {
    let d = diff(&vec![(1, A), (2, B)], &vec![(2, B), (1, A)]).unwrap();
    assert!(d.created.is_empty());
    assert!(d.removed.is_empty());
    assert_eq!(
        d.moved,
        vec![Move { key: 2, from: 1, to: 0 }, Move { key: 1, from: 0, to: 1 }]
    );
    assert!(d.updated.is_empty());
}

#[test]
fn removing_middle_row_shifts_the_last() {
    let d = diff(&vec![(1, A), (2, B), (3, C)], &vec![(1, A), (3, C)]).unwrap();
    assert_eq!(d.removed, vec![2]);
    assert!(d.created.is_empty());
    assert_eq!(d.moved, vec![Move { key: 3, from: 2, to: 1 }]);
    assert!(d.updated.is_empty());
}

#[test]
fn add_then_remove_other_row() {
    let prev = vec![(0, 1), (1, 2), (2, 3), (3, 4), (4, 5)];
    let next = vec![(0, 1), (2, 3), (3, 4), (4, 5), (5, 6)];
    let d = diff(&prev, &next).unwrap();
    assert_eq!(d.created, vec![5]);
    assert_eq!(d.removed, vec![1]);
    assert!(d.updated.is_empty());
    assert_eq!(
        d.moved,
        vec![
            Move { key: 2, from: 2, to: 1 },
            Move { key: 3, from: 3, to: 2 },
            Move { key: 4, from: 4, to: 3 },
        ]
    );
}

#[test]
fn changed_value_identity_is_updated() {
    let d = diff(&vec![(1, A), (2, B)], &vec![(1, A), (2, C)]).unwrap();
    assert_eq!(d.updated, vec![2]);
    assert!(d.created.is_empty());
    assert!(d.removed.is_empty());
    assert!(d.moved.is_empty());
}

#[test]
fn both_empty_gives_empty_diff() {
    let d = diff(&vec![], &vec![]).unwrap();
    assert!(d.created.is_empty() && d.removed.is_empty());
    assert!(d.moved.is_empty() && d.updated.is_empty());
}

#[test]
fn clearing_a_list_removes_every_row() {
    let d = diff(&vec![(7, A), (8, B)], &vec![]).unwrap();
    assert_eq!(d.removed, vec![7, 8]);
    assert!(d.created.is_empty());
}

#[test]
fn largest_keys_are_handled() {
    let d = diff(&vec![(u64::MAX, A)], &vec![(0, B), (u64::MAX, A)]).unwrap();
    assert_eq!(d.created, vec![0]);
    assert_eq!(d.moved, vec![Move { key: u64::MAX, from: 0, to: 1 }]);
}

#[test]
fn duplicate_key_in_previous_is_reported() {
    let r = diff(&vec![(1, A), (4, B), (4, C)], &vec![(1, A)]);
    assert_eq!(r.unwrap_err(), DiffError::DuplicateKey(4));
}

#[test]
fn duplicate_key_in_next_is_reported() {
    let r = diff(&vec![(1, A)], &vec![(9, A), (1, B), (9, C)]);
    assert_eq!(r.unwrap_err(), DiffError::DuplicateKey(9));
}

#[test]
fn previous_is_checked_before_next() {
    let r = diff(&vec![(2, A), (2, B)], &vec![(3, A), (3, B)]);
    assert_eq!(r.unwrap_err(), DiffError::DuplicateKey(2));
}

#[test]
fn first_repeated_key_is_reported() {
    let r = diff(&vec![(5, A), (6, B), (6, C), (5, A)], &vec![]);
    assert_eq!(r.unwrap_err(), DiffError::DuplicateKey(6));
}
