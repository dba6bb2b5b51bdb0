use aether_vm::relational::{group_rows, join_keeps_unmatched, join_rows};

fn strings(xs: &[&str]) -> Vec<String> {
    xs.iter().map(|s| s.to_string()).collect()
}

#[test]
fn join_rows_inner_pairs_in_order() {
    let l = strings(&["a", "b", "c"]);
    let r = strings(&["b", "a", "b"]);
    assert_eq!(join_rows(&l, &r, false), vec![(0, Some(1)), (1, Some(0)), (1, Some(2))]);
}

#[test]
fn join_rows_left_keeps_unmatched() {
    let l = strings(&["a", "b", "c"]);
    let r = strings(&["b", "a", "b"]);
    assert_eq!(
        join_rows(&l, &r, true),
        vec![(0, Some(1)), (1, Some(0)), (1, Some(2)), (2, None)]
    );
}

#[test]
fn join_rows_empty_sides() {
    let l = strings(&["a"]);
    assert_eq!(join_rows(&l, &Vec::new(), false), vec![]);
    assert_eq!(join_rows(&l, &Vec::new(), true), vec![(0, None)]);
    assert_eq!(join_rows(&Vec::new(), &l, true), vec![]);
}

#[test]
fn join_kind_keeps_unmatched() {
    assert!(join_keeps_unmatched("left"));
    assert!(join_keeps_unmatched("LEFT"));
    assert!(join_keeps_unmatched("Outer"));
    assert!(!join_keeps_unmatched("inner"));
    assert!(!join_keeps_unmatched("right"));
}

#[test]
fn group_rows_by_first_appearance() {
    let (names, buckets) = group_rows(&strings(&["x", "y", "x", "z", "y"]));
    assert_eq!(names, strings(&["x", "y", "z"]));
    assert_eq!(buckets, vec![vec![0, 2], vec![1, 4], vec![3]]);
}

#[test]
fn group_rows_empty() {
    let (names, buckets) = group_rows(&Vec::new());
    assert!(names.is_empty());
    assert!(buckets.is_empty());
}
