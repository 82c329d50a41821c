use young_tableau_rs::tableau::{Partition, YoungTableau};

#[test]
fn test_empty_tableau() {
    let t = YoungTableau::empty();
    assert_eq!(t.size(), 0);
    assert_eq!(t.num_rows(), 0);
    assert_eq!(t.shape(), Vec::<usize>::new());
}

#[test]
fn test_from_shape() {
    let t = YoungTableau::from_shape(&[4, 3, 1]);
    assert_eq!(t.shape(), vec![4, 3, 1]);
    assert_eq!(t.size(), 8);
}

#[test]
fn test_get_set() {
    let mut t = YoungTableau::from_shape(&[3, 2]);
    t.set(0, 0, 1);
    t.set(0, 1, 2);
    assert_eq!(t.get(0, 0), Some(1));
    assert_eq!(t.get(1, 0), Some(0));
    assert_eq!(t.get(5, 5), None);
}

#[test]
fn test_is_semistandard() {
    let t = YoungTableau::from_rows(vec![vec![1, 2, 2], vec![2, 3]]);
    assert!(t.is_semistandard());
    let bad = YoungTableau::from_rows(vec![vec![2, 1], vec![3]]);
    assert!(!bad.is_semistandard());
}

#[test]
fn test_is_standard() {
    let t = YoungTableau::from_rows(vec![vec![1, 3, 5], vec![2, 4]]);
    assert!(t.is_standard());
    let not_std = YoungTableau::from_rows(vec![vec![1, 2], vec![2, 3]]);
    assert!(!not_std.is_standard());
}

#[test]
fn test_conjugate_shape() {
    let t = YoungTableau::from_shape(&[4, 2, 1]);
    assert_eq!(t.conjugate_shape(), vec![3, 2, 1, 1]);
}

#[test]
fn test_partition_valid() {
    let p = Partition::new(vec![5, 3, 1]);
    assert!(p.is_valid());
    assert_eq!(p.weight(), 9);
    assert!(!Partition::new(vec![1, 3, 5]).is_valid());
}

#[test]
fn test_partition_conjugate() {
    let p = Partition::new(vec![4, 2, 1]);
    assert_eq!(p.conjugate(), Partition::new(vec![3, 2, 1, 1]));
}

#[test]
fn test_partition_dominates() {
    let p1 = Partition::new(vec![3, 1]);
    let p2 = Partition::new(vec![2, 2]);
    assert!(p1.dominates(&p2));
    assert!(!p2.dominates(&p1));
}

#[test]
fn test_display() {
    let t = YoungTableau::from_rows(vec![vec![1, 2], vec![3]]);
    let s = t.display();
    assert!(s.contains("1"));
    assert!(s.contains("2"));
}

// ---------------------------------------------------------------------------

#[test]
fn display_pads_each_entry_to_three_columns() {
    let t = YoungTableau::from_rows(vec![vec![1, 2], vec![3]]);
    assert_eq!(t.display(), "  1   2\n  3");
    let wide = YoungTableau::from_rows(vec![vec![10, 1234]]);
    assert_eq!(wide.display(), " 10 1234");
    assert_eq!(YoungTableau::empty().display(), "");
}

#[test]
fn semistandard_rejects_equal_column_entries() {
    let t = YoungTableau::from_rows(vec![vec![1, 2], vec![1, 3]]);
    assert!(!t.is_semistandard());
    let longer_lower_row = YoungTableau::from_rows(vec![vec![1], vec![2, 3]]);
    assert!(longer_lower_row.is_semistandard());
}

#[test]
fn standard_needs_every_value_once() {
    let gap = YoungTableau::from_rows(vec![vec![1, 3]]);
    assert!(!gap.is_standard());
    assert!(YoungTableau::empty().is_standard());
    let repeated = YoungTableau::from_rows(vec![vec![1], vec![1]]);
    assert!(!repeated.is_standard());
    let zero = YoungTableau::from_rows(vec![vec![0, 1]]);
    assert!(!zero.is_standard());
}

#[test]
fn set_outside_the_shape_changes_nothing() {
    let mut t = YoungTableau::from_shape(&[2]);
    t.set(0, 5, 7);
    t.set(3, 0, 7);
    assert_eq!(t.rows, vec![vec![0, 0]]);
}

#[test]
fn partition_basics() {
    let p = Partition::new(vec![]);
    assert!(p.is_empty());
    assert_eq!(p.len(), 0);
    assert_eq!(p.weight(), 0);
    assert!(p.is_valid());
    assert_eq!(Partition::new(vec![3, 3]).conjugate(), Partition::new(vec![2, 2, 2]));
    assert!(Partition::new(vec![2, 2]).dominates(&Partition::new(vec![2, 1, 1])));
    assert!(Partition::new(vec![2, 2]).dominates(&Partition::new(vec![2, 2])));
}
