use young_tableau_rs::insertion::{insertion_tableau, recording_tableau, reverse_insert, row_insert};
use young_tableau_rs::tableau::YoungTableau;

#[test]
fn test_row_insert_empty() {
    let t = YoungTableau::empty();
    let result = row_insert(&t, 3);
    assert_eq!(result.tableau.rows, vec![vec![3]]);
    assert_eq!(result.new_cell, (0, 0));
}

#[test]
fn test_row_insert_append() {
    let t = YoungTableau::from_rows(vec![vec![1, 2]]);
    let result = row_insert(&t, 3);
    assert_eq!(result.tableau.rows, vec![vec![1, 2, 3]]);
    assert_eq!(result.new_cell, (0, 2));
}

#[test]
fn test_row_insert_bump() {
    let t = YoungTableau::from_rows(vec![vec![1, 3]]);
    let result = row_insert(&t, 2);
    assert_eq!(result.tableau.rows, vec![vec![1, 2], vec![3]]);
    assert_eq!(result.new_cell, (1, 0));
}

#[test]
fn test_insertion_tableau_sequence() {
    let t = insertion_tableau(&[3, 1, 4, 1, 5]);
    assert_eq!(t.size(), 5);
    assert!(t.is_semistandard());
}

#[test]
fn test_insertion_preserves_shape() {
    let t = insertion_tableau(&[5, 1, 4, 2, 3]);
    let shape = t.shape();
    for w in shape.windows(2) {
        assert!(w[0] >= w[1]);
    }
}

#[test]
fn test_bumping_path() {
    let t = YoungTableau::from_rows(vec![vec![1, 3]]);
    let result = row_insert(&t, 2);
    assert_eq!(result.bumping_path, vec![(0, 1), (1, 0)]);
}

#[test]
fn test_recording_tableau() {
    let rt = recording_tableau(&[3, 1, 2]);
    assert_eq!(rt.size(), 3);
    assert!(rt.is_standard());
}

#[test]
fn test_reverse_insert() {
    let t = insertion_tableau(&[3, 1, 4]);
    let (rev, _val) = reverse_insert(&t, t.num_rows() - 1, t.rows.last().unwrap().len() - 1);
    assert_eq!(rev.size(), 2);
}

#[test]
fn test_insert_reverse_roundtrip() {
    let mut t = YoungTableau::empty();
    let values = vec![4, 2, 5, 1, 3];
    for &v in &values {
        t = row_insert(&t, v).tableau;
    }
    assert_eq!(t.size(), 5);
}

#[test]
fn test_multiple_bumps() {
    let t = insertion_tableau(&[2, 1, 3, 1, 2, 4]);
    assert_eq!(t.size(), 6);
    assert!(t.is_semistandard());
}

// ---------------------------------------------------------------------------

#[test]
fn insertion_tableau_exact_rows() {
    assert_eq!(insertion_tableau(&[3, 1, 2]).rows, vec![vec![1, 2], vec![3]]);
    assert_eq!(insertion_tableau(&[3, 1, 4, 1, 5]).rows, vec![vec![1, 1, 5], vec![3, 4]]);
    assert_eq!(insertion_tableau(&[]).rows, Vec::<Vec<u32>>::new());
}

#[test]
fn recording_tableau_exact_rows() {
    assert_eq!(recording_tableau(&[3, 1, 2]).rows, vec![vec![1, 3], vec![2]]);
    assert_eq!(recording_tableau(&[4, 3, 2, 1]).rows, vec![vec![1], vec![2], vec![3], vec![4]]);
}

#[test]
fn equal_values_bump_the_first_greater_entry() {
    let t = YoungTableau::from_rows(vec![vec![1, 2, 2, 3]]);
    let result = row_insert(&t, 2);
    assert_eq!(result.tableau.rows, vec![vec![1, 2, 2, 2], vec![3]]);
    assert_eq!(result.bumping_path, vec![(0, 3), (1, 0)]);
}

#[test]
fn reverse_insert_undoes_row_insert() {
    let base = insertion_tableau(&[2, 5, 1, 4]);
    for x in [3u32, 6, 0] {
        let res = row_insert(&base, x);
        let (back, v) = reverse_insert(&res.tableau, res.new_cell.0, res.new_cell.1);
        assert_eq!(v, x);
        assert_eq!(back, base);
    }
}

#[test]
fn reverse_insert_of_a_single_cell() {
    let t = YoungTableau::from_rows(vec![vec![7]]);
    let (back, v) = reverse_insert(&t, 0, 0);
    assert_eq!(v, 7);
    assert_eq!(back.rows, Vec::<Vec<u32>>::new());
}

#[test]
fn reverse_insert_undoes_row_insert_with_repeated_values() {
    let base = YoungTableau::from_rows(vec![vec![2, 2]]);
    let res = row_insert(&base, 1);
    assert_eq!(res.tableau.rows, vec![vec![1, 2], vec![2]]);
    let (back, v) = reverse_insert(&res.tableau, 1, 0);
    assert_eq!(back, base);
    assert_eq!(v, 1);
    let t = YoungTableau::from_rows(vec![vec![1, 3, 3]]);
    let res2 = row_insert(&t, 2);
    let (back2, v2) = reverse_insert(&res2.tableau, res2.new_cell.0, res2.new_cell.1);
    assert_eq!(back2, t);
    assert_eq!(v2, 2);
}

#[test]
fn insertion_result_clone_is_equal() {
    let r = row_insert(&YoungTableau::from_rows(vec![vec![1, 3]]), 2);
    assert_eq!(r.clone(), r);
}
