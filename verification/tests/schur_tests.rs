use young_tableau_rs::schur::{schur_at_ones, semistandard_tableaux};

#[test]
fn test_schur_at_ones_2_1() {
    assert_eq!(schur_at_ones(&[2, 1], 3), 8);
}

#[test]
fn test_schur_at_ones_single_row() {
    assert_eq!(schur_at_ones(&[3], 3), 10);
}

// ---------------------------------------------------------------------------

#[test]
fn schur_at_ones_small_cases() {
    assert_eq!(schur_at_ones(&[], 3), 1);
    assert_eq!(schur_at_ones(&[], 0), 1);
    assert_eq!(schur_at_ones(&[1], 0), 0);
    assert_eq!(schur_at_ones(&[1, 1], 3), 3);
    assert_eq!(schur_at_ones(&[2, 2], 2), 1);
    assert_eq!(schur_at_ones(&[2, 1], 2), 2);
    assert_eq!(schur_at_ones(&[1, 1, 1], 2), 0);
    assert_eq!(schur_at_ones(&[2, 2], 3), 6);
    assert_eq!(schur_at_ones(&[3, 2, 1], 3), 8);
}

#[test]
fn rows_without_cells_add_nothing() {
    assert_eq!(schur_at_ones(&[1, 0], 2), 2);
    assert_eq!(schur_at_ones(&[0], 4), 1);
}

#[test]
fn semistandard_tableaux_of_two_one() {
    let ts: Vec<Vec<Vec<u32>>> = semistandard_tableaux(&[2, 1], 2).into_iter().map(|t| t.rows).collect();
    assert_eq!(ts, vec![vec![vec![1, 1], vec![2]], vec![vec![1, 2], vec![2]]]);
    assert_eq!(semistandard_tableaux(&[2, 1], 3).len(), 8);
    assert_eq!(semistandard_tableaux(&[], 3).len(), 1);
    assert_eq!(semistandard_tableaux(&[1, 1, 1], 2).len(), 0);
    for t in semistandard_tableaux(&[3, 2], 3) {
        assert!(t.is_semistandard());
    }
    assert_eq!(semistandard_tableaux(&[3, 2], 3).len() as u64, schur_at_ones(&[3, 2], 3));
}
