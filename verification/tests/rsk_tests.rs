use young_tableau_rs::insertion::insertion_tableau;
use young_tableau_rs::rsk::{
    are_knuth_equivalent, column_reading_word, conjugate_partition, dual_rsk_shape, greene_invariant,
    greene_invariants, greene_to_shape, inversion_count, is_lattice_permutation, jeu_de_taquin,
    lis_patience, reading_word,
};
use young_tableau_rs::tableau::YoungTableau;

#[test]
fn test_conjugate_partition_empty() {
    assert_eq!(conjugate_partition(&[]), Vec::<usize>::new());
}

#[test]
fn test_conjugate_partition_square() {
    assert_eq!(conjugate_partition(&[3, 3, 3]), vec![3, 3, 3]);
}

#[test]
fn test_conjugate_partition_rect() {
    assert_eq!(conjugate_partition(&[4, 2, 1]), vec![3, 2, 1, 1]);
}

#[test]
fn test_conjugate_partition_self_dual() {
    assert_eq!(conjugate_partition(&[3, 2, 1]), vec![3, 2, 1]);
}

#[test]
fn test_greene_invariant_identity() {
    assert_eq!(greene_invariant(&[1, 2, 3, 4], 1), 4);
    assert_eq!(greene_invariant(&[1, 2, 3, 4], 2), 4);
}

#[test]
fn test_greene_invariant_reverse() {
    assert_eq!(greene_invariant(&[4, 3, 2, 1], 1), 1);
    assert_eq!(greene_invariant(&[4, 3, 2, 1], 2), 2);
    assert_eq!(greene_invariant(&[4, 3, 2, 1], 4), 4);
}

#[test]
fn test_greene_invariant_general() {
    assert_eq!(greene_invariant(&[3, 1, 4, 2], 1), 2);
    assert_eq!(greene_invariant(&[3, 1, 4, 2], 2), 4);
}

#[test]
fn test_greene_invariants_roundtrip() {
    let perm = vec![3, 1, 4, 2];
    let gi = greene_invariants(&perm);
    let shape = greene_to_shape(&gi);
    let expected_shape = insertion_tableau(&perm).shape();
    assert_eq!(shape, expected_shape);
}

#[test]
fn test_reading_word() {
    let t = YoungTableau::from_rows(vec![vec![1, 2, 3], vec![4, 5]]);
    let word = reading_word(&t);
    assert_eq!(word, vec![5, 4, 3, 2, 1]);
}

#[test]
fn test_column_reading_word() {
    let t = YoungTableau::from_rows(vec![vec![1, 3], vec![2, 4]]);
    let word = column_reading_word(&t);
    assert_eq!(word, vec![1, 2, 3, 4]);
}

#[test]
fn test_knuth_equivalent_identity() {
    let word = vec![1, 2, 3];
    assert!(are_knuth_equivalent(&word, &word));
}

#[test]
fn test_knuth_not_equivalent() {
    assert!(!are_knuth_equivalent(&[1, 2, 3], &[3, 2, 1]));
}

#[test]
fn test_dual_rsk_shape() {
    let shape = dual_rsk_shape(&[4, 3, 2, 1]);
    assert_eq!(shape, vec![1, 1, 1, 1]);
}

#[test]
fn test_lis_patience_identity() {
    let lis = lis_patience(&[1, 2, 3, 4]);
    assert_eq!(lis.len(), 4);
}

#[test]
fn test_lis_patience_reverse() {
    let lis = lis_patience(&[4, 3, 2, 1]);
    assert_eq!(lis.len(), 1);
}

#[test]
fn test_lis_patience_general() {
    let lis = lis_patience(&[3, 1, 4, 1, 5, 9, 2, 6]);
    assert!(lis.len() >= 4);
    for w in lis.windows(2) {
        assert!(w[0] < w[1], "LIS should be strictly increasing");
    }
}

#[test]
fn test_jeu_de_taquin() {
    let mut t = YoungTableau::from_rows(vec![vec![0, 2], vec![1, 3]]);
    jeu_de_taquin(&mut t, 0, 0);
    let has_zero = t.rows.iter().any(|r| r.iter().any(|&v| v == 0));
    assert!(has_zero);
}

#[test]
fn test_inversion_count_identity() {
    assert_eq!(inversion_count(&[1, 2, 3, 4]), 0);
}

#[test]
fn test_inversion_count_reverse() {
    assert_eq!(inversion_count(&[4, 3, 2, 1]), 6);
}

#[test]
fn test_inversion_count_general() {
    assert_eq!(inversion_count(&[2, 3, 1]), 2);
}

#[test]
fn test_lattice_permutation_valid() {
    assert!(is_lattice_permutation(&[1, 1, 2]));
}

#[test]
fn test_lattice_permutation_invalid() {
    assert!(!is_lattice_permutation(&[2, 1]));
}

// ---------------------------------------------------------------------------

fn is_subsequence(sub: &[u32], seq: &[u32]) -> bool {
    let mut it = seq.iter();
    sub.iter().all(|x| it.any(|y| y == x))
}

#[test]
fn lis_patience_gives_a_longest_strictly_increasing_subsequence() {
    let seq = [3u32, 1, 4, 1, 5, 9, 2, 6];
    let lis = lis_patience(&seq);
    assert_eq!(lis.len(), 4);
    assert!(is_subsequence(&lis, &seq));
    assert_eq!(lis_patience(&[]), Vec::<u32>::new());
    assert_eq!(lis_patience(&[2, 2, 2]).len(), 1);
    let lis2 = lis_patience(&[5, 1, 6, 2, 7, 3, 8]);
    assert_eq!(lis2.len(), 4);
    assert!(is_subsequence(&lis2, &[5, 1, 6, 2, 7, 3, 8]));
}

#[test]
fn jeu_de_taquin_slides_to_an_outer_corner() {
    let mut t = YoungTableau::from_rows(vec![vec![0, 2], vec![1, 3]]);
    jeu_de_taquin(&mut t, 0, 0);
    assert_eq!(t.rows, vec![vec![1, 2], vec![3, 0]]);

    let mut u = YoungTableau::from_rows(vec![vec![0, 1, 4], vec![2, 5]]);
    jeu_de_taquin(&mut u, 0, 0);
    assert_eq!(u.rows, vec![vec![1, 4, 0], vec![2, 5]]);
}

#[test]
fn greene_invariants_are_running_sums_of_the_shape() {
    let perm = [2u32, 4, 1, 5, 3];
    assert_eq!(greene_invariants(&perm), vec![3, 5]);
    assert_eq!(greene_to_shape(&[3, 5]), vec![3, 2]);
    assert_eq!(greene_invariant(&perm, 0), 0);
    assert_eq!(greene_invariant(&perm, 7), 5);
    assert_eq!(greene_invariants(&[]), Vec::<usize>::new());
}

#[test]
fn reading_words_of_a_three_row_tableau() {
    let t = YoungTableau::from_rows(vec![vec![1, 2, 4], vec![3, 5], vec![6]]);
    assert_eq!(reading_word(&t), vec![6, 5, 3, 4, 2, 1]);
    assert_eq!(column_reading_word(&t), vec![1, 3, 6, 2, 5, 4]);
}

#[test]
fn knuth_equivalence_examples() {
    assert!(are_knuth_equivalent(&[2, 1, 3], &[2, 3, 1]));
    assert!(!are_knuth_equivalent(&[1, 2], &[1, 2, 3]));
}

#[test]
fn dual_shape_of_the_identity() {
    assert_eq!(dual_rsk_shape(&[1, 2, 3]), vec![3]);
    assert_eq!(dual_rsk_shape(&[]), Vec::<usize>::new());
}

#[test]
fn inversions_and_lattice_words() {
    assert_eq!(inversion_count(&[]), 0);
    assert_eq!(inversion_count(&[3, 1, 2, 5, 4]), 3);
    assert!(is_lattice_permutation(&[]));
    assert!(is_lattice_permutation(&[1, 2, 1, 3, 2, 3]));
    assert!(!is_lattice_permutation(&[1, 2, 3, 3]));
    assert!(!is_lattice_permutation(&[1, 3]));
}

#[test]
fn slide_from_outside_the_row_changes_nothing() {
    let mut t = YoungTableau::from_rows(vec![vec![1, 2], vec![3]]);
    jeu_de_taquin(&mut t, 1, 4);
    assert_eq!(t.rows, vec![vec![1, 2], vec![3]]);
}

#[test]
fn slide_moves_the_lower_neighbour_on_a_tie() {
    let mut t = YoungTableau::from_rows(vec![vec![0, 1], vec![1]]);
    jeu_de_taquin(&mut t, 0, 0);
    assert_eq!(t.rows, vec![vec![1, 1], vec![0]]);
}
