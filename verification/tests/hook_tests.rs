use young_tableau_rs::hook::{
    all_hook_lengths, conjugate_hook_lengths, factorial, hook_length, hook_length_count, hook_product,
    representation_dimension, syt_count,
};
use young_tableau_rs::standard::generate_standard;
use young_tableau_rs::tableau::Partition;

#[test]
fn test_hook_length_basic() {
    let shape = vec![3, 2, 1];
    assert_eq!(hook_length(&shape, 0, 0), 5);
    assert_eq!(hook_length(&shape, 0, 1), 3);
    assert_eq!(hook_length(&shape, 0, 2), 1);
    assert_eq!(hook_length(&shape, 1, 0), 3);
    assert_eq!(hook_length(&shape, 1, 1), 1);
    assert_eq!(hook_length(&shape, 2, 0), 1);
}

#[test]
fn test_hook_length_out_of_bounds() {
    assert_eq!(hook_length(&[3, 2], 0, 5), 0);
    assert_eq!(hook_length(&[3, 2], 5, 0), 0);
}

#[test]
fn test_all_hook_lengths() {
    let shape = vec![2, 1];
    let hooks = all_hook_lengths(&shape);
    assert_eq!(hooks, vec![vec![3, 1], vec![1]]);
}

#[test]
fn test_hook_length_count_single_row() {
    assert_eq!(hook_length_count(&[5]), 1);
    assert_eq!(hook_length_count(&[1]), 1);
}

#[test]
fn test_hook_length_count_single_col() {
    assert_eq!(hook_length_count(&[1, 1, 1]), 1);
}

#[test]
fn test_hook_length_count_2_1() {
    assert_eq!(hook_length_count(&[2, 1]), 2);
}

#[test]
fn test_hook_length_count_2_2() {
    assert_eq!(hook_length_count(&[2, 2]), 2);
}

#[test]
fn test_hook_length_count_3_2_1() {
    assert_eq!(hook_length_count(&[3, 2, 1]), 16);
}

#[test]
fn test_hook_product() {
    assert_eq!(hook_product(&[2, 1]), 3);
    assert_eq!(hook_product(&[3, 2, 1]), 45);
}

#[test]
fn test_conjugate_hook_lengths() {
    let conj_hooks = conjugate_hook_lengths(&[3, 1]);
    assert_eq!(conj_hooks, vec![vec![4, 1], vec![2], vec![1]]);
}

#[test]
fn test_representation_dimension() {
    let p = Partition::new(vec![3, 2, 1]);
    assert_eq!(representation_dimension(&p), 16);
}

#[test]
fn test_empty_partition() {
    assert_eq!(hook_length_count(&[]), 1);
    assert_eq!(hook_product(&[]), 1);
}

#[test]
fn test_factorial() {
    assert_eq!(factorial(0), 1);
    assert_eq!(factorial(5), 120);
    assert_eq!(factorial(10), 3628800);
}

// ---------------------------------------------------------------------------

#[test]
fn factorial_largest_that_fits() {
    assert_eq!(factorial(20), 2432902008176640000);
    assert_eq!(factorial(1), 1);
}

#[test]
fn hook_lengths_of_a_rectangle() {
    assert_eq!(all_hook_lengths(&[3, 3]), vec![vec![4, 3, 2], vec![3, 2, 1]]);
    assert_eq!(hook_product(&[3, 3]), 144);
    assert_eq!(hook_length_count(&[3, 3]), 5);
    assert_eq!(all_hook_lengths(&[]), Vec::<Vec<u32>>::new());
}

#[test]
fn hook_length_count_matches_enumeration() {
    let shapes: Vec<Vec<usize>> = vec![
        vec![1], vec![2, 1], vec![2, 2], vec![3, 1], vec![3, 2], vec![3, 2, 1],
        vec![4, 2, 1], vec![3, 3, 1], vec![2, 2, 2], vec![5, 1, 1],
    ];
    for shape in shapes {
        let p = Partition::new(shape.clone());
        assert_eq!(hook_length_count(&shape), syt_count(&p));
        assert_eq!(hook_length_count(&shape), generate_standard(&shape).len() as u64, "{:?}", shape);
        assert_eq!(representation_dimension(&p), hook_length_count(&shape));
    }
}

#[test]
fn conjugate_hooks_of_a_column() {
    assert_eq!(conjugate_hook_lengths(&[1, 1, 1]), vec![vec![3, 2, 1]]);
}
