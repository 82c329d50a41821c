use young_tableau_rs::standard::{
    all_standard_of_size, count_standard, generate_partitions, generate_standard, validate_all_standard,
};
use young_tableau_rs::tableau::{Partition, YoungTableau};

#[test]
fn test_generate_standard_shape_1() {
    let syts = generate_standard(&[1]);
    assert_eq!(syts.len(), 1);
    assert!(validate_all_standard(&syts));
}

#[test]
fn test_generate_standard_shape_2_1() {
    let syts = generate_standard(&[2, 1]);
    assert_eq!(syts.len(), 2);
    assert!(validate_all_standard(&syts));
}

#[test]
fn test_generate_standard_shape_2_2() {
    let syts = generate_standard(&[2, 2]);
    assert_eq!(syts.len(), 2);
    assert!(validate_all_standard(&syts));
}

#[test]
fn test_generate_standard_shape_3() {
    let syts = generate_standard(&[3]);
    assert_eq!(syts.len(), 1);
}

#[test]
fn test_generate_standard_shape_3_2_1() {
    let syts = generate_standard(&[3, 2, 1]);
    assert_eq!(syts.len(), 16);
    assert!(validate_all_standard(&syts));
}

#[test]
fn test_count_matches_generation() {
    assert_eq!(generate_standard(&[2, 1]).len() as u64, count_standard(&[2, 1]));
    assert_eq!(generate_standard(&[3, 2, 1]).len() as u64, count_standard(&[3, 2, 1]));
}

#[test]
fn test_generate_partitions() {
    let parts = generate_partitions(4);
    assert_eq!(parts.len(), 5);
}

#[test]
fn test_partitions_sum() {
    let parts = generate_partitions(5);
    for p in &parts {
        assert_eq!(p.weight(), 5);
        assert!(p.is_valid());
    }
}

#[test]
fn test_all_standard_of_size() {
    let all = all_standard_of_size(3);
    let total: usize = all.iter().map(|(_, syts)| syts.len()).sum();
    assert_eq!(total, 4);
}

#[test]
fn test_empty_shape() {
    let syts = generate_standard(&[]);
    assert_eq!(syts.len(), 1);
    assert_eq!(syts[0].size(), 0);
}

#[test]
fn test_standard_contain_all_values() {
    let syts = generate_standard(&[3, 2]);
    for t in &syts {
        let mut vals: Vec<u32> = t.rows.iter().flat_map(|r| r.iter().copied()).collect();
        vals.sort();
        assert_eq!(vals, vec![1, 2, 3, 4, 5]);
    }
}

// ---------------------------------------------------------------------------

#[test]
fn standard_tableaux_of_two_one_in_order() {
    let syts = generate_standard(&[2, 1]);
    assert_eq!(syts[0].rows, vec![vec![1, 2], vec![3]]);
    assert_eq!(syts[1].rows, vec![vec![1, 3], vec![2]]);
}

#[test]
fn partitions_in_generation_order() {
    let parts = generate_partitions(4);
    let expected = vec![
        Partition::new(vec![4]),
        Partition::new(vec![3, 1]),
        Partition::new(vec![2, 2]),
        Partition::new(vec![2, 1, 1]),
        Partition::new(vec![1, 1, 1, 1]),
    ];
    assert_eq!(parts, expected);
    assert_eq!(generate_partitions(0), vec![Partition::new(vec![])]);
    assert_eq!(generate_partitions(6).len(), 11);
    assert_eq!(generate_partitions(10).len(), 42);
}

#[test]
fn all_standard_of_size_four() {
    let all = all_standard_of_size(4);
    let total: usize = all.iter().map(|(_, syts)| syts.len()).sum();
    assert_eq!(total, 10);
    for (p, syts) in &all {
        assert!(validate_all_standard(syts));
        for t in syts {
            assert_eq!(t.shape(), p.0);
        }
    }
}

#[test]
fn validation_rejects_a_non_standard_tableau() {
    let good = YoungTableau::from_rows(vec![vec![1, 2]]);
    let bad = YoungTableau::from_rows(vec![vec![2, 1]]);
    assert!(validate_all_standard(&[good.clone()]));
    assert!(!validate_all_standard(&[good, bad]));
    assert!(validate_all_standard(&[]));
}

#[test]
fn standard_tableaux_of_three_two_in_generation_order() {
    let rows: Vec<Vec<Vec<u32>>> = generate_standard(&[3, 2]).into_iter().map(|t| t.rows).collect();
    assert_eq!(
        rows,
        vec![
            vec![vec![1, 2, 3], vec![4, 5]],
            vec![vec![1, 2, 4], vec![3, 5]],
            vec![vec![1, 2, 5], vec![3, 4]],
            vec![vec![1, 3, 4], vec![2, 5]],
            vec![vec![1, 3, 5], vec![2, 4]],
        ]
    );
}
