use young_tableau_rs::correspondence::{
    find_corner, insertion_shape, is_consistent, longest_decreasing_subsequence_length,
    longest_increasing_subsequence_length, rsk, rsk_general, rsk_inverse, RSKPair,
};
use young_tableau_rs::insertion::{insertion_tableau, recording_tableau};
use young_tableau_rs::tableau::YoungTableau;

#[test]
fn test_rsk_identity() {
    let pair = rsk(&[1, 2, 3, 4]);
    assert!(pair.p.is_standard());
    assert!(pair.q.is_standard());
    assert!(is_consistent(&pair));
}

#[test]
fn test_rsk_reverse() {
    let pair = rsk(&[4, 3, 2, 1]);
    assert!(pair.p.is_standard());
    assert!(pair.q.is_standard());
    assert_eq!(pair.p.num_rows(), 4);
}

#[test]
fn test_rsk_consistency() {
    let pair = rsk(&[3, 1, 4, 2]);
    assert!(is_consistent(&pair));
}

#[test]
fn test_lis_length() {
    assert_eq!(longest_increasing_subsequence_length(&[1, 2, 3]), 3);
    assert_eq!(longest_increasing_subsequence_length(&[3, 2, 1]), 1);
    assert_eq!(longest_increasing_subsequence_length(&[2, 1, 3]), 2);
}

#[test]
fn test_lds_length() {
    assert_eq!(longest_decreasing_subsequence_length(&[3, 2, 1]), 3);
    assert_eq!(longest_decreasing_subsequence_length(&[1, 2, 3]), 1);
}

#[test]
fn test_lis_lds_duality() {
    let perm = vec![3, 1, 4, 1, 5, 9, 2, 6];
    let lis = longest_increasing_subsequence_length(&perm);
    let lds = longest_decreasing_subsequence_length(&perm);
    assert!(lis >= 1);
    assert!(lds >= 1);
}

#[test]
fn test_insertion_shape() {
    let shape = insertion_shape(&[3, 1, 2]);
    assert!(!shape.is_empty());
    let total: usize = shape.iter().sum();
    assert_eq!(total, 3);
}

#[test]
fn test_rsk_general() {
    let pair = rsk_general(&[1, 2, 1, 3, 2]);
    assert!(is_consistent(&pair));
    assert_eq!(pair.p.size(), 5);
}

#[test]
fn test_empty_permutation() {
    assert_eq!(longest_increasing_subsequence_length(&[]), 0);
    assert_eq!(longest_decreasing_subsequence_length(&[]), 0);
}

#[test]
fn test_rsk_pair_shapes() {
    for perm in [[1u32, 2, 3], [3, 2, 1], [2, 1, 3], [1, 3, 2]] {
        let pair = rsk(&perm);
        assert_eq!(pair.p.shape(), pair.q.shape(), "Shape mismatch for {:?}", perm);
    }
}

#[test]
fn test_corner_finding() {
    let t = YoungTableau::from_rows(vec![vec![1, 2, 3], vec![4, 5]]);
    let (r, c) = find_corner(&t);
    assert_eq!(r, 1);
    assert_eq!(c, 1);
}

// ---------------------------------------------------------------------------

/// All permutations of `1..=n`, in lexicographic order.
fn permutations(n: u32) -> Vec<Vec<u32>> {
    if n == 0 {
        return vec![vec![]];
    }
    let mut out = Vec::new();
    for p in permutations(n - 1) {
        for pos in 0..=p.len() {
            let mut q = p.clone();
            q.insert(pos, n);
            out.push(q);
        }
    }
    out.sort();
    out
}

/// A shuffled permutation of `1..=n`, from a small xorshift generator seeded by `n`.
fn shuffled(n: usize) -> Vec<u32> {
    let mut v: Vec<u32> = (1..=n as u32).collect();
    let mut seed = n as u64 * 123456789;
    for i in (1..v.len()).rev() {
        seed ^= seed << 13;
        seed ^= seed >> 7;
        seed ^= seed << 17;
        let j = (seed % (i as u64 + 1)) as usize;
        v.swap(i, j);
    }
    v
}

#[test]
fn rsk_inverse_recovers_every_small_permutation() {
    for n in 0..=6 {
        for perm in permutations(n) {
            let pair = rsk(&perm);
            assert_eq!(rsk_inverse(&pair), perm, "roundtrip failed for {:?}", perm);
        }
    }
}

#[test]
fn rsk_inverse_recovers_shuffled_permutations() {
    for n in 1..=8 {
        let perm = shuffled(n);
        assert_eq!(rsk_inverse(&rsk(&perm)), perm);
    }
}

#[test]
fn rsk_inverse_examples() {
    assert_eq!(rsk_inverse(&rsk(&[1, 4, 3, 5, 2])), vec![1, 4, 3, 5, 2]);
    assert_eq!(rsk_inverse(&rsk(&[3, 1, 2])), vec![3, 1, 2]);
    let pair = RSKPair {
        p: YoungTableau::from_rows(vec![vec![1, 2], vec![3]]),
        q: YoungTableau::from_rows(vec![vec![1, 3], vec![2]]),
    };
    assert_eq!(rsk_inverse(&pair), vec![3, 1, 2]);
}

#[test]
fn rsk_pair_is_insertion_and_recording() {
    let perm = [2u32, 4, 1, 5, 3];
    let pair = rsk(&perm);
    assert_eq!(pair.p, insertion_tableau(&perm));
    assert_eq!(pair.q, recording_tableau(&perm));
    assert_eq!(pair.p.rows, vec![vec![1, 3, 5], vec![2, 4]]);
    assert_eq!(pair.q.rows, vec![vec![1, 2, 4], vec![3, 5]]);
}

#[test]
fn insertion_and_recording_have_the_same_shape() {
    for n in 1..=8 {
        let perm = shuffled(n);
        assert_eq!(insertion_tableau(&perm).shape(), recording_tableau(&perm).shape());
    }
}

#[test]
fn lis_and_lds_read_off_the_shape() {
    let perm = [3u32, 1, 4, 1, 5, 9, 2, 6];
    assert_eq!(longest_increasing_subsequence_length(&perm), 4);
    assert_eq!(longest_decreasing_subsequence_length(&perm), 2);
    assert_eq!(insertion_shape(&perm), vec![4, 4]);
    assert_eq!(insertion_shape(&[]), Vec::<usize>::new());
}

#[test]
fn consistency_detects_shape_mismatch() {
    let pair = RSKPair {
        p: YoungTableau::from_rows(vec![vec![1, 2]]),
        q: YoungTableau::from_rows(vec![vec![1], vec![2]]),
    };
    assert!(!is_consistent(&pair));
}

#[test]
fn rsk_general_keeps_repeated_values() {
    let pair = rsk_general(&[1, 2, 1, 3, 2]);
    assert_eq!(pair.p.rows, vec![vec![1, 1, 2], vec![2, 3]]);
    assert!(pair.p.is_semistandard());
}

#[test]
fn corner_is_the_end_of_the_last_row() {
    let t = YoungTableau::from_rows(vec![vec![1, 2, 3]]);
    assert_eq!(find_corner(&t), (0, 2));
}

#[test]
fn rsk_inverse_recovers_words_with_repeated_values() {
    for w in [vec![1u32, 2, 1, 3, 2], vec![2, 2, 1, 1], vec![3, 1, 3, 1, 2, 2, 3]] {
        assert_eq!(rsk_inverse(&rsk_general(&w)), w);
    }
}

#[test]
fn rsk_rebuilds_the_pair_it_was_read_from() {
    let pairs = vec![
        (vec![vec![1u32, 1, 2], vec![2, 3]], vec![vec![1u32, 3, 4], vec![2, 5]]),
        (vec![vec![1, 2, 2], vec![3]], vec![vec![1, 2, 3], vec![4]]),
        (vec![vec![1, 3], vec![2, 4], vec![5]], vec![vec![1, 2], vec![3, 5], vec![4]]),
    ];
    for (p, q) in pairs {
        let pair = RSKPair { p: YoungTableau::from_rows(p), q: YoungTableau::from_rows(q) };
        let w = rsk_inverse(&pair);
        assert_eq!(rsk_general(&w), pair);
    }
}
