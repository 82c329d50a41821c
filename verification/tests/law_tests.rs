use young_tableau_rs::correspondence::{
    longest_decreasing_subsequence_length, longest_increasing_subsequence_length, rsk, rsk_inverse,
};
use young_tableau_rs::hook::{all_hook_lengths, conjugate_hook_lengths, hook_length_count};
use young_tableau_rs::rsk::{are_knuth_equivalent, dual_rsk_shape, greene_invariant, jeu_de_taquin, lis_patience};
use young_tableau_rs::insertion::{insertion_tableau, recording_tableau};
use young_tableau_rs::standard::{generate_partitions, generate_standard};
use young_tableau_rs::tableau::{Partition, YoungTableau};

fn permutations(n: u32) -> Vec<Vec<u32>> {
    if n == 0 {
        return vec![vec![]];
    }
    let mut out = Vec::new();
    for p in permutations(n - 1) {
        for pos in 0..=p.len() {
            let mut q = p.clone();
            q.insert(pos, n);
            out.push(q);
        }
    }
    out
}

/// Every filling of `shape` by `1..=n` that is standard, found by brute force.
fn all_standard_by_brute_force(shape: &[usize]) -> Vec<Vec<Vec<u32>>> {
    let n: usize = shape.iter().sum();
    let mut found = Vec::new();
    for perm in permutations(n as u32) {
        let mut rows = Vec::new();
        let mut k = 0;
        for &len in shape {
            rows.push(perm[k..k + len].to_vec());
            k += len;
        }
        if YoungTableau::from_rows(rows.clone()).is_standard() {
            found.push(rows);
        }
    }
    found.sort();
    found
}

#[test]
fn generated_standard_tableaux_are_exactly_all_of_the_shape() {
    for shape in [vec![3usize, 2], vec![2, 2, 1], vec![3, 1, 1], vec![4, 2], vec![2, 2, 2]] {
        let mut generated: Vec<Vec<Vec<u32>>> = generate_standard(&shape).into_iter().map(|t| t.rows).collect();
        let before = generated.len();
        generated.sort();
        generated.dedup();
        assert_eq!(generated.len(), before, "duplicates for {:?}", shape);
        assert_eq!(generated, all_standard_by_brute_force(&shape), "{:?}", shape);
    }
}

#[test]
fn partitions_are_distinct_and_complete() {
    let counts = [1usize, 1, 2, 3, 5, 7, 11, 15, 22, 30];
    for n in 0..counts.len() {
        let mut parts: Vec<Vec<usize>> = generate_partitions(n).into_iter().map(|p| p.0).collect();
        assert_eq!(parts.len(), counts[n]);
        parts.sort();
        parts.dedup();
        assert_eq!(parts.len(), counts[n]);
    }
}

#[test]
fn conjugating_twice_gives_the_partition_back() {
    for parts in [vec![4usize, 2, 1], vec![3, 3], vec![5], vec![1, 1, 1], vec![6, 4, 4, 1]] {
        let p = Partition::new(parts.clone());
        assert_eq!(p.conjugate().conjugate(), p);
    }
}

#[test]
fn conjugate_hooks_are_transposed_hooks() {
    for shape in [vec![3usize, 1], vec![4, 2, 1], vec![3, 3, 2]] {
        let hooks = all_hook_lengths(&shape);
        let conj = conjugate_hook_lengths(&shape);
        for (i, row) in hooks.iter().enumerate() {
            for (j, &h) in row.iter().enumerate() {
                assert_eq!(conj[j][i], h);
            }
        }
    }
}

#[test]
fn slide_leaves_the_hole_at_an_outer_corner() {
    let mut t = YoungTableau::from_rows(vec![vec![0, 1, 3], vec![2, 5], vec![4]]);
    jeu_de_taquin(&mut t, 0, 0);
    assert_eq!(t.shape(), vec![3, 2, 1]);
    assert_eq!(t.rows, vec![vec![1, 3, 0], vec![2, 5], vec![4]]);
}

#[test]
fn patience_and_rsk_agree_on_permutations() {
    for n in 1..=6 {
        for perm in permutations(n) {
            let lis = longest_increasing_subsequence_length(&perm);
            assert_eq!(lis_patience(&perm).len(), lis);
            assert_eq!(greene_invariant(&perm, 1), lis);
        }
    }
}

#[test]
fn rsk_of_a_permutation_gives_standard_tableaux() {
    for n in 1..=6 {
        for perm in permutations(n) {
            let pair = rsk(&perm);
            assert!(pair.p.is_standard());
            assert!(pair.q.is_standard());
            assert_eq!(pair.p.shape(), pair.q.shape());
            assert_eq!(rsk_inverse(&pair), perm);
        }
    }
}

#[test]
fn conjugate_has_the_same_number_of_cells() {
    for parts in [vec![4usize, 2, 1], vec![3, 3], vec![6, 4, 4, 1]] {
        let p = Partition::new(parts.clone());
        assert_eq!(p.conjugate().weight(), p.weight());
    }
}

fn longest_run_by_brute_force(word: &[u32], keep: fn(u32, u32) -> bool) -> usize {
    // best[i]: longest chosen subsequence ending at position i
    let mut best = vec![1usize; word.len()];
    for i in 0..word.len() {
        for j in 0..i {
            if keep(word[j], word[i]) && best[j] + 1 > best[i] {
                best[i] = best[j] + 1;
            }
        }
    }
    best.into_iter().max().unwrap_or(0)
}

fn words(len: usize, alphabet: u32) -> Vec<Vec<u32>> {
    let mut out = vec![vec![]];
    for _ in 0..len {
        let mut next = Vec::new();
        for w in out {
            for a in 1..=alphabet {
                let mut v = w.clone();
                v.push(a);
                next.push(v);
            }
        }
        out = next;
    }
    out
}

#[test]
fn rows_count_the_longest_strictly_decreasing_subsequence() {
    for len in 0..=6 {
        for w in words(len, 3) {
            let expected = longest_run_by_brute_force(&w, |a, b| a > b);
            assert_eq!(longest_decreasing_subsequence_length(&w), expected);
        }
    }
    assert_eq!(longest_decreasing_subsequence_length(&[2, 2, 1]), 2);
    assert_eq!(longest_decreasing_subsequence_length(&[3, 1, 2, 5, 4]), 2);
}

#[test]
fn dual_shape_measures_decreasing_and_increasing_subsequences() {
    for len in 1..=6 {
        for w in words(len, 3) {
            let shape = dual_rsk_shape(&w);
            assert_eq!(shape.len(), longest_run_by_brute_force(&w, |a, b| a >= b));
            assert_eq!(shape[0], longest_run_by_brute_force(&w, |a, b| a < b));
        }
    }
    assert_eq!(dual_rsk_shape(&[3, 1, 2]), vec![2, 1]);
}

#[test]
fn slide_with_repeated_entries_keeps_the_tableau_semistandard() {
    let mut t = YoungTableau::from_rows(vec![vec![0, 1, 2], vec![1, 2], vec![3]]);
    jeu_de_taquin(&mut t, 0, 0);
    assert_eq!(t.rows, vec![vec![1, 1, 2], vec![2, 0], vec![3]]);
}

fn knuth_neighbours(w: &[u32]) -> Vec<Vec<u32>> {
    let mut out = Vec::new();
    for i in 0..w.len().saturating_sub(2) {
        let (a, b, c) = (w[i], w[i + 1], w[i + 2]);
        // x z y <-> z x y with x <= y < z
        if (a <= c && c < b) || (b <= c && c < a) {
            let mut v = w.to_vec();
            v.swap(i, i + 1);
            out.push(v);
        }
        // y x z <-> y z x with x < y <= z
        if (b < a && a <= c) || (c < a && a <= b) {
            let mut v = w.to_vec();
            v.swap(i + 1, i + 2);
            out.push(v);
        }
    }
    out
}

#[test]
fn knuth_moves_keep_the_insertion_tableau() {
    for len in 0..=5 {
        for w in words(len, 3) {
            let p = insertion_tableau(&w);
            for v in knuth_neighbours(&w) {
                assert_eq!(insertion_tableau(&v), p);
                assert!(are_knuth_equivalent(&w, &v));
            }
        }
    }
    assert!(are_knuth_equivalent(&[1, 3, 2], &[3, 1, 2]));
    assert!(are_knuth_equivalent(&[2, 1, 3], &[2, 3, 1]));
    assert!(!are_knuth_equivalent(&[2, 2, 3], &[2, 3, 2]));
}

#[test]
fn words_with_one_insertion_tableau_are_joined_by_knuth_moves() {
    // the Knuth class of each word, explored move by move, is exactly the set
    // of words of its length with its insertion tableau
    let all = words(4, 3);
    for w in &all {
        let mut class = vec![w.clone()];
        let mut k = 0;
        while k < class.len() {
            for v in knuth_neighbours(&class[k]) {
                if !class.contains(&v) {
                    class.push(v);
                }
            }
            k += 1;
        }
        let p = insertion_tableau(w);
        for v in &all {
            assert_eq!(class.contains(v), insertion_tableau(v) == p);
        }
    }
}

#[test]
fn recording_tableau_records_the_growth_of_the_insertion_tableau() {
    for len in 0..=5 {
        for w in words(len, 3) {
            let q = recording_tableau(&w);
            for k in 0..=w.len() {
                let shape = insertion_tableau(&w[..k]).shape();
                for (i, row) in q.rows.iter().enumerate() {
                    let labels = row.iter().filter(|&&l| l as usize <= k).count();
                    assert_eq!(labels, shape.get(i).copied().unwrap_or(0));
                }
            }
        }
    }
}

#[test]
fn hook_length_formula_counts_the_standard_tableaux() {
    for n in 0..=8 {
        for p in generate_partitions(n) {
            let shape = p.0.clone();
            assert_eq!(hook_length_count(&shape), generate_standard(&shape).len() as u64);
        }
    }
    assert_eq!(hook_length_count(&[3, 2, 1]), 16);
    assert_eq!(hook_length_count(&[4, 4]), 14);
}

fn best_cover_by_brute_force(word: &[u32], k: usize) -> usize {
    // try every assignment of positions to k subsequences or to none
    let n = word.len();
    let mut best = 0;
    let total = (k + 1).pow(n as u32);
    for code in 0..total {
        let mut c = code;
        let mut lab = vec![0usize; n];
        for p in 0..n {
            lab[p] = c % (k + 1);
            c /= k + 1;
        }
        let mut ok = true;
        for p in 0..n {
            for q in p + 1..n {
                if lab[p] != 0 && lab[p] == lab[q] && word[p] > word[q] {
                    ok = false;
                }
            }
        }
        if ok {
            let size = lab.iter().filter(|&&l| l != 0).count();
            if size > best {
                best = size;
            }
        }
    }
    best
}

#[test]
fn greene_invariants_are_the_largest_covers() {
    for len in 0..=5 {
        for w in words(len, 3) {
            for k in 0..=3 {
                assert_eq!(greene_invariant(&w, k), best_cover_by_brute_force(&w, k));
            }
        }
    }
    for perm in permutations(5) {
        for k in 0..=3 {
            assert_eq!(greene_invariant(&perm, k), best_cover_by_brute_force(&perm, k));
        }
    }
}
