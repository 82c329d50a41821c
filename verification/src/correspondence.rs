//! Robinson-Schensted-Knuth correspondence: bijection between permutations
//! and pairs of standard Young tableaux (insertion and recording).
use vstd::prelude::*;
use crate::tableau::{
    YoungTableau, shape_of, cell_count, is_standard_spec, is_cell, entries_distinct,
    holds_value,
};
use crate::insertion::{
    insertion_tableau, recording_tableau, reverse_insert, insertion_spec, recording_spec, insert_spec,
    reverse_spec, add_cell, copy_rows, lemma_insert_from_shape,
};
use crate::insertion_proofs::{
    lemma_insertion_tableau_props, lemma_recording_tableau_props, lemma_reverse_undoes_insert,
};
use crate::schensted::{first_row, is_nondecreasing_subsequence, lemma_first_row_longest};
use crate::rsk::is_increasing_subsequence;
use crate::knuth::{is_decreasing_subsequence, lemma_rows_longest_decreasing};
use crate::insertion::unbump_from;
use crate::insertion_proofs::{lemma_same_shape_cell_count, lemma_unbump_lengths, lemma_insert_undoes_reverse, is_valid_tableau, rows_nonempty};
use crate::tableau::{lemma_cell_count_take, lemma_cell_count_prefix_bound};
use crate::insertion_proofs::{lemma_content_cell, lemma_content_has_cell, lemma_content_two_rows};
use vstd::set_lib::{lemma_int_range, lemma_len_subset, lemma_subset_equality, set_int_range};

verus! {

/// A pair of tableaux from the RSK correspondence.
#[derive(Debug, Clone, PartialEq, Eq)]
pub struct RSKPair {
    /// The insertion (P) tableau.
    pub p: YoungTableau,
    /// The recording (Q) tableau.
    pub q: YoungTableau,
}

/// Some cell of `q` holding `v`.
pub open spec fn cell_holding(q: Seq<Seq<u32>>, v: int) -> (int, int) {
    choose|r: int, c: int| is_cell(q, r, c) && #[trigger] q[r][c] == v
}

/// The word read back from `(p, q)` by reverse insertion: for `k` down to 1,
/// reverse-insert `p` at the cell of `q` holding `k`; the value that comes out
/// is the `k`-th letter.
pub open spec fn inverse_word(p: Seq<Seq<u32>>, q: Seq<Seq<u32>>, k: nat) -> Seq<u32>
    decreases k,
{
    if k == 0 {
        Seq::empty()
    } else {
        let c = cell_holding(q, k as int);
        let (p2, v) = reverse_spec(p, c.0, c.1);
        inverse_word(p2, q, (k - 1) as nat).push(v)
    }
}

/// Each of the `k` reverse insertions of `inverse_word` starts at a cell of the
/// current insertion tableau.
pub open spec fn inverse_defined(p: Seq<Seq<u32>>, q: Seq<Seq<u32>>, k: nat) -> bool
    decreases k,
{
    if k == 0 {
        true
    } else {
        let c = cell_holding(q, k as int);
        is_cell(p, c.0, c.1) && inverse_defined(reverse_spec(p, c.0, c.1).0, q, (k - 1) as nat)
    }
}

/// Some cell before `(r, c)` in reading order holds `v`.
pub open spec fn held_before(q: Seq<Seq<u32>>, v: int, r: int, c: int) -> bool {
    exists|a: int, b: int| is_cell(q, a, b) && (a < r || (a == r && b < c)) && #[trigger] q[a][b] == v
}

/// `pos[v - 1]` is a cell of `q` holding `v`.
pub open spec fn recorded_at(q: Seq<Seq<u32>>, pos: Seq<(usize, usize)>, v: int) -> bool {
    is_cell(q, pos[v - 1].0 as int, pos[v - 1].1 as int) && q[pos[v - 1].0 as int][pos[v - 1].1 as int] == v
}

/// The cell created by the `k`-th insertion (counting from 1) when inserting `w`.
pub open spec fn kth_cell(w: Seq<u32>, k: int) -> (int, int) {
    insert_spec(insertion_spec(w.take(k - 1)), w[k - 1]).1
}

proof fn lemma_prefix_step(w: Seq<u32>, m: int)
    requires
        1 <= m <= w.len(),
    ensures
        w.take(m).drop_last() == w.take(m - 1),
        w.take(m).last() == w[m - 1],
        insertion_spec(w.take(m)) == insert_spec(insertion_spec(w.take(m - 1)), w[m - 1]).0,
        recording_spec(w.take(m)) == add_cell(recording_spec(w.take(m - 1)), kth_cell(w, m).0, #[verifier::truncate] (m as u32)),
{
    assert(w.take(m).drop_last() =~= w.take(m - 1));
}

/// The recording tableau labels each cell with the step that created it: in
/// the recording tableau of the first `m` letters, the label `k` sits in the
/// cell that the `k`-th insertion added to the insertion tableau.
pub proof fn lemma_recording_holds_kth_cell(w: Seq<u32>, k: int, m: int)
    requires
        1 <= k <= m <= w.len(),
        w.len() <= u32::MAX,
    ensures
        is_cell(recording_spec(w.take(m)), kth_cell(w, k).0, kth_cell(w, k).1),
        recording_spec(w.take(m))[kth_cell(w, k).0][kth_cell(w, k).1] == k,
    decreases m,
{
    lemma_prefix_step(w, m);
    let q0 = recording_spec(w.take(m - 1));
    let t0 = insertion_spec(w.take(m - 1));
    let cell = kth_cell(w, m);
    lemma_insert_from_shape(t0, 0, w[m - 1]);
    lemma_recording_tableau_props(w.take(m - 1));
    if m == k {
        if cell.0 < q0.len() {
            assert(q0[cell.0].len() == t0[cell.0].len());
        }
    } else {
        lemma_recording_holds_kth_cell(w, k, m - 1);
        let (a, b) = kth_cell(w, k);
        if cell.0 < q0.len() && a == cell.0 {
            assert(q0[a].push(#[verifier::truncate] (m as u32))[b] == q0[a][b]);
        }
    }
}

/// Reading back the first `k` insertions of a word gives its first `k` letters.
proof fn lemma_inverse_prefix(w: Seq<u32>, k: int)
    requires
        0 <= k <= w.len(),
        w.len() <= u32::MAX,
    ensures
        inverse_defined(insertion_spec(w.take(k)), recording_spec(w), k as nat),
        inverse_word(insertion_spec(w.take(k)), recording_spec(w), k as nat) == w.take(k),
    decreases k,
{
    let q = recording_spec(w);
    if k == 0 {
        assert(w.take(0) =~= Seq::<u32>::empty());
    } else {
        lemma_prefix_step(w, k);
        let prev = w.take(k - 1);
        let t0 = insertion_spec(prev);
        let cell = kth_cell(w, k);
        // the cell of q holding k is the cell of the k-th insertion
        lemma_recording_tableau_props(w);
        assert(w.take(w.len() as int) =~= w);
        lemma_recording_holds_kth_cell(w, k, w.len() as int);
        let c = cell_holding(q, k);
        assert(is_cell(q, cell.0, cell.1) && q[cell.0][cell.1] == k);
        assert(is_cell(q, c.0, c.1) && q[c.0][c.1] == k);
        assert(c == cell);
        // the reverse insertion at that cell undoes the k-th insertion
        lemma_insertion_tableau_props(prev);
        lemma_reverse_undoes_insert(t0, w[k - 1]);
        lemma_insert_from_shape(t0, 0, w[k - 1]);
        lemma_inverse_prefix(w, k - 1);
        assert(prev.push(w[k - 1]) =~= w.take(k));
    }
}

/// Reverse insertion recovers any word, repeated values allowed, from its
/// insertion and recording tableaux; the pair meets the requirements of
/// `rsk_inverse`.
pub proof fn lemma_rsk_roundtrip(w: Seq<u32>)
    requires
        w.len() <= u32::MAX,
    ensures
        shape_of(insertion_spec(w)) == shape_of(recording_spec(w)),
        cell_count(insertion_spec(w)) == w.len(),
        cell_count(recording_spec(w)) == cell_count(insertion_spec(w)),
        is_standard_spec(recording_spec(w)),
        inverse_defined(insertion_spec(w), recording_spec(w), cell_count(insertion_spec(w))),
        inverse_word(insertion_spec(w), recording_spec(w), cell_count(insertion_spec(w))) == w,
{
    lemma_insertion_tableau_props(w);
    lemma_recording_tableau_props(w);
    lemma_inverse_prefix(w, w.len() as int);
    assert(w.take(w.len() as int) =~= w);
}

/// `w` is a permutation of `1..=n`, where `n` is its length.
pub open spec fn is_permutation(w: Seq<u32>) -> bool {
    &&& w.no_duplicates()
    &&& forall|i: int| 0 <= i < w.len() ==> 1 <= #[trigger] w[i] <= w.len()
}

/// A permutation of `1..=n` takes every value of `1..=n`.
proof fn lemma_permutation_onto(w: Seq<u32>, v: int)
    requires
        is_permutation(w),
        1 <= v <= w.len(),
    ensures
        w.contains(v as u32),
{
    let n = w.len() as int;
    let ws = w.map_values(|x: u32| x as int);
    assert(ws.no_duplicates()) by {
        assert forall|i: int, j: int| 0 <= i < ws.len() && 0 <= j < ws.len() && i != j implies ws[i] != ws[j] by {
            assert(w[i] != w[j]);
        }
    }
    ws.unique_seq_to_set();
    lemma_int_range(1, n + 1);
    let range = set_int_range(1, n + 1);
    assert(ws.to_set().subset_of(range)) by {
        assert forall|x: int| ws.to_set().contains(x) implies range.contains(x) by {
            assert(ws.contains(x));
            let i = choose|i: int| 0 <= i < ws.len() && ws[i] == x;
            assert(1 <= w[i] <= n);
        }
    }
    lemma_len_subset(ws.to_set(), range);
    lemma_subset_equality(ws.to_set(), range);
    assert(range.contains(v));
    assert(ws.contains(v));
    let i = choose|i: int| 0 <= i < ws.len() && ws[i] == v;
    assert(w[i] == v as u32);
}

/// RSK sends a permutation of `1..=n` to a pair of standard tableaux of the
/// same shape, so the pair is consistent.
pub proof fn lemma_rsk_standard_pair(w: Seq<u32>)
    requires
        is_permutation(w),
        w.len() <= u32::MAX,
    ensures
        is_standard_spec(insertion_spec(w)),
        is_standard_spec(recording_spec(w)),
        shape_of(insertion_spec(w)) == shape_of(recording_spec(w)),
{
    broadcast use {vstd::multiset::group_multiset_axioms, vstd::seq_lib::group_to_multiset_ensures};
    let t = insertion_spec(w);
    let n = w.len();
    lemma_insertion_tableau_props(w);
    lemma_recording_tableau_props(w);
    w.lemma_multiset_has_no_duplicates();
    assert forall|r: int, c: int| is_cell(t, r, c) implies 1 <= #[trigger] t[r][c] <= cell_count(t) by {
        lemma_content_cell(t, r, c);
        assert(w.to_multiset().contains(t[r][c]));
        assert(w.contains(t[r][c]));
        let i = choose|i: int| 0 <= i < w.len() && w[i] == t[r][c];
        assert(1 <= w[i] <= n);
    }
    assert(entries_distinct(t)) by {
        assert forall|r1: int, c1: int, r2: int, c2: int|
            is_cell(t, r1, c1) && is_cell(t, r2, c2) && (r1 != r2 || c1 != c2) implies #[trigger] t[r1][c1]
                != #[trigger] t[r2][c2] by {
            if t[r1][c1] == t[r2][c2] {
                let a = t[r1][c1];
                if r1 == r2 {
                    if c1 < c2 {
                        assert(t[r1][c1] < t[r1][c2]);
                    } else {
                        assert(t[r1][c2] < t[r1][c1]);
                    }
                } else {
                    assert(t[r1].contains(a));
                    assert(t[r2].contains(t[r2][c2]));
                    lemma_content_two_rows(t, r1, r2, a);
                    assert(w.to_multiset().contains(a));
                }
            }
        }
    }
    assert forall|v: int| 1 <= v <= cell_count(t) implies holds_value(t, v) by {
        lemma_permutation_onto(w, v);
        assert(w.to_multiset().count(v as u32) > 0);
        lemma_content_has_cell(t, v as u32);
        let (r, c) = choose|r: int, c: int| is_cell(t, r, c) && #[trigger] t[r][c] == v as u32;
        assert(t[r][c] == v);
    }
}

/// Number of entries of `row` at most `m`.
pub open spec fn count_at_most(row: Seq<u32>, m: int) -> nat
    decreases row.len(),
{
    if row.len() == 0 {
        0
    } else {
        count_at_most(row.drop_last(), m) + if row.last() <= m { 1nat } else { 0nat }
    }
}

/// Length of row `i` of `t`, 0 past the last row.
pub open spec fn row_len(t: Seq<Seq<u32>>, i: int) -> nat {
    if 0 <= i < t.len() {
        t[i].len()
    } else {
        0
    }
}

proof fn lemma_count_all(row: Seq<u32>, m: int)
    requires
        forall|j: int| 0 <= j < row.len() ==> #[trigger] row[j] <= m,
    ensures
        count_at_most(row, m) == row.len(),
    decreases row.len(),
{
    if row.len() > 0 {
        lemma_count_all(row.drop_last(), m);
    }
}

proof fn lemma_count_without(row: Seq<u32>, k: int)
    requires
        forall|j: int| 0 <= j < row.len() ==> #[trigger] row[j] != k,
    ensures
        count_at_most(row, k) == count_at_most(row, k - 1),
    decreases row.len(),
{
    if row.len() > 0 {
        lemma_count_without(row.drop_last(), k);
    }
}

/// The recording tableau records how the insertion tableau grows: for each
/// `k`, each row of Q holds as many labels at most `k` as the same row of the
/// insertion tableau of the first `k` letters has cells.
pub proof fn lemma_recording_counts_prefix_shapes(w: Seq<u32>, k: int)
    requires
        0 <= k <= w.len(),
        w.len() <= u32::MAX,
    ensures
        insertion_spec(w.take(k)).len() <= recording_spec(w).len(),
        forall|i: int| 0 <= i < recording_spec(w).len() ==> #[trigger] count_at_most(recording_spec(w)[i], k)
            == row_len(insertion_spec(w.take(k)), i),
    decreases w.len(),
{
    let q = recording_spec(w);
    lemma_recording_tableau_props(w);
    if k == w.len() {
        assert(w.take(k) =~= w);
        assert forall|i: int| 0 <= i < q.len() implies #[trigger] count_at_most(q[i], k) == row_len(insertion_spec(w.take(k)), i) by {
            assert forall|j: int| 0 <= j < q[i].len() implies #[trigger] q[i][j] <= k by {
                assert(is_cell(q, i, j));
            }
            lemma_count_all(q[i], k);
        }
    } else {
        let prev = w.drop_last();
        let n: int = w.len() as int;
        lemma_recording_counts_prefix_shapes(prev, k);
        assert(prev.take(k) =~= w.take(k));
        lemma_recording_tableau_props(prev);
        let q0 = recording_spec(prev);
        let cell = insert_spec(insertion_spec(prev), w.last()).1;
        assert((n as u32) == n);
        assert(q == add_cell(q0, cell.0, n as u32));
        assert forall|i: int| 0 <= i < q.len() implies #[trigger] count_at_most(q[i], k) == row_len(insertion_spec(w.take(k)), i) by {
            if i < q0.len() {
                assert(count_at_most(q0[i], k) == row_len(insertion_spec(prev.take(k)), i));
                if i == cell.0 {
                    assert(q[i].drop_last() =~= q0[i]);
                    assert(q[i].last() == n);
                    assert(q[i].len() > 0);
                    assert(count_at_most(q[i], k) == count_at_most(q[i].drop_last(), k) + if q[i].last() <= k { 1nat } else { 0nat });
                    assert(count_at_most(q[i], k) == count_at_most(q0[i], k));
                } else {
                    assert(q[i] == q0[i]);
                }
            } else {
                assert(q[i] =~= seq![n as u32]);
                assert(q[i].drop_last() =~= Seq::<u32>::empty());
                assert(count_at_most(Seq::<u32>::empty(), k) == 0);
                assert(count_at_most(q[i], k) == 0);
                assert(insertion_spec(prev.take(k)).len() <= q0.len());
                assert(row_len(insertion_spec(w.take(k)), i) == 0);
            }
        }
    }
}

proof fn lemma_count_at_position(row: Seq<u32>, j: int, k: int)
    requires
        0 <= j < row.len(),
        row[j] == k,
        forall|a: int, b: int| 0 <= a < b < row.len() ==> #[trigger] row[a] < #[trigger] row[b],
    ensures
        count_at_most(row, k) == j + 1,
        count_at_most(row, k - 1) == j,
    decreases row.len(),
{
    let d = row.drop_last();
    if j == row.len() - 1 {
        assert forall|b: int| 0 <= b < d.len() implies #[trigger] d[b] <= k - 1 by {
            assert(row[b] < row[j]);
        }
        lemma_count_all(d, k - 1);
        assert forall|b: int| 0 <= b < d.len() implies #[trigger] d[b] <= k by {
            assert(row[b] < row[j]);
        }
        lemma_count_all(d, k);
    } else {
        assert(row[j] < row[row.len() - 1]);
        lemma_count_at_position(d, j, k);
    }
}

/// The cell of `q` holding `k`, when the rows of `p` are as long as the
/// numbers of labels at most `k` in the rows of a standard `q`, ends a row of
/// `p`; after the reverse insertion there, the rows are as long as the numbers
/// of labels at most `k - 1`.
proof fn lemma_counts_step(p: Seq<Seq<u32>>, q: Seq<Seq<u32>>, k: nat)
    requires
        is_standard_spec(q),
        1 <= k <= cell_count(q),
        p.len() <= q.len(),
        forall|i: int| 0 <= i < q.len() ==> #[trigger] row_len(p, i) == count_at_most(q[i], k as int),
    ensures
        is_cell(q, cell_holding(q, k as int).0, cell_holding(q, k as int).1),
        q[cell_holding(q, k as int).0][cell_holding(q, k as int).1] == k,
        is_cell(p, cell_holding(q, k as int).0, cell_holding(q, k as int).1),
        cell_holding(q, k as int).1 == p[cell_holding(q, k as int).0].len() - 1,
        reverse_spec(p, cell_holding(q, k as int).0, cell_holding(q, k as int).1).0.len() <= q.len(),
        forall|i: int| 0 <= i < q.len() ==> #[trigger] row_len(reverse_spec(p, cell_holding(q, k as int).0, cell_holding(q, k as int).1).0, i)
            == count_at_most(q[i], k - 1),
{
    assert(holds_value(q, k as int));
    let c = cell_holding(q, k as int);
    let (i, j) = c;
    assert(is_cell(q, i, j) && q[i][j] == k);
    assert forall|a: int, b: int| 0 <= a < b < q[i].len() implies #[trigger] q[i][a] < #[trigger] q[i][b] by {}
    lemma_count_at_position(q[i], j, k as int);
    assert(row_len(p, i) == j + 1);
    assert(is_cell(p, i, j));
    let v = p[i][j];
    let t1 = p.update(i, p[i].drop_last());
    let t2 = if t1[i].len() == 0 && i == p.len() - 1 { t1.drop_last() } else { t1 };
    lemma_unbump_lengths(t2, i, v);
    let p2 = reverse_spec(p, i, j).0;
    assert(p2 == unbump_from(t2, i, v).0);
    assert(p2.len() == t2.len());
    assert(t1[i].len() == j);
    assert forall|a: int| 0 <= a < q.len() implies #[trigger] row_len(p2, a) == count_at_most(q[a], k - 1) by {
        if a == i {
            if a < t2.len() {
                assert(t2[a] == t1[a]);
                assert(p2[a].len() == t2[a].len());
            } else {
                assert(j == 0);
            }
        } else {
            assert forall|b: int| 0 <= b < q[a].len() implies #[trigger] q[a][b] != k by {
                assert(is_cell(q, a, b));
                assert(q[a][b] != q[i][j]);
            }
            lemma_count_without(q[a], k as int);
            assert(row_len(p, a) == count_at_most(q[a], k as int));
            if a < t2.len() {
                assert(p2[a].len() == t2[a].len());
                assert(t2[a] == t1[a]);
                assert(t1[a] == p[a]);
            } else if a < p.len() {
                assert(a == p.len() - 1 && a == i);
            }
        }
    }
}

/// When each row of `p` is as long as the number of labels at most `k` in
/// the same row of a standard `q`, the reverse insertions of `inverse_word`
/// all start at cells of the current tableau.
proof fn lemma_inverse_defined_counts(p: Seq<Seq<u32>>, q: Seq<Seq<u32>>, k: nat)
    requires
        is_standard_spec(q),
        k <= cell_count(q),
        p.len() <= q.len(),
        forall|i: int| 0 <= i < q.len() ==> #[trigger] row_len(p, i) == count_at_most(q[i], k as int),
    ensures
        inverse_defined(p, q, k),
    decreases k,
{
    if k > 0 {
        lemma_counts_step(p, q, k);
        let c = cell_holding(q, k as int);
        lemma_inverse_defined_counts(reverse_spec(p, c.0, c.1).0, q, (k - 1) as nat);
    }
}

proof fn lemma_count_below(row: Seq<u32>, m: int, j: int)
    requires
        0 <= j,
        forall|b: int| j <= b < row.len() ==> #[trigger] row[b] > m,
    ensures
        count_at_most(row, m) <= j,
    decreases row.len(),
{
    if row.len() > j {
        lemma_count_below(row.drop_last(), m, j);
    } else if row.len() > 0 {
        lemma_count_below(row.drop_last(), m, j);
        lemma_count_len(row.drop_last(), m);
    }
}

proof fn lemma_count_len(row: Seq<u32>, m: int)
    ensures
        count_at_most(row, m) <= row.len(),
    decreases row.len(),
{
    if row.len() > 0 {
        lemma_count_len(row.drop_last(), m);
    }
}

/// Inserting the word read back from `(p, q)` rebuilds `p`, the `m`-th
/// insertion creating the cell of `q` holding `m`, when the rows of the
/// valid tableau `p` are as long as the numbers of labels at most `k` in
/// the rows of the standard `q`.
proof fn lemma_insert_inverse_word(p: Seq<Seq<u32>>, q: Seq<Seq<u32>>, k: nat)
    requires
        is_standard_spec(q),
        k <= cell_count(q),
        is_valid_tableau(p),
        rows_nonempty(p),
        p.len() <= q.len(),
        forall|i: int| 0 <= i < q.len() ==> #[trigger] row_len(p, i) == count_at_most(q[i], k as int),
    ensures
        inverse_word(p, q, k).len() == k,
        insertion_spec(inverse_word(p, q, k)) == p,
        forall|m: int| 1 <= m <= k ==> #[trigger] kth_cell(inverse_word(p, q, k), m) == cell_holding(q, m),
    decreases k,
{
    let w = inverse_word(p, q, k);
    if k == 0 {
        if p.len() > 0 {
            assert(row_len(p, 0) == count_at_most(q[0], 0));
            assert forall|b: int| 0 <= b < q[0].len() implies #[trigger] q[0][b] > 0 by {
                assert(is_cell(q, 0, b));
            }
            lemma_count_below(q[0], 0, 0);
            assert(p[0].len() > 0);
        }
        assert(p =~= Seq::<Seq<u32>>::empty());
    } else {
        lemma_counts_step(p, q, k);
        let c = cell_holding(q, k as int);
        let (i, j) = c;
        // the cell is an outer corner of p
        if i + 1 < p.len() {
            assert(row_len(p, i + 1) == count_at_most(q[i + 1], k as int));
            assert forall|b: int| j <= b < q[i + 1].len() implies #[trigger] q[i + 1][b] > k by {
                assert(is_cell(q, i + 1, j));
                assert(q[i][j] < q[i + 1][j]);
                if b > j {
                    assert(q[i + 1][j] < q[i + 1][b]);
                }
            }
            lemma_count_below(q[i + 1], k as int, j);
        }
        lemma_insert_undoes_reverse(p, i);
        let (p2, v) = reverse_spec(p, i, j);
        lemma_insert_inverse_word(p2, q, (k - 1) as nat);
        let w2 = inverse_word(p2, q, (k - 1) as nat);
        assert(w == w2.push(v));
        assert(w.drop_last() =~= w2);
        assert(insertion_spec(w) == insert_spec(insertion_spec(w2), v).0);
        assert forall|m: int| 1 <= m <= k implies #[trigger] kth_cell(w, m) == cell_holding(q, m) by {
            assert(w.take(m - 1) =~= w2.take(m - 1)) by {
                assert(m - 1 <= w2.len());
            }
            if m == k {
                assert(w2.take(m - 1) =~= w2);
                assert(w[m - 1] == v);
            } else {
                assert(w[m - 1] == w2[m - 1]);
                assert(kth_cell(w2, m) == cell_holding(q, m));
            }
        }
    }
}

/// RSK undoes `rsk_inverse`: for a valid tableau `p` with nonempty rows and a
/// standard `q` of the same shape, the word read back from `(p, q)` has
/// insertion tableau `p` and recording tableau `q`. With
/// `lemma_rsk_roundtrip`, RSK is a bijection between words and such pairs.
pub proof fn lemma_rsk_of_inverse(p: Seq<Seq<u32>>, q: Seq<Seq<u32>>)
    requires
        is_valid_tableau(p),
        rows_nonempty(p),
        shape_of(p) == shape_of(q),
        is_standard_spec(q),
        cell_count(p) <= u32::MAX,
        forall|i: int| 0 <= i < q.len() ==> #[trigger] q[i].len() <= usize::MAX,
    ensures
        insertion_spec(inverse_word(p, q, cell_count(p))) == p,
        recording_spec(inverse_word(p, q, cell_count(p))) == q,
{
    lemma_consistent_pair_invertible(p, q);
    assert(p.len() == q.len()) by {
        assert(p.len() == shape_of(p).len() && q.len() == shape_of(q).len());
    }
    assert forall|i: int| 0 <= i < p.len() implies #[trigger] p[i].len() == q[i].len() by {
        lemma_row_within_count(p, i);
        assert(shape_of(p)[i] == p[i].len() as usize);
        assert(shape_of(q)[i] == q[i].len() as usize);
        assert(q[i].len() <= usize::MAX);
    }
    let n = cell_count(q);
    assert forall|i: int| 0 <= i < q.len() implies #[trigger] row_len(p, i) == count_at_most(q[i], n as int) by {
        assert forall|b: int| 0 <= b < q[i].len() implies #[trigger] q[i][b] <= n by {
            assert(is_cell(q, i, b));
        }
        lemma_count_all(q[i], n as int);
    }
    lemma_insert_inverse_word(p, q, n);
    let w = inverse_word(p, q, n);
    let r = recording_spec(w);
    lemma_recording_tableau_props(w);
    assert(w.take(w.len() as int) =~= w);
    assert forall|a: int, b: int| is_cell(q, a, b) implies is_cell(r, a, b) && #[trigger] r[a][b] == q[a][b] by {
        let m = q[a][b] as int;
        assert(1 <= m <= n);
        let c = cell_holding(q, m);
        assert(is_cell(q, c.0, c.1) && q[c.0][c.1] == m);
        assert(c == (a, b)) by {
            if c != (a, b) {
                assert(q[c.0][c.1] != q[a][b]);
            }
        }
        lemma_recording_holds_kth_cell(w, m, n as int);
    }
    assert(r.len() == q.len());
    assert forall|a: int| 0 <= a < r.len() implies #[trigger] r[a] =~= q[a] by {
        assert(r[a].len() == p[a].len());
        assert forall|b: int| 0 <= b < r[a].len() implies r[a][b] == q[a][b] by {
            assert(is_cell(q, a, b));
        }
    }
    assert(r =~= q);
}

/// Each row of a tableau has at most as many cells as the tableau.
proof fn lemma_row_within_count(t: Seq<Seq<u32>>, i: int)
    requires
        0 <= i < t.len(),
    ensures
        t[i].len() <= cell_count(t),
{
    lemma_cell_count_take(t, i);
    lemma_cell_count_prefix_bound(t, i + 1);
}

/// A pair of tableaux of the same shape, the second standard, can be read
/// back by `rsk_inverse`: every reverse insertion starts at a cell.
pub proof fn lemma_consistent_pair_invertible(p: Seq<Seq<u32>>, q: Seq<Seq<u32>>)
    requires
        shape_of(p) == shape_of(q),
        is_standard_spec(q),
        cell_count(p) <= usize::MAX,
        forall|i: int| 0 <= i < q.len() ==> #[trigger] q[i].len() <= usize::MAX,
    ensures
        cell_count(q) == cell_count(p),
        inverse_defined(p, q, cell_count(p)),
{
    assert(p.len() == shape_of(p).len() && q.len() == shape_of(q).len());
    assert forall|i: int| 0 <= i < p.len() implies #[trigger] p[i].len() == q[i].len() by {
        lemma_row_within_count(p, i);
        assert(shape_of(p)[i] == p[i].len() as usize);
        assert(shape_of(q)[i] == q[i].len() as usize);
        assert(q[i].len() <= usize::MAX);
    }
    lemma_same_shape_cell_count(p, q);
    let n = cell_count(q);
    assert forall|i: int| 0 <= i < q.len() implies #[trigger] row_len(p, i) == count_at_most(q[i], n as int) by {
        assert forall|b: int| 0 <= b < q[i].len() implies #[trigger] q[i][b] <= n by {
            assert(is_cell(q, i, b));
        }
        lemma_count_all(q[i], n as int);
    }
    lemma_inverse_defined_counts(p, q, n);
}

/// Compute the RSK correspondence for a permutation.
///
/// Given a permutation π of [1..n], returns the pair (P, Q) of standard Young tableaux
/// where P is the insertion tableau and Q is the recording tableau.
pub fn rsk(perm: &[u32]) -> (pair: RSKPair)
    requires
        perm@.len() > 0,
    ensures
        pair.p@ == insertion_spec(perm@),
        pair.q@ == recording_spec(perm@),
{
    let p = insertion_tableau(perm);
    let q = recording_tableau(perm);
    RSKPair { p, q }
}

/// Recover the permutation from an RSK pair by reverse-insertion.
///
/// This is the inverse of the RSK correspondence: for `k` from `n` down to 1,
/// the cell of Q holding `k` is removed from P by reverse insertion, and the
/// value that comes out is the `k`-th letter.
pub fn rsk_inverse(pair: &RSKPair) -> (w: Vec<u32>)
    requires
        cell_count(pair.p@) <= usize::MAX,
        shape_of(pair.p@) == shape_of(pair.q@),
        is_standard_spec(pair.q@),
    ensures
        w@ == inverse_word(pair.p@, pair.q@, cell_count(pair.p@)),
{
    proof {
        assert forall|i: int| 0 <= i < pair.q@.len() implies #[trigger] pair.q@[i].len() <= usize::MAX by {
            assert(pair.q@[i] == pair.q.rows@[i]@);
            assert(pair.q.rows@[i]@.len() == pair.q.rows@[i].len());
        }
        lemma_consistent_pair_invertible(pair.p@, pair.q@);
    }
    let n = pair.p.size();
    if n == 0 {
        assert(inverse_word(pair.p@, pair.q@, 0) =~= Seq::<u32>::empty());
        return Vec::new();
    }
    let ghost q = pair.q@;
    // pos[v - 1] is the cell of Q holding v
    let mut pos: Vec<(usize, usize)> = Vec::new();
    let mut i: usize = 0;
    while i < n
        invariant
            i <= n,
            pos@.len() == i,
        decreases n - i,
    {
        pos.push((0, 0));
        i += 1;
    }
    let mut r: usize = 0;
    while r < pair.q.rows.len()
        invariant
            q == pair.q@,
            n == cell_count(q),
            is_standard_spec(q),
            r <= q.len(),
            pos@.len() == n,
            forall|v: int| 1 <= v <= n && #[trigger] held_before(q, v, r as int, 0) ==> recorded_at(q, pos@, v),
        decreases q.len() - r,
    {
        let row = &pair.q.rows[r];
        assert(row@ == q[r as int]);
        let mut c: usize = 0;
        while c < row.len()
            invariant
                q == pair.q@,
                n == cell_count(q),
                is_standard_spec(q),
                r < q.len(),
                row@ == q[r as int],
                c <= row@.len(),
                pos@.len() == n,
                forall|v: int| 1 <= v <= n && #[trigger] held_before(q, v, r as int, c as int) ==> recorded_at(q, pos@, v),
            decreases row@.len() - c,
        {
            let v = row[c];
            assert(is_cell(q, r as int, c as int));
            assert(1 <= v <= n);
            let ghost old_pos = pos@;
            pos.set((v - 1) as usize, (r, c));
            proof {
                assert forall|w: int| 1 <= w <= n && #[trigger] held_before(q, w, r as int, c + 1) implies recorded_at(q, pos@, w) by {
                    if w != v {
                        let (a, b) = choose|a: int, b: int| is_cell(q, a, b) && (a < r || (a == r && b < c + 1)) && #[trigger] q[a][b] == w;
                        assert(!(a == r && b == c));
                        assert(held_before(q, w, r as int, c as int));
                        assert(pos@[w - 1] == old_pos[w - 1]);
                    }
                }
            }
            c += 1;
        }
        proof {
            assert forall|w: int| 1 <= w <= n && #[trigger] held_before(q, w, r + 1, 0) implies recorded_at(q, pos@, w) by {
                let (a, b) = choose|a: int, b: int| is_cell(q, a, b) && (a < r + 1 || (a == r + 1 && b < 0)) && #[trigger] q[a][b] == w;
                assert(held_before(q, w, r as int, c as int));
            }
        }
        r += 1;
    }
    proof {
        // every value has its unique cell recorded
        assert forall|v: int| 1 <= v <= n implies #[trigger] cell_holding(q, v) == (pos@[v - 1].0 as int, pos@[v - 1].1 as int) by {
            assert(holds_value(q, v));
            let (a, b) = choose|a: int, b: int| is_cell(q, a, b) && #[trigger] q[a][b] == v;
            assert(held_before(q, v, r as int, 0));
            let (a2, b2) = cell_holding(q, v);
            let (a3, b3) = (pos@[v - 1].0 as int, pos@[v - 1].1 as int);
            assert(is_cell(q, a2, b2) && q[a2][b2] == v);
            assert(is_cell(q, a3, b3) && q[a3][b3] == v);
        }
    }
    let ghost p0 = pair.p@;
    let mut p = YoungTableau::from_rows(copy_rows(&pair.p.rows));
    let mut result: Vec<u32> = Vec::new();
    let mut i: usize = 0;
    while i < n
        invariant
            i <= n,
            result@.len() == i,
            forall|j: int| 0 <= j < i ==> #[trigger] result@[j] == 0u32,
        decreases n - i,
    {
        result.push(0);
        i += 1;
    }
    let mut k: usize = n;
    while k > 0
        invariant
            k <= n,
            q == pair.q@,
            result@.len() == n,
            pos@.len() == n,
            forall|v: int| 1 <= v <= n ==> #[trigger] cell_holding(q, v) == (pos@[v - 1].0 as int, pos@[v - 1].1 as int),
            inverse_defined(p@, q, k as nat),
            inverse_word(p0, q, n as nat) == inverse_word(p@, q, k as nat) + result@.subrange(k as int, n as int),
        decreases k,
    {
        let (r, c) = pos[k - 1];
        assert(cell_holding(q, k as int) == (r as int, c as int));
        let ghost before = inverse_word(p@, q, k as nat);
        let (np, b) = reverse_insert(&p, r, c);
        let ghost old_result = result@;
        result.set(k - 1, b);
        p = np;
        proof {
            assert(before == inverse_word(p@, q, (k - 1) as nat).push(b));
            assert(result@.subrange(k - 1, n as int) =~= seq![b] + old_result.subrange(k as int, n as int));
            assert(inverse_word(p@, q, (k - 1) as nat) + result@.subrange(k - 1, n as int) =~= before + old_result.subrange(k as int, n as int));
        }
        k -= 1;
    }
    assert(result@.subrange(0, n as int) =~= result@);
    assert(inverse_word(p@, q, 0) =~= Seq::<u32>::empty());
    assert(inverse_word(p@, q, 0) + result@ =~= result@);
    result
}

/// Find a corner cell (maximal in both coordinates) of the tableau: the last
/// cell of the last row.
pub fn find_corner(tableau: &YoungTableau) -> (cell: (usize, usize))
    requires
        tableau@.len() > 0,
        tableau@[tableau@.len() - 1].len() > 0,
    ensures
        cell.0 == tableau@.len() - 1,
        cell.1 == tableau@[tableau@.len() - 1].len() - 1,
{
    let last_row = tableau.num_rows() - 1;
    assert(tableau.rows@[last_row as int]@ == tableau@[last_row as int]);
    let last_col = tableau.rows[last_row].len() - 1;
    (last_row, last_col)
}

/// Compute the length of the longest increasing subsequence of a permutation.
///
/// This equals the number of columns in the insertion tableau: the length of
/// its first row. For a word with repeated values it is the length of the
/// longest weakly increasing subsequence.
pub fn longest_increasing_subsequence_length(perm: &[u32]) -> (n: usize)
    ensures
        n == first_row(insertion_spec(perm@)).len(),
        exists|idx: Seq<int>| #[trigger] is_nondecreasing_subsequence(perm@, idx) && idx.len() == n,
        forall|idx: Seq<int>| #[trigger] is_nondecreasing_subsequence(perm@, idx) ==> idx.len() <= n,
        forall|idx: Seq<int>| #[trigger] is_increasing_subsequence(perm@, idx) ==> idx.len() <= n,
        perm@.no_duplicates() ==> exists|idx: Seq<int>| #[trigger] is_increasing_subsequence(perm@, idx) && idx.len() == n,
{
    proof {
        lemma_first_row_longest(perm@);
    }
    if perm.len() == 0 {
        assert(perm@ =~= Seq::<u32>::empty());
        return 0;
    }
    let p = insertion_tableau(perm);
    assert(p@.len() > 0) by {
        if p@.len() == 0 {
            assert(cell_count(p@) == 0);
        }
    }
    assert(p.rows@[0]@ == p@[0]);
    p.rows[0].len()
}

/// Compute the length of the longest decreasing subsequence of a permutation.
///
/// This equals the number of rows in the insertion tableau. For a word with
/// repeated values it is the length of the longest strictly decreasing
/// subsequence.
pub fn longest_decreasing_subsequence_length(perm: &[u32]) -> (n: usize)
    ensures
        n == insertion_spec(perm@).len(),
        exists|idx: Seq<int>| #[trigger] is_decreasing_subsequence(perm@, idx) && idx.len() == n,
        forall|idx: Seq<int>| #[trigger] is_decreasing_subsequence(perm@, idx) ==> idx.len() <= n,
{
    proof {
        lemma_rows_longest_decreasing(perm@);
    }
    if perm.len() == 0 {
        return 0;
    }
    let p = insertion_tableau(perm);
    p.num_rows()
}

/// Compute the insertion tableau shape for a permutation.
pub fn insertion_shape(perm: &[u32]) -> (s: Vec<usize>)
    ensures
        s@ == shape_of(insertion_spec(perm@)),
{
    insertion_tableau(perm).shape()
}

/// Whether two shapes are equal.
fn same_shape(a: &Vec<usize>, b: &Vec<usize>) -> (eq: bool)
    ensures
        eq == (a@ == b@),
{
    if a.len() != b.len() {
        return false;
    }
    let mut i: usize = 0;
    while i < a.len()
        invariant
            a@.len() == b@.len(),
            i <= a@.len(),
            forall|j: int| 0 <= j < i ==> #[trigger] a@[j] == b@[j],
        decreases a@.len() - i,
    {
        if a[i] != b[i] {
            return false;
        }
        i += 1;
    }
    assert(a@ =~= b@);
    true
}

/// Check if two RSK pairs are consistent (P and Q have the same shape).
pub fn is_consistent(pair: &RSKPair) -> (b: bool)
    ensures
        b == (shape_of(pair.p@) == shape_of(pair.q@)),
{
    let sp = pair.p.shape();
    let sq = pair.q.shape();
    same_shape(&sp, &sq)
}

/// Compute the RSK correspondence for a general sequence (not necessarily a permutation).
pub fn rsk_general(sequence: &[u32]) -> (pair: RSKPair)
    ensures
        pair.p@ == insertion_spec(sequence@),
        pair.q@ == recording_spec(sequence@),
{
    let p = insertion_tableau(sequence);
    let q = recording_tableau(sequence);
    RSKPair { p, q }
}

} // verus!
