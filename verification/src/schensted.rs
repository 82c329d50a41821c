//! Schensted's theorem for the first row: the first row of the insertion
//! tableau is as long as the longest weakly increasing subsequence.
use vstd::prelude::*;
use crate::insertion::{insert_from, insert_spec, insertion_spec, bump_index, lemma_bump_index};
use crate::insertion_proofs::lemma_insertion_tableau_props;
use crate::rsk::{is_increasing_subsequence, values_at};
use crate::tableau::{prefix_sum, shape_of, parts_sum, lemma_cell_count_take, lemma_cell_count_prefix_bound};

verus! {

// ---------------------------------------------------------------------------
// Specifications
// ---------------------------------------------------------------------------

/// `idx` lists increasing positions of `s` whose values never decrease.
pub open spec fn is_nondecreasing_subsequence(s: Seq<u32>, idx: Seq<int>) -> bool {
    &&& forall|i: int| 0 <= i < idx.len() ==> 0 <= #[trigger] idx[i] < s.len()
    &&& forall|i: int, j: int| 0 <= i < j < idx.len() ==> #[trigger] idx[i] < #[trigger] idx[j]
    &&& forall|i: int, j: int| 0 <= i < j < idx.len() ==> s[#[trigger] idx[i]] <= s[#[trigger] idx[j]]
}

/// The first row of a tableau, empty when there is no row.
pub open spec fn first_row(t: Seq<Seq<u32>>) -> Seq<u32> {
    if t.len() == 0 {
        Seq::empty()
    } else {
        t[0]
    }
}

/// What row insertion does to the first row: `x` replaces the leftmost entry
/// greater than it, or is appended when there is none.
pub open spec fn patience_step(row: Seq<u32>, x: u32) -> Seq<u32> {
    let p = bump_index(row, x);
    if p == row.len() {
        row.push(x)
    } else {
        row.update(p, x)
    }
}

/// Every weakly increasing subsequence of the first `k` letters is no longer
/// than `row`, and ends with a value at least the entry of `row` at its length.
spec fn row_bounds(s: Seq<u32>, k: int, row: Seq<u32>) -> bool {
    forall|idx: Seq<int>|
        #[trigger] is_nondecreasing_subsequence(s.take(k), idx) && idx.len() > 0 ==> idx.len() <= row.len()
            && row[idx.len() - 1] <= s[idx[idx.len() - 1]]
}

/// For each position `j` of `row`, some weakly increasing subsequence of the
/// first `k` letters has length `j + 1` and ends with a value at most `row[j]`.
spec fn row_achieved(s: Seq<u32>, k: int, row: Seq<u32>) -> bool {
    forall|j: int| 0 <= j < row.len() ==> #[trigger] length_reached(s, k, row, j)
}

/// Some weakly increasing subsequence of the first `k` letters has length
/// `j + 1` and ends with a value at most `row[j]`.
spec fn length_reached(s: Seq<u32>, k: int, row: Seq<u32>, j: int) -> bool {
    exists|idx: Seq<int>|
        #[trigger] is_nondecreasing_subsequence(s.take(k), idx) && idx.len() == j + 1 && s[idx[j]] <= row[j]
}

/// Entries of `row` never decrease.
spec fn row_sorted(row: Seq<u32>) -> bool {
    forall|i: int, j: int| 0 <= i < j < row.len() ==> #[trigger] row[i] <= #[trigger] row[j]
}

// ---------------------------------------------------------------------------
// Lemmas
// ---------------------------------------------------------------------------

/// Insertion from row `r` on leaves the rows above `r` alone.
pub proof fn lemma_insert_from_keeps_rows(t: Seq<Seq<u32>>, r: int, v: u32)
    requires
        0 <= r <= t.len(),
    ensures
        insert_from(t, r, v).0.len() >= t.len(),
        forall|i: int| 0 <= i < r ==> #[trigger] insert_from(t, r, v).0[i] == t[i],
    decreases t.len() - r,
{
    if r < t.len() {
        let p = bump_index(t[r], v);
        lemma_bump_index(t[r], v);
        if p < t[r].len() {
            let t1 = t.update(r, t[r].update(p, v));
            lemma_insert_from_keeps_rows(t1, r + 1, t[r][p]);
            assert forall|i: int| 0 <= i < r implies #[trigger] insert_from(t, r, v).0[i] == t[i] by {
                assert(insert_from(t1, r + 1, t[r][p]).0[i] == t1[i]);
            }
        }
    }
}

/// Row insertion acts on the first row as a patience step.
proof fn lemma_first_row_step(t: Seq<Seq<u32>>, x: u32)
    ensures
        first_row(insert_spec(t, x).0) == patience_step(first_row(t), x),
{
    if t.len() == 0 {
        assert(bump_index(Seq::<u32>::empty(), x) == 0);
        assert(seq![x] =~= Seq::<u32>::empty().push(x));
    } else {
        let p = bump_index(t[0], x);
        lemma_bump_index(t[0], x);
        if p < t[0].len() {
            let t1 = t.update(0, t[0].update(p, x));
            lemma_insert_from_keeps_rows(t1, 1, t[0][p]);
            assert(insert_from(t1, 1, t[0][p]).0[0] == t1[0]);
        }
    }
}

/// A weakly increasing subsequence of a prefix is one of any longer prefix.
proof fn lemma_subsequence_extend(s: Seq<u32>, k: int, m: int, idx: Seq<int>)
    requires
        0 <= k <= m <= s.len(),
        is_nondecreasing_subsequence(s.take(k), idx),
    ensures
        is_nondecreasing_subsequence(s.take(m), idx),
{
    assert forall|i: int, j: int| 0 <= i < j < idx.len() implies s.take(m)[#[trigger] idx[i]] <= s.take(m)[#[trigger] idx[j]] by {
        assert(s.take(k)[idx[i]] <= s.take(k)[idx[j]]);
    }
}

/// One letter more: the bounds carry over to the patience step.
proof fn lemma_row_bounds_step(s: Seq<u32>, k: int, row: Seq<u32>)
    requires
        0 <= k < s.len(),
        row_bounds(s, k, row),
        row_sorted(row),
    ensures
        row_bounds(s, k + 1, patience_step(row, s[k])),
{
    let x = s[k];
    let p = bump_index(row, x);
    lemma_bump_index(row, x);
    let row2 = patience_step(row, x);
    assert forall|idx: Seq<int>|
        #[trigger] is_nondecreasing_subsequence(s.take(k + 1), idx) && idx.len() > 0 implies idx.len() <= row2.len()
            && row2[idx.len() - 1] <= s[idx[idx.len() - 1]] by {
        let m = idx.len();
        let last = idx[m - 1];
        assert(0 <= last < k + 1);
        assert forall|i: int| 0 <= i < m implies #[trigger] idx[i] <= last by {
            if i < m - 1 {
                assert(idx[i] < idx[m - 1]);
            }
        }
        if last < k {
            assert(is_nondecreasing_subsequence(s.take(k), idx)) by {
                assert forall|i: int, j: int| 0 <= i < j < idx.len() implies s.take(k)[#[trigger] idx[i]] <= s.take(k)[#[trigger] idx[j]] by {
                    assert(s.take(k + 1)[idx[i]] <= s.take(k + 1)[idx[j]]);
                }
            }
            assert(m <= row.len() && row[m - 1] <= s[last]);
        } else {
            if m >= 2 {
                let idx2 = idx.drop_last();
                assert(is_nondecreasing_subsequence(s.take(k), idx2)) by {
                    assert forall|i: int| 0 <= i < idx2.len() implies 0 <= #[trigger] idx2[i] < s.take(k).len() by {
                        assert(idx[i] < idx[m - 1]);
                    }
                    assert forall|i: int, j: int| 0 <= i < j < idx2.len() implies #[trigger] idx2[i] < #[trigger] idx2[j] by {
                        assert(idx[i] < idx[j]);
                    }
                    assert forall|i: int, j: int| 0 <= i < j < idx2.len() implies s.take(k)[#[trigger] idx2[i]] <= s.take(k)[#[trigger] idx2[j]] by {
                        assert(s.take(k + 1)[idx[i]] <= s.take(k + 1)[idx[j]]);
                        assert(idx[j] < idx[m - 1]);
                    }
                }
                assert(m - 1 <= row.len());
                assert(row[m - 2] <= s[idx2[m - 2]]);
                assert(s.take(k + 1)[idx[m - 2]] <= s.take(k + 1)[idx[m - 1]]);
                assert(row[m - 2] <= x);
                if m - 2 >= p {
                    if m - 2 > p {
                        assert(row[p] <= row[m - 2]);
                    }
                    assert(row[p] > x);
                }
            }
        }
    }
}

/// One letter more: each length reached before is still reached, and the
/// new letter extends a subsequence to the length of its position.
proof fn lemma_row_achieved_step(s: Seq<u32>, k: int, row: Seq<u32>)
    requires
        0 <= k < s.len(),
        row_achieved(s, k, row),
        row_sorted(row),
    ensures
        row_achieved(s, k + 1, patience_step(row, s[k])),
{
    let x = s[k];
    let p = bump_index(row, x);
    lemma_bump_index(row, x);
    let row2 = patience_step(row, x);
    assert forall|j: int| 0 <= j < row2.len() implies #[trigger] length_reached(s, k + 1, row2, j) by {
        if j == p {
            if p == 0 {
                let idx = seq![k];
                assert(is_nondecreasing_subsequence(s.take(k + 1), idx));
                assert(s[idx[0]] <= row2[0]);
            } else {
                assert(length_reached(s, k, row, p - 1));
                let w = choose|idx: Seq<int>|
                    #[trigger] is_nondecreasing_subsequence(s.take(k), idx) && idx.len() == (p - 1) + 1
                        && s[idx[p - 1]] <= row[p - 1];
                let idx = w.push(k);
                assert(row[p - 1] <= x);
                assert forall|i: int| 0 <= i < w.len() implies #[trigger] w[i] < k && s[w[i]] <= x by {
                    if i < p - 1 {
                        assert(s.take(k)[w[i]] <= s.take(k)[w[p - 1]]);
                    }
                }
                assert(is_nondecreasing_subsequence(s.take(k + 1), idx)) by {
                    assert forall|i: int| 0 <= i < idx.len() implies 0 <= #[trigger] idx[i] < s.take(k + 1).len() by {
                        if i < w.len() {
                            assert(idx[i] == w[i]);
                        }
                    }
                    assert forall|i: int, j2: int| 0 <= i < j2 < idx.len() implies #[trigger] idx[i] < #[trigger] idx[j2] by {
                        if j2 < w.len() {
                            assert(w[i] < w[j2]);
                        } else {
                            assert(idx[i] == w[i]);
                        }
                    }
                    assert forall|i: int, j2: int| 0 <= i < j2 < idx.len() implies s.take(k + 1)[#[trigger] idx[i]] <= s.take(k + 1)[#[trigger] idx[j2]] by {
                        assert(idx[i] == w[i]);
                        if j2 < w.len() {
                            assert(idx[j2] == w[j2]);
                            assert(s.take(k)[w[i]] <= s.take(k)[w[j2]]);
                        }
                    }
                }
                assert(s[idx[j]] <= row2[j]);
            }
        } else {
            assert(j < row.len() && row2[j] == row[j]);
            let w = choose|idx: Seq<int>|
                #[trigger] is_nondecreasing_subsequence(s.take(k), idx) && idx.len() == j + 1 && s[idx[j]] <= row[j];
            assert(length_reached(s, k, row, j));
            lemma_subsequence_extend(s, k, k + 1, w);
        }
    }
}

/// The first row of the insertion tableau of every prefix bounds and reaches
/// the lengths of weakly increasing subsequences of that prefix.
proof fn lemma_first_row_invariant(s: Seq<u32>, k: int)
    requires
        0 <= k <= s.len(),
    ensures
        row_bounds(s, k, first_row(insertion_spec(s.take(k)))),
        row_achieved(s, k, first_row(insertion_spec(s.take(k)))),
    decreases k,
{
    if k == 0 {
        assert(s.take(0) =~= Seq::<u32>::empty());
        assert forall|idx: Seq<int>|
            #[trigger] is_nondecreasing_subsequence(s.take(0), idx) && idx.len() > 0 implies idx.len() <= 0 by {
            assert(0 <= idx[0] < s.take(0).len());
        }
    } else {
        lemma_first_row_invariant(s, k - 1);
        let prev = s.take(k - 1);
        let t = insertion_spec(prev);
        assert(s.take(k).drop_last() =~= prev);
        assert(insertion_spec(s.take(k)) == insert_spec(t, s[k - 1]).0);
        lemma_first_row_step(t, s[k - 1]);
        lemma_insertion_tableau_props(prev);
        assert(row_sorted(first_row(t))) by {
            if t.len() > 0 {
                assert forall|i: int, j: int| 0 <= i < j < first_row(t).len() implies #[trigger] first_row(t)[i] <= #[trigger] first_row(t)[j] by {
                    assert(t[0][i] <= t[0][j]);
                }
            }
        }
        lemma_row_bounds_step(s, k - 1, first_row(t));
        lemma_row_achieved_step(s, k - 1, first_row(t));
    }
}

/// Schensted: the first row of the insertion tableau of `s` is as long as the
/// longest weakly increasing subsequence of `s`; when no value repeats, as
/// long as the longest increasing subsequence.
pub proof fn lemma_first_row_longest(s: Seq<u32>)
    ensures
        exists|idx: Seq<int>|
            #[trigger] is_nondecreasing_subsequence(s, idx) && idx.len() == first_row(insertion_spec(s)).len(),
        forall|idx: Seq<int>|
            #[trigger] is_nondecreasing_subsequence(s, idx) ==> idx.len() <= first_row(insertion_spec(s)).len(),
        forall|idx: Seq<int>|
            #[trigger] is_increasing_subsequence(s, idx) ==> idx.len() <= first_row(insertion_spec(s)).len(),
        s.no_duplicates() ==> exists|idx: Seq<int>|
            #[trigger] is_increasing_subsequence(s, idx) && idx.len() == first_row(insertion_spec(s)).len(),
{
    let row = first_row(insertion_spec(s));
    lemma_first_row_invariant(s, s.len() as int);
    assert(s.take(s.len() as int) =~= s);
    let n = row.len();
    if n > 0 {
        assert(length_reached(s, s.len() as int, row, n - 1));
    }
    let w: Seq<int> = if n == 0 {
        Seq::empty()
    } else {
        choose|idx: Seq<int>| #[trigger] is_nondecreasing_subsequence(s.take(s.len() as int), idx) && idx.len() == (n - 1) + 1 && s[idx[n - 1]] <= row[n - 1]
    };
    assert(is_nondecreasing_subsequence(s, w) && w.len() == n);
    assert forall|idx: Seq<int>| #[trigger] is_nondecreasing_subsequence(s, idx) implies idx.len() <= n by {
        if idx.len() > 0 {
            assert(is_nondecreasing_subsequence(s.take(s.len() as int), idx));
        }
    }
    assert forall|idx: Seq<int>| #[trigger] is_increasing_subsequence(s, idx) implies idx.len() <= n by {
        assert(is_nondecreasing_subsequence(s, idx)) by {
            assert forall|i: int, j: int| 0 <= i < j < idx.len() implies s[#[trigger] idx[i]] <= s[#[trigger] idx[j]] by {
                assert(s[idx[i]] < s[idx[j]]);
            }
        }
    }
    if s.no_duplicates() {
        assert(is_increasing_subsequence(s, w)) by {
            assert forall|i: int, j: int| 0 <= i < j < w.len() implies s[#[trigger] w[i]] < s[#[trigger] w[j]] by {
                assert(s[w[i]] <= s[w[j]]);
                assert(w[i] < w[j]);
                assert(s[w[i]] != s[w[j]]);
            }
        }
    }
}

/// Patience sorting and RSK agree: the values of a longest increasing
/// subsequence of a word without repeated values are as many as the first row
/// of its insertion tableau has cells.
pub proof fn lemma_patience_matches_first_row(s: Seq<u32>, lis: Seq<u32>)
    requires
        s.no_duplicates(),
        exists|idx: Seq<int>| #[trigger] is_increasing_subsequence(s, idx) && values_at(s, idx, lis),
        forall|idx: Seq<int>| #[trigger] is_increasing_subsequence(s, idx) ==> idx.len() <= lis.len(),
    ensures
        lis.len() == first_row(insertion_spec(s)).len(),
{
    lemma_first_row_longest(s);
    let idx = choose|idx: Seq<int>| #[trigger] is_increasing_subsequence(s, idx) && values_at(s, idx, lis);
    let best = choose|idx: Seq<int>| #[trigger] is_increasing_subsequence(s, idx) && idx.len() == first_row(insertion_spec(s)).len();
    assert(best.len() <= lis.len());
    assert(idx.len() <= first_row(insertion_spec(s)).len());
}

/// The first Greene invariant is the length of the first row, hence the
/// length of the longest weakly increasing subsequence.
pub proof fn lemma_first_greene_invariant(s: Seq<u32>)
    requires
        s.len() <= usize::MAX,
    ensures
        prefix_sum(shape_of(insertion_spec(s)), 1) == first_row(insertion_spec(s)).len(),
{
    let t = insertion_spec(s);
    let sh = shape_of(t);
    lemma_insertion_tableau_props(s);
    if t.len() > 0 {
        lemma_cell_count_take(t, 0);
        lemma_cell_count_prefix_bound(t, 1);
        assert(t.take(0) =~= Seq::<Seq<u32>>::empty());
        assert(t[0].len() <= s.len());
        assert(sh[0] == t[0].len());
    }
    if sh.len() == 0 {
        assert(parts_sum(sh) == 0);
    } else if sh.len() == 1 {
        assert(sh.drop_last() =~= Seq::<usize>::empty());
        assert(parts_sum(sh) == parts_sum(sh.drop_last()) + sh[0]);
    } else {
        assert(sh.take(1).drop_last() =~= Seq::<usize>::empty());
        assert(parts_sum(sh.take(1)) == parts_sum(sh.take(1).drop_last()) + sh.take(1).last());
    }
}

} // verus!
