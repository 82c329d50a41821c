//! Greene's theorem: the sum of the first `k` row lengths of the insertion
//! tableau of a word is the largest number of its letters that `k` disjoint
//! weakly increasing subsequences can hold together.
//!
//! `k` disjoint subsequences are given by a cover: each position is assigned
//! one of the subsequences `0..k` or none (`-1`), and the positions assigned
//! the same subsequence carry values that never decrease from left to right.
use vstd::prelude::*;
use crate::hook_formula::{sum_range, lemma_sum_ext, lemma_sum_split, lemma_sum_zero, lemma_sum_const};
use crate::knuth::{reading_from, reading_word, lemma_word_equivalent_reading};
use crate::insertion::insertion_spec;
use crate::insertion_proofs::lemma_insertion_tableau_props;
use crate::tableau::{cell_count, lemma_cell_count_take, lemma_cell_count_prefix_bound};
use crate::tableau::{rows_weakly_increasing, columns_strictly_increasing, is_partition_shape};
use crate::hook_formula::{lemma_sum_add, lemma_sum_swap, row_sums, col_sums, lemma_parts_sum_range};
use crate::tableau::{prefix_sum, shape_of, parts_sum};
use vstd::set_lib::{lemma_len_subset, lemma_int_range, set_int_range};
use crate::knuth::{first_move_at, second_move_at, swap_adjacent, knuth_step, knuth_chain, knuth_equivalent};

verus! {

// ---------------------------------------------------------------------------
// Covers by disjoint weakly increasing subsequences
// ---------------------------------------------------------------------------

/// `lab` assigns each position of `s` to one of `k` subsequences (`0..k`) or
/// to none (`-1`); along each subsequence the values never decrease.
pub open spec fn is_increasing_cover(s: Seq<u32>, lab: Seq<int>, k: int) -> bool {
    &&& lab.len() == s.len()
    &&& forall|p: int| 0 <= p < lab.len() ==> -1 <= #[trigger] lab[p] < k
    &&& forall|p: int, q: int|
        0 <= p < q < lab.len() && #[trigger] lab[p] == #[trigger] lab[q] && lab[p] >= 0 ==> s[p] <= s[q]
}

/// Like `is_increasing_cover`, with values strictly increasing along each subsequence.
pub open spec fn is_strictly_increasing_cover(s: Seq<u32>, lab: Seq<int>, k: int) -> bool {
    &&& lab.len() == s.len()
    &&& forall|p: int| 0 <= p < lab.len() ==> -1 <= #[trigger] lab[p] < k
    &&& forall|p: int, q: int|
        0 <= p < q < lab.len() && #[trigger] lab[p] == #[trigger] lab[q] && lab[p] >= 0 ==> s[p] < s[q]
}

/// 1 for a position assigned to a subsequence, 0 otherwise.
pub open spec fn assigned(lab: Seq<int>) -> spec_fn(int) -> int {
    |p: int| if lab[p] >= 0 { 1int } else { 0int }
}

/// The number of positions assigned to a subsequence: the total length of
/// the subsequences.
pub open spec fn cover_size(lab: Seq<int>) -> int {
    sum_range(0, lab.len() as int, assigned(lab))
}

/// Some cover of `s` by `k` disjoint weakly increasing subsequences has total length `m`.
pub open spec fn has_cover(s: Seq<u32>, k: int, m: int) -> bool {
    exists|lab: Seq<int>| #[trigger] is_increasing_cover(s, lab, k) && cover_size(lab) == m
}

/// The assignments of positions `a` and `a + 1` exchanged.
pub open spec fn swap_labels(lab: Seq<int>, a: int) -> Seq<int> {
    lab.update(a, lab[a + 1]).update(a + 1, lab[a])
}

/// `l` with the subsequences `x` and `y` exchanged.
pub open spec fn exchange(l: int, x: int, y: int) -> int {
    if l == x {
        y
    } else if l == y {
        x
    } else {
        l
    }
}

/// Exchanging two adjacent positions keeps a cover that does not assign them
/// to the same subsequence, and its size.
proof fn lemma_swap_cover(u: Seq<u32>, lab: Seq<int>, k: int, a: int)
    requires
        is_increasing_cover(u, lab, k),
        0 <= a,
        a + 1 < u.len(),
        !(lab[a] >= 0 && lab[a] == lab[a + 1]),
    ensures
        is_increasing_cover(swap_adjacent(u, a), swap_labels(lab, a), k),
        cover_size(swap_labels(lab, a)) == cover_size(lab),
{
    let v = swap_adjacent(u, a);
    let l2 = swap_labels(lab, a);
    let n = lab.len() as int;
    assert forall|p: int, q: int|
        0 <= p < q < n && #[trigger] l2[p] == #[trigger] l2[q] && l2[p] >= 0 implies v[p] <= v[q] by {
        let sp: int = if p == a { a + 1 } else if p == a + 1 { a } else { p };
        let sq: int = if q == a { a + 1 } else if q == a + 1 { a } else { q };
        assert(l2[p] == lab[sp] && v[p] == u[sp]);
        assert(l2[q] == lab[sq] && v[q] == u[sq]);
        assert(lab[sp] == lab[sq]);
        if sp < sq {
            assert(u[sp] <= u[sq]);
        } else {
            assert(p == a && q == a + 1);
        }
    }
    // the size: the two terms trade places
    lemma_sum_split(0, a, n, assigned(lab));
    lemma_sum_split(a, a + 2, n, assigned(lab));
    lemma_sum_split(0, a, n, assigned(l2));
    lemma_sum_split(a, a + 2, n, assigned(l2));
    lemma_sum_ext(0, a, assigned(lab), assigned(l2));
    lemma_sum_ext(a + 2, n, assigned(lab), assigned(l2));
    assert(sum_range(a, a + 2, assigned(lab)) == assigned(lab)(a) + assigned(lab)(a + 1)) by {
        assert(sum_range(a, a, assigned(lab)) == 0);
        assert(sum_range(a, a + 1, assigned(lab)) == assigned(lab)(a));
    }
    assert(sum_range(a, a + 2, assigned(l2)) == assigned(l2)(a) + assigned(l2)(a + 1)) by {
        assert(sum_range(a, a, assigned(l2)) == 0);
        assert(sum_range(a, a + 1, assigned(l2)) == assigned(l2)(a));
    }
}

/// Positions `a..a+3` of a cover: the indicator sum over three positions.
proof fn lemma_three_terms(f: spec_fn(int) -> int, g: spec_fn(int) -> int, n: int, a: int)
    requires
        0 <= a,
        a + 3 <= n,
        forall|p: int| 0 <= p < n && (p < a || p >= a + 3) ==> #[trigger] f(p) == g(p),
        f(a) + f(a + 1) + f(a + 2) == g(a) + g(a + 1) + g(a + 2),
    ensures
        sum_range(0, n, f) == sum_range(0, n, g),
{
    lemma_sum_split(0, a, n, f);
    lemma_sum_split(a, a + 3, n, f);
    lemma_sum_split(0, a, n, g);
    lemma_sum_split(a, a + 3, n, g);
    lemma_sum_ext(0, a, f, g);
    lemma_sum_ext(a + 3, n, f, g);
    assert(sum_range(a, a + 3, f) == f(a) + f(a + 1) + f(a + 2)) by {
        assert(sum_range(a, a, f) == 0);
        assert(sum_range(a, a + 1, f) == f(a));
        assert(sum_range(a, a + 2, f) == f(a) + f(a + 1));
    }
    assert(sum_range(a, a + 3, g) == g(a) + g(a + 1) + g(a + 2)) by {
        assert(sum_range(a, a, g) == 0);
        assert(sum_range(a, a + 1, g) == g(a));
        assert(sum_range(a, a + 2, g) == g(a) + g(a + 1));
    }
}

/// The first elementary move, made forward, keeps the sizes of covers.
proof fn lemma_first_move_cover(u: Seq<u32>, v: Seq<u32>, i: int, lab: Seq<int>, k: int)
    requires
        first_move_at(u, v, i),
        is_increasing_cover(u, lab, k),
    ensures
        has_cover(v, k, cover_size(lab)),
{
    let n = u.len() as int;
    if !(lab[i] >= 0 && lab[i] == lab[i + 1]) {
        lemma_swap_cover(u, lab, k, i);
        assert(is_increasing_cover(v, swap_labels(lab, i), k));
    } else {
        // u holds x z y at i..i+3, x <= y < z; the subsequence `js` takes x z
        let js = lab[i];
        let jt = lab[i + 2];
        if jt < 0 {
            let l2 = lab.update(i, -1).update(i + 1, js).update(i + 2, js);
            assert forall|p: int, q: int|
                0 <= p < q < n && #[trigger] l2[p] == #[trigger] l2[q] && l2[p] >= 0 implies v[p] <= v[q] by {
                if p != i && p != i + 1 && p != i + 2 && q != i && q != i + 1 && q != i + 2 {
                    assert(u[p] <= u[q]);
                } else if l2[p] == js {
                    if p < i {
                        assert(u[p] <= u[i]);
                    }
                    if q > i + 2 {
                        assert(u[i + 1] <= u[q]);
                    }
                }
            }
            lemma_three_terms(assigned(lab), assigned(l2), n, i);
            assert(is_increasing_cover(v, l2, k));
        } else {
            // the subsequence `jt` takes y: exchange the tails after i+2
            assert(jt != js) by {
                if jt == js {
                    assert(u[i + 1] <= u[i + 2]);
                }
            }
            let l2 = Seq::new(
                lab.len(),
                |p: int|
                    if p < i {
                        lab[p]
                    } else if p == i {
                        jt
                    } else if p == i + 1 || p == i + 2 {
                        js
                    } else {
                        exchange(lab[p], js, jt)
                    },
            );
            assert forall|p: int, q: int|
                0 <= p < q < n && #[trigger] l2[p] == #[trigger] l2[q] && l2[p] >= 0 implies v[p] <= v[q] by {
                let l = l2[p];
                if p > i + 2 {
                    assert(lab[p] == lab[q]);
                    assert(u[p] <= u[q]);
                } else if q < i {
                    assert(u[p] <= u[q]);
                } else if l == js {
                    // below i the old js, then x y at i+1, i+2, then the old jt
                    if p < i {
                        assert(lab[p] == js);
                        assert(u[p] <= u[i]);
                    }
                    if q > i + 2 {
                        assert(lab[q] == jt);
                        assert(u[i + 2] <= u[q]);
                    }
                } else if l == jt {
                    // below i the old jt, then z at i, then the old js
                    if p < i {
                        assert(lab[p] == jt);
                        assert(u[p] <= u[i + 2]);
                    }
                    if q > i + 2 {
                        assert(lab[q] == js);
                        assert(u[i + 1] <= u[q]);
                    }
                } else {
                    assert(lab[p] == l && lab[q] == l);
                    assert(u[p] <= u[q]);
                }
            }
            assert forall|p: int| 0 <= p < n implies -1 <= #[trigger] l2[p] < k by {}
            assert forall|p: int| 0 <= p < n implies #[trigger] assigned(lab)(p) == assigned(l2)(p) by {}
            lemma_sum_ext(0, n, assigned(lab), assigned(l2));
            assert(is_increasing_cover(v, l2, k));
        }
    }
}

/// The second elementary move, made forward, keeps the sizes of covers.
proof fn lemma_second_move_cover(u: Seq<u32>, v: Seq<u32>, i: int, lab: Seq<int>, k: int)
    requires
        second_move_at(u, v, i),
        is_increasing_cover(u, lab, k),
    ensures
        has_cover(v, k, cover_size(lab)),
{
    let n = u.len() as int;
    if !(lab[i + 1] >= 0 && lab[i + 1] == lab[i + 2]) {
        lemma_swap_cover(u, lab, k, i + 1);
        assert(is_increasing_cover(v, swap_labels(lab, i + 1), k));
    } else {
        // u holds y x z at i..i+3, x < y <= z; the subsequence `js` takes x z
        let js = lab[i + 1];
        let jt = lab[i];
        if jt < 0 {
            let l2 = lab.update(i, js).update(i + 1, js).update(i + 2, -1);
            assert forall|p: int, q: int|
                0 <= p < q < n && #[trigger] l2[p] == #[trigger] l2[q] && l2[p] >= 0 implies v[p] <= v[q] by {
                if p != i && p != i + 1 && p != i + 2 && q != i && q != i + 1 && q != i + 2 {
                    assert(u[p] <= u[q]);
                } else if l2[p] == js {
                    if p < i {
                        assert(u[p] <= u[i + 1]);
                    }
                    if q > i + 2 {
                        assert(u[i + 2] <= u[q]);
                    }
                }
            }
            lemma_three_terms(assigned(lab), assigned(l2), n, i);
            assert(is_increasing_cover(v, l2, k));
        } else {
            // the subsequence `jt` takes y: exchange the heads before i
            assert(jt != js) by {
                if jt == js {
                    assert(u[i] <= u[i + 1]);
                }
            }
            let l2 = Seq::new(
                lab.len(),
                |p: int|
                    if p < i {
                        exchange(lab[p], js, jt)
                    } else if p == i || p == i + 1 {
                        js
                    } else if p == i + 2 {
                        jt
                    } else {
                        lab[p]
                    },
            );
            assert forall|p: int, q: int|
                0 <= p < q < n && #[trigger] l2[p] == #[trigger] l2[q] && l2[p] >= 0 implies v[p] <= v[q] by {
                let l = l2[p];
                if q < i {
                    assert(lab[p] == lab[q]);
                    assert(u[p] <= u[q]);
                } else if p > i + 2 {
                    assert(u[p] <= u[q]);
                } else if l == js {
                    // the old jt before i, then y z at i, i+1, then the old js
                    if p < i {
                        assert(lab[p] == jt);
                        assert(u[p] <= u[i]);
                    }
                    if q > i + 2 {
                        assert(lab[q] == js);
                        assert(u[i + 2] <= u[q]);
                    }
                } else if l == jt {
                    // the old js before i, then x at i+2, then the old jt
                    if p < i {
                        assert(lab[p] == js);
                        assert(u[p] <= u[i + 1]);
                    }
                    if q > i + 2 {
                        assert(lab[q] == jt);
                        assert(u[i] <= u[q]);
                    }
                } else {
                    assert(lab[p] == l && lab[q] == l);
                    assert(u[p] <= u[q]);
                }
            }
            assert forall|p: int| 0 <= p < n implies -1 <= #[trigger] l2[p] < k by {}
            assert forall|p: int| 0 <= p < n implies #[trigger] assigned(lab)(p) == assigned(l2)(p) by {}
            lemma_sum_ext(0, n, assigned(lab), assigned(l2));
            assert(is_increasing_cover(v, l2, k));
        }
    }
}

/// An elementary move, either way, keeps the sizes of covers that exist.
proof fn lemma_move_keeps_covers(u: Seq<u32>, v: Seq<u32>, i: int, k: int, m: int)
    requires
        first_move_at(u, v, i) || second_move_at(u, v, i),
    ensures
        has_cover(u, k, m) <==> has_cover(v, k, m),
{
    if has_cover(u, k, m) {
        let lab = choose|lab: Seq<int>| #[trigger] is_increasing_cover(u, lab, k) && cover_size(lab) == m;
        if first_move_at(u, v, i) {
            lemma_first_move_cover(u, v, i, lab, k);
        } else {
            lemma_second_move_cover(u, v, i, lab, k);
        }
    }
    if has_cover(v, k, m) {
        let lab = choose|lab: Seq<int>| #[trigger] is_increasing_cover(v, lab, k) && cover_size(lab) == m;
        let a: int = if first_move_at(u, v, i) { i } else { i + 1 };
        assert(swap_adjacent(v, a) =~= u);
        assert(!(lab[a] >= 0 && lab[a] == lab[a + 1])) by {
            if lab[a] >= 0 && lab[a] == lab[a + 1] {
                assert(v[a] <= v[a + 1]);
            }
        }
        lemma_swap_cover(v, lab, k, a);
        assert(is_increasing_cover(u, swap_labels(lab, a), k));
    }
}

/// Knuth equivalent words have covers of the same sizes.
proof fn lemma_chain_keeps_covers(u: Seq<u32>, v: Seq<u32>, n: nat, k: int, m: int)
    requires
        knuth_chain(u, v, n),
    ensures
        has_cover(u, k, m) <==> has_cover(v, k, m),
    decreases n,
{
    if n > 0 {
        let w = choose|w: Seq<u32>| #[trigger] knuth_step(u, w) && knuth_chain(w, v, (n - 1) as nat);
        lemma_chain_keeps_covers(w, v, (n - 1) as nat, k, m);
        let i = choose|i: int|
            #![trigger first_move_at(u, w, i)]
            #![trigger first_move_at(w, u, i)]
            #![trigger second_move_at(u, w, i)]
            #![trigger second_move_at(w, u, i)]
            first_move_at(u, w, i) || first_move_at(w, u, i) || second_move_at(u, w, i) || second_move_at(w, u, i);
        if first_move_at(u, w, i) || second_move_at(u, w, i) {
            lemma_move_keeps_covers(u, w, i, k, m);
        } else {
            lemma_move_keeps_covers(w, u, i, k, m);
        }
    }
}

/// Knuth equivalent words have covers by `k` disjoint weakly increasing
/// subsequences of exactly the same sizes.
pub proof fn lemma_knuth_keeps_covers(u: Seq<u32>, v: Seq<u32>, k: int, m: int)
    requires
        knuth_equivalent(u, v),
    ensures
        has_cover(u, k, m) <==> has_cover(v, k, m),
{
    let n = choose|n: nat| #[trigger] knuth_chain(u, v, n);
    lemma_chain_keeps_covers(u, v, n, k, m);
}

// ---------------------------------------------------------------------------
// Covers of reading words
// ---------------------------------------------------------------------------

/// Sums over a range shifted by `d`.
proof fn lemma_sum_shift(lo: int, hi: int, f: spec_fn(int) -> int, g: spec_fn(int) -> int, d: int)
    requires
        forall|i: int| lo <= i < hi ==> #[trigger] f(i) == g(i + d),
    ensures
        sum_range(lo, hi, f) == sum_range(lo + d, hi + d, g),
    decreases hi - lo,
{
    if hi > lo {
        lemma_sum_shift(lo, hi - 1, f, g, d);
    }
}

/// The size of a cover of a concatenation.
proof fn lemma_cover_size_concat(a: Seq<int>, b: Seq<int>)
    ensures
        cover_size(a + b) == cover_size(a) + cover_size(b),
{
    let ab = a + b;
    let la = a.len() as int;
    let lb = b.len() as int;
    lemma_sum_split(0, la, la + lb, assigned(ab));
    lemma_sum_ext(0, la, assigned(ab), assigned(a));
    lemma_sum_shift(0, lb, assigned(b), assigned(ab), la);
}

/// Row `r` and the rows below: row `i` is the subsequence `i` when `i < k`,
/// unassigned otherwise.
pub open spec fn row_cover(t: Seq<Seq<u32>>, r: int, k: int) -> Seq<int>
    decreases t.len() - r,
{
    if 0 <= r < t.len() {
        row_cover(t, r + 1, k) + Seq::new(t[r].len(), |c: int| if r < k { r } else { -1 })
    } else {
        Seq::empty()
    }
}

/// Lengths of the rows below the first `k`, counted from row `r`.
pub open spec fn top_rows_lengths(t: Seq<Seq<u32>>, k: int) -> spec_fn(int) -> int {
    |i: int| if i < k { t[i].len() as int } else { 0 }
}

/// The rows of a tableau with weakly increasing rows, the first `k` of them,
/// cover its reading word.
pub proof fn lemma_row_cover(t: Seq<Seq<u32>>, r: int, k: int)
    requires
        rows_weakly_increasing(t),
        0 <= r <= t.len(),
        k >= 0,
    ensures
        is_increasing_cover(reading_from(t, r), row_cover(t, r, k), k),
        cover_size(row_cover(t, r, k)) == sum_range(r, t.len() as int, top_rows_lengths(t, k)),
        forall|p: int| 0 <= p < row_cover(t, r, k).len() ==> #[trigger] row_cover(t, r, k)[p] == -1
            || r <= row_cover(t, r, k)[p],
    decreases t.len() - r,
{
    if r == t.len() {
        assert(row_cover(t, r, k) =~= Seq::<int>::empty());
        assert(reading_from(t, r) =~= Seq::<u32>::empty());
    } else {
        lemma_row_cover(t, r + 1, k);
        let a = reading_from(t, r + 1);
        let la = row_cover(t, r + 1, k);
        let lbl: int = if r < k { r } else { -1 };
        let blk = Seq::new(t[r].len(), |c: int| lbl);
        let lab = row_cover(t, r, k);
        let w = reading_from(t, r);
        assert(lab == la + blk);
        assert(w == a + t[r]);
        assert(la.len() == a.len());
        assert forall|p: int, q: int|
            0 <= p < q < lab.len() && #[trigger] lab[p] == #[trigger] lab[q] && lab[p] >= 0 implies w[p] <= w[q] by {
            let n = a.len() as int;
            if q < n {
                assert(la[p] == la[q]);
            } else if p >= n {
                assert(t[r][p - n] <= t[r][q - n]);
            } else {
                assert(la[p] >= r + 1);
            }
        }
        lemma_cover_size_concat(la, blk);
        lemma_sum_const(0, t[r].len() as int, assigned(blk), if r < k { 1int } else { 0int });
        assert(sum_range(r, t.len() as int, top_rows_lengths(t, k)) == top_rows_lengths(t, k)(r) + sum_range(r + 1, t.len() as int, top_rows_lengths(t, k))) by {
            lemma_sum_split(r, r + 1, t.len() as int, top_rows_lengths(t, k));
            assert(sum_range(r, r, top_rows_lengths(t, k)) == 0);
        }
        assert(t[r].len() as int * (if r < k { 1int } else { 0int }) == top_rows_lengths(t, k)(r));
    }
}

/// The subsequences meeting column `c` in rows `r` and below, for a cover
/// `lab` of the reading of those rows.
pub open spec fn column_labels(t: Seq<Seq<u32>>, r: int, lab: Seq<int>, c: int) -> Set<int>
    decreases t.len() - r,
{
    if 0 <= r < t.len() {
        let n = reading_from(t, r + 1).len() as int;
        column_labels(t, r + 1, lab.take(n), c) + (if 0 <= c < t[r].len() && lab[n + c] >= 0 {
            set![lab[n + c]]
        } else {
            Set::empty()
        })
    } else {
        Set::empty()
    }
}

/// 1 for the rows reaching column `c`.
pub open spec fn reaches(t: Seq<Seq<u32>>, c: int) -> spec_fn(int) -> int {
    |i: int| if c < t[i].len() { 1int } else { 0int }
}

/// For each column, the number of subsequences meeting it.
pub open spec fn label_counts(t: Seq<Seq<u32>>, r: int, lab: Seq<int>) -> spec_fn(int) -> int {
    |c: int| column_labels(t, r, lab, c).len() as int
}

/// 1 for a cell of row `r` at column `c` that the cover assigns.
pub open spec fn new_in_row(t: Seq<Seq<u32>>, r: int, lab: Seq<int>) -> spec_fn(int) -> int {
    |c: int| {
        let n = reading_from(t, r + 1).len() as int;
        if 0 <= c < t[r].len() && lab[n + c] >= 0 { 1int } else { 0int }
    }
}

/// In the reading of a semistandard tableau of partition shape, a weakly
/// increasing subsequence meets each column at most once: the size of a
/// cover is the sum over the columns of the number of subsequences meeting
/// it, and a column of height `h` is met by at most `h` of them.
proof fn lemma_column_labels(t: Seq<Seq<u32>>, r: int, lab: Seq<int>, k: int, wdt: int)
    requires
        rows_weakly_increasing(t),
        columns_strictly_increasing(t),
        is_partition_shape(t),
        0 <= r <= t.len(),
        is_increasing_cover(reading_from(t, r), lab, k),
        forall|i: int| 0 <= i < t.len() ==> #[trigger] t[i].len() <= wdt,
        0 <= wdt,
    ensures
        forall|c: int| #[trigger] column_labels(t, r, lab, c).finite(),
        forall|c: int, l: int| #[trigger] column_labels(t, r, lab, c).contains(l) ==> 0 <= l < k,
        forall|c: int| #[trigger] column_labels(t, r, lab, c).len() <= sum_range(r, t.len() as int, reaches(t, c)),
        cover_size(lab) == sum_range(0, wdt, label_counts(t, r, lab)),
        forall|c: int, l: int| #[trigger] column_labels(t, r, lab, c).contains(l) ==> 0 <= c < t[r].len() && exists|p: int|
            0 <= p < lab.len() && lab[p] == l && #[trigger] reading_from(t, r)[p] >= t[r][c],
    decreases t.len() - r,
{
    if r == t.len() {
        assert(lab.len() == 0);
        assert forall|c: int| 0 <= c < wdt implies #[trigger] label_counts(t, r, lab)(c) == 0 by {
            assert(column_labels(t, r, lab, c) == Set::<int>::empty());
        }
        lemma_sum_zero(0, wdt, label_counts(t, r, lab));
        assert(cover_size(lab) == 0);
        assert forall|c: int| #[trigger] column_labels(t, r, lab, c).len() <= sum_range(r, t.len() as int, reaches(t, c)) by {
            assert(column_labels(t, r, lab, c) == Set::<int>::empty());
        }
    } else {
        let a = reading_from(t, r + 1);
        let n = a.len() as int;
        let w = reading_from(t, r);
        assert(w == a + t[r]);
        let la = lab.take(n);
        let lb = lab.skip(n);
        assert(lab =~= la + lb);
        assert(is_increasing_cover(a, la, k)) by {
            assert forall|p: int, q: int|
                0 <= p < q < la.len() && #[trigger] la[p] == #[trigger] la[q] && la[p] >= 0 implies a[p] <= a[q] by {
                assert(lab[p] == lab[q]);
                assert(w[p] <= w[q]);
            }
        }
        lemma_column_labels(t, r + 1, la, k, wdt);
        // the labels new in each column are not there yet
        assert forall|c: int| 0 <= c < t[r].len() && lab[n + c] >= 0 implies !#[trigger] column_labels(t, r + 1, la, c).contains(
            lab[n + c],
        ) by {
            let l = lab[n + c];
            if column_labels(t, r + 1, la, c).contains(l) {
                let p = choose|p: int| 0 <= p < la.len() && la[p] == l && #[trigger] a[p] >= t[r + 1][c];
                assert(t[r][c] < t[r + 1][c]);
                assert(w[p] == a[p]);
                assert(w[n + c] == t[r][c]);
                assert(lab[p] == lab[n + c]);
            }
        }
        assert forall|c: int| #[trigger] column_labels(t, r, lab, c).finite() by {
            broadcast use vstd::set::group_set_axioms;
            let old = column_labels(t, r + 1, la, c);
            assert(old.finite());
            if 0 <= c < t[r].len() && lab[n + c] >= 0 {
                let l = lab[n + c];
                assert(old + set![l] =~= old.insert(l));
            } else {
                assert(old + Set::<int>::empty() =~= old);
            }
        }
        assert forall|c: int, l: int| #[trigger] column_labels(t, r, lab, c).contains(l) implies 0 <= l < k by {
            if !column_labels(t, r + 1, la, c).contains(l) {
                assert(l == lab[n + c]);
            }
        }
        assert forall|c: int| #[trigger] label_counts(t, r, lab)(c) == label_counts(t, r + 1, la)(c) + new_in_row(t, r, lab)(c) by {
            let old = column_labels(t, r + 1, la, c);
            if 0 <= c < t[r].len() && lab[n + c] >= 0 {
                let l = lab[n + c];
                assert(old + set![l] =~= old.insert(l));
            } else {
                assert(old + Set::<int>::empty() =~= old);
            }
        }
        assert forall|c: int| #[trigger] column_labels(t, r, lab, c).len() <= sum_range(r, t.len() as int, reaches(t, c)) by {
            lemma_sum_split(r, r + 1, t.len() as int, reaches(t, c));
            assert(sum_range(r, r + 1, reaches(t, c)) == reaches(t, c)(r)) by {
                assert(sum_range(r, r, reaches(t, c)) == 0);
            }
            assert(label_counts(t, r, lab)(c) == label_counts(t, r + 1, la)(c) + new_in_row(t, r, lab)(c));
        }
        // sizes
        lemma_cover_size_concat(la, lb);
        let lr = t[r].len() as int;
        assert(lr <= wdt);
        lemma_sum_split(0, lr, wdt, new_in_row(t, r, lab));
        assert forall|c: int| lr <= c < wdt implies #[trigger] new_in_row(t, r, lab)(c) == 0 by {}
        lemma_sum_zero(lr, wdt, new_in_row(t, r, lab));
        lemma_sum_ext(0, lr, new_in_row(t, r, lab), assigned(lb));
        lemma_sum_add(0, wdt, label_counts(t, r + 1, la), new_in_row(t, r, lab), label_counts(t, r, lab));
        // witnesses
        assert forall|c: int, l: int| #[trigger] column_labels(t, r, lab, c).contains(l) implies 0 <= c < t[r].len() && exists|p: int|
            0 <= p < lab.len() && lab[p] == l && #[trigger] reading_from(t, r)[p] >= t[r][c] by {
            if column_labels(t, r + 1, la, c).contains(l) {
                let p = choose|p: int| 0 <= p < la.len() && la[p] == l && #[trigger] a[p] >= t[r + 1][c];
                assert(t[r + 1].len() <= t[r].len());
                assert(t[r][c] < t[r + 1][c]);
                assert(w[p] == a[p]);
                assert(lab[p] == l);
            } else {
                assert(l == lab[n + c]);
                assert(w[n + c] == t[r][c]);
            }
        }
    }
}

/// `f` on the positions below `k`, 0 from `k` on.
pub open spec fn below(f: spec_fn(int) -> int, k: int) -> spec_fn(int) -> int {
    |i: int| if i < k { f(i) } else { 0 }
}

/// For an indicator that holds on an initial segment, the count below `k`
/// is at least the smaller of `k` and the whole count.
proof fn lemma_prefix_indicator(f: spec_fn(int) -> int, n: int, k: int)
    requires
        0 <= n,
        0 <= k,
        forall|i: int| 0 <= i < n ==> #[trigger] f(i) == 0 || f(i) == 1,
        forall|i: int, j: int| 0 <= i < j < n && #[trigger] f(j) == 1 ==> #[trigger] f(i) == 1,
    ensures
        sum_range(0, n, below(f, k)) >= k || sum_range(0, n, below(f, k)) >= sum_range(0, n, f),
        sum_range(0, n, below(f, k)) >= 0,
    decreases n,
{
    if n > 0 {
        lemma_prefix_indicator(f, n - 1, k);
        if f(n - 1) == 1 {
            assert forall|i: int| 0 <= i < n - 1 implies #[trigger] f(i) == 1 by {
                assert(f(n - 1) == 1);
            }
            lemma_sum_const(0, n - 1, f, 1);
        }
    }
}

/// The number of cells in the first `k` rows, row by row.
proof fn lemma_top_rows_prefix_sum(t: Seq<Seq<u32>>, k: int)
    requires
        0 <= k,
        forall|i: int| 0 <= i < t.len() ==> #[trigger] t[i].len() <= usize::MAX,
    ensures
        sum_range(0, t.len() as int, top_rows_lengths(t, k)) == prefix_sum(shape_of(t), k),
{
    let sh = shape_of(t);
    let n = t.len() as int;
    if k < n {
        let tk = sh.take(k);
        lemma_parts_sum_range(tk);
        lemma_sum_ext(0, k, |p: int| tk[p] as int, top_rows_lengths(t, k));
        lemma_sum_split(0, k, n, top_rows_lengths(t, k));
        assert forall|i: int| k <= i < n implies #[trigger] top_rows_lengths(t, k)(i) == 0 by {}
        lemma_sum_zero(k, n, top_rows_lengths(t, k));
    } else {
        lemma_parts_sum_range(sh);
        lemma_sum_ext(0, n, |p: int| sh[p] as int, top_rows_lengths(t, k));
    }
}

/// The size of any cover of the reading word of a semistandard tableau of
/// partition shape by `k` disjoint weakly increasing subsequences is at most
/// the number of cells in its first `k` rows.
pub proof fn lemma_reading_cover_bound(t: Seq<Seq<u32>>, lab: Seq<int>, k: int)
    requires
        rows_weakly_increasing(t),
        columns_strictly_increasing(t),
        is_partition_shape(t),
        forall|i: int| 0 <= i < t.len() ==> #[trigger] t[i].len() <= usize::MAX,
        0 <= k,
        is_increasing_cover(reading_from(t, 0), lab, k),
    ensures
        cover_size(lab) <= prefix_sum(shape_of(t), k),
{
    let n = t.len() as int;
    let wdt: int = if n > 0 { t[0].len() as int } else { 0 };
    assert forall|i: int| 0 <= i < n implies #[trigger] t[i].len() <= wdt by {
        if i > 0 {
            assert(t[i].len() <= t[0].len());
        }
    }
    lemma_column_labels(t, 0, lab, k, wdt);
    let g = |c: int| sum_range(0, n, below(reaches(t, c), k));
    // each column is met by at most min(k, height) subsequences
    assert forall|c: int| 0 <= c < wdt implies #[trigger] label_counts(t, 0, lab)(c) <= g(c) by {
        let cl = column_labels(t, 0, lab, c);
        assert(cl.subset_of(set_int_range(0, k)));
        lemma_int_range(0, k);
        lemma_len_subset(cl, set_int_range(0, k));
        assert forall|i: int, j: int| 0 <= i < j < n && #[trigger] reaches(t, c)(j) == 1 implies #[trigger] reaches(t, c)(i)
            == 1 by {
            assert(t[j].len() <= t[i].len());
        }
        lemma_prefix_indicator(reaches(t, c), n, k);
    }
    lemma_sum_le(0, wdt, label_counts(t, 0, lab), g);
    // count the cells of the first k rows by columns, then by rows
    let f2 = |c: int, i: int| below(reaches(t, c), k)(i);
    assert forall|c: int| 0 <= c < wdt implies #[trigger] g(c) == row_sums(f2, 0, n)(c) by {
        lemma_sum_ext(0, n, below(reaches(t, c), k), |j: int| f2(c, j));
    }
    lemma_sum_ext(0, wdt, g, row_sums(f2, 0, n));
    lemma_sum_swap(0, wdt, 0, n, f2);
    assert forall|i: int| 0 <= i < n implies #[trigger] col_sums(f2, 0, wdt)(i) == top_rows_lengths(t, k)(i) by {
        let li = t[i].len() as int;
        let h = |c: int| f2(c, i);
        lemma_sum_split(0, li, wdt, h);
        assert forall|c: int| li <= c < wdt implies #[trigger] h(c) == 0 by {}
        lemma_sum_zero(li, wdt, h);
        let one: int = if i < k { 1 } else { 0 };
        assert forall|c: int| 0 <= c < li implies #[trigger] h(c) == one by {}
        lemma_sum_const(0, li, h, one);
        assert(li * one == top_rows_lengths(t, k)(i));
    }
    lemma_sum_ext(0, n, col_sums(f2, 0, wdt), top_rows_lengths(t, k));
    lemma_top_rows_prefix_sum(t, k);
}

/// Termwise smaller functions have a smaller sum.
proof fn lemma_sum_le(lo: int, hi: int, f: spec_fn(int) -> int, g: spec_fn(int) -> int)
    requires
        forall|i: int| lo <= i < hi ==> #[trigger] f(i) <= g(i),
    ensures
        sum_range(lo, hi, f) <= sum_range(lo, hi, g),
    decreases hi - lo,
{
    if hi > lo {
        lemma_sum_le(lo, hi - 1, f, g);
    }
}

// ---------------------------------------------------------------------------
// Greene's theorem
// ---------------------------------------------------------------------------

/// No row is longer than the whole tableau.
proof fn lemma_row_at_most_cells(t: Seq<Seq<u32>>, i: int)
    requires
        0 <= i < t.len(),
    ensures
        t[i].len() <= cell_count(t),
{
    lemma_cell_count_take(t, i);
    lemma_cell_count_prefix_bound(t, i + 1);
}

/// Greene's theorem: the first `k` rows of the insertion tableau of `s` hold
/// as many cells as the largest cover of `s` by `k` disjoint weakly
/// increasing subsequences.
pub proof fn lemma_greene(s: Seq<u32>, k: int)
    requires
        0 <= k,
        s.len() <= usize::MAX,
    ensures
        has_cover(s, k, prefix_sum(shape_of(insertion_spec(s)), k) as int),
        forall|lab: Seq<int>| #[trigger] is_increasing_cover(s, lab, k) ==> cover_size(lab) <= prefix_sum(
            shape_of(insertion_spec(s)),
            k,
        ),
{
    let t = insertion_spec(s);
    let m = prefix_sum(shape_of(t), k) as int;
    lemma_insertion_tableau_props(s);
    assert forall|i: int| 0 <= i < t.len() implies #[trigger] t[i].len() <= usize::MAX by {
        lemma_row_at_most_cells(t, i);
    }
    lemma_word_equivalent_reading(s);
    let r = reading_word(t);
    // the first k rows
    lemma_row_cover(t, 0, k);
    lemma_top_rows_prefix_sum(t, k);
    assert(has_cover(r, k, m)) by {
        assert(is_increasing_cover(r, row_cover(t, 0, k), k));
    }
    lemma_knuth_keeps_covers(s, r, k, m);
    // no cover does better
    assert forall|lab: Seq<int>| #[trigger] is_increasing_cover(s, lab, k) implies cover_size(lab) <= m by {
        let size = cover_size(lab);
        assert(has_cover(s, k, size));
        lemma_knuth_keeps_covers(s, r, k, size);
        let lab2 = choose|lab2: Seq<int>| #[trigger] is_increasing_cover(r, lab2, k) && cover_size(lab2) == size;
        lemma_reading_cover_bound(t, lab2, k);
    }
}

/// For a word without repeated letters, weakly and strictly increasing
/// covers are the same.
pub proof fn lemma_distinct_covers(s: Seq<u32>, lab: Seq<int>, k: int)
    requires
        s.no_duplicates(),
    ensures
        is_increasing_cover(s, lab, k) <==> is_strictly_increasing_cover(s, lab, k),
{
    if is_increasing_cover(s, lab, k) {
        assert forall|p: int, q: int|
            0 <= p < q < lab.len() && #[trigger] lab[p] == #[trigger] lab[q] && lab[p] >= 0 implies s[p] < s[q] by {
            assert(s[p] <= s[q]);
            assert(s[p] != s[q]);
        }
    }
}

} // verus!
