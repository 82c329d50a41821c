//! Extended RSK (Robinson-Schensted-Knuth) correspondence algorithms:
//! Greene invariants, reading words, Knuth equivalence, dual RSK shape,
//! patience sorting, jeu de taquin, inversions and lattice words.
use vstd::prelude::*;
use crate::tableau::{
    YoungTableau, shape_of, parts_sum, prefix_sum, conjugate_counts, max_part, lemma_shape_sum, lemma_parts_sum_take, lemma_parts_sum_prefix_bound,
};
use crate::insertion::{insertion_tableau, insertion_spec};
use crate::greene::{is_increasing_cover, is_strictly_increasing_cover, cover_size, lemma_greene, lemma_distinct_covers};
use crate::knuth::{
    is_decreasing_subsequence, lemma_rows_longest_decreasing, knuth_equivalent, lemma_knuth_equivalent_iff_same_tableau,
};
use crate::schensted::{is_nondecreasing_subsequence, first_row, lemma_first_row_longest};
use crate::tableau::{is_cell, conjugate_partition_spec, is_partition_shape};
use crate::insertion_proofs::{content, lemma_content_update, lemma_insertion_tableau_props};
use crate::tableau::{cell_count, weakly_decreasing, count_greater, lemma_count_greater_prefix, lemma_cell_count_take, lemma_cell_count_prefix_bound};
use crate::tableau::lemma_max_part_bounds;

verus! {

// ---------------------------------------------------------------------------
// Specifications
// ---------------------------------------------------------------------------

/// The running sums of a sequence of parts: entry `i` is the sum of parts `0..=i`.
pub open spec fn running_sums(s: Seq<usize>) -> Seq<usize> {
    Seq::new(s.len(), |i: int| parts_sum(s.take(i + 1)) as usize)
}

/// Successive differences: entry `i` is `g[i] - g[i - 1]`, with `g[-1] = 0`.
pub open spec fn differences(g: Seq<usize>) -> Seq<usize> {
    Seq::new(g.len(), |i: int| if i == 0 { g[0] } else { (g[i] - g[i - 1]) as usize })
}

/// A sequence in reverse order.
pub open spec fn reversed(s: Seq<u32>) -> Seq<u32> {
    Seq::new(s.len(), |i: int| s[s.len() - 1 - i])
}

/// Reading word: rows from the bottom up, each read right to left.
pub open spec fn reading_word_spec(t: Seq<Seq<u32>>) -> Seq<u32>
    decreases t.len(),
{
    if t.len() == 0 {
        Seq::empty()
    } else {
        reversed(t.last()) + reading_word_spec(t.drop_last())
    }
}

/// The entries of column `c`, top to bottom.
pub open spec fn column_entries(t: Seq<Seq<u32>>, c: int) -> Seq<u32>
    decreases t.len(),
{
    if t.len() == 0 {
        Seq::empty()
    } else if 0 <= c < t.last().len() {
        column_entries(t.drop_last(), c).push(t.last()[c])
    } else {
        column_entries(t.drop_last(), c)
    }
}

/// Column reading word of the first `m` columns: each column top to bottom,
/// columns left to right.
pub open spec fn column_word_upto(t: Seq<Seq<u32>>, m: int) -> Seq<u32>
    decreases m,
{
    if m <= 0 {
        Seq::empty()
    } else {
        column_word_upto(t, m - 1) + column_entries(t, m - 1)
    }
}

/// Number of cells of `t` in the columns before `c`.
pub open spec fn cells_left_of(t: Seq<Seq<u32>>, c: int) -> nat
    decreases t.len(),
{
    if t.len() == 0 {
        0
    } else {
        cells_left_of(t.drop_last(), c) + if t.last().len() < c { t.last().len() } else { if c < 0 { 0nat } else { c as nat } }
    }
}

/// Number of rows of `t` that have a cell in column `c`.
pub open spec fn rows_reaching(t: Seq<Seq<u32>>, c: int) -> nat
    decreases t.len(),
{
    if t.len() == 0 {
        0
    } else {
        rows_reaching(t.drop_last(), c) + if 0 <= c < t.last().len() { 1nat } else { 0nat }
    }
}

/// Where the reading word puts the cell `(r, c)`: after all cells of the
/// rows below `r`, and within row `r` counted from its right end.
pub open spec fn reading_position(t: Seq<Seq<u32>>, r: int, c: int) -> int {
    cell_count(t) - cell_count(t.take(r + 1)) + (t[r].len() - 1 - c)
}

/// Where the column reading word puts the cell `(r, c)`: after all cells of
/// the columns left of `c`, and within column `c` after the cells above it.
pub open spec fn column_position(t: Seq<Seq<u32>>, r: int, c: int) -> int {
    (cells_left_of(t, c) + rows_reaching(t.take(r), c)) as int
}

/// The reading word holds every cell of the tableau exactly once: it has as
/// many letters as the tableau has cells, and the cell `(r, c)` is read after
/// all cells of the rows below and after the cells to its right in its row.
pub proof fn lemma_reading_word_cells(t: Seq<Seq<u32>>)
    ensures
        reading_word_spec(t).len() == cell_count(t),
        forall|r: int, c: int| #[trigger] is_cell(t, r, c) ==> 0 <= reading_position(t, r, c) < cell_count(t)
            && reading_word_spec(t)[reading_position(t, r, c)] == t[r][c],
    decreases t.len(),
{
    if t.len() > 0 {
        let d = t.drop_last();
        let last = t.last();
        let n = t.len() as int;
        lemma_reading_word_cells(d);
        assert(t.take(n) =~= t);
        assert forall|r: int, c: int| #[trigger] is_cell(t, r, c) implies 0 <= reading_position(t, r, c) < cell_count(t)
            && reading_word_spec(t)[reading_position(t, r, c)] == t[r][c] by {
            lemma_cell_count_take(t, r);
            lemma_cell_count_prefix_bound(t, r + 1);
            if r < n - 1 {
                assert(t.take(r + 1) =~= d.take(r + 1));
                assert(is_cell(d, r, c));
                assert(reading_position(t, r, c) == last.len() + reading_position(d, r, c));
            }
        }
    }
}

/// Cells left of column `c + 1` are those left of `c` and those in column `c`.
proof fn lemma_cells_left_step(t: Seq<Seq<u32>>, c: int)
    requires
        0 <= c,
    ensures
        cells_left_of(t, c + 1) == cells_left_of(t, c) + rows_reaching(t, c),
    decreases t.len(),
{
    if t.len() > 0 {
        lemma_cells_left_step(t.drop_last(), c);
    }
}

/// Left of a column past every row lie all the cells.
proof fn lemma_cells_left_all(t: Seq<Seq<u32>>, m: int)
    requires
        forall|r: int| 0 <= r < t.len() ==> #[trigger] t[r].len() <= m,
    ensures
        cells_left_of(t, m) == cell_count(t),
    decreases t.len(),
{
    if t.len() > 0 {
        lemma_cells_left_all(t.drop_last(), m);
    }
}

/// Column `c` read top to bottom holds the rows reaching it, in order.
proof fn lemma_column_entries_cells(t: Seq<Seq<u32>>, c: int)
    ensures
        column_entries(t, c).len() == rows_reaching(t, c),
        forall|r: int| 0 <= r < t.len() && 0 <= c < t[r].len() ==> #[trigger] rows_reaching(t.take(r), c) < rows_reaching(t, c),
        forall|r: int| 0 <= r < t.len() && 0 <= c < t[r].len() ==> #[trigger] column_entries(t, c)[rows_reaching(t.take(r), c) as int] == t[r][c],
    decreases t.len(),
{
    if t.len() > 0 {
        let d = t.drop_last();
        let n = t.len() as int;
        lemma_column_entries_cells(d, c);
        assert(t.take(n - 1) =~= d);
        assert forall|r: int| 0 <= r < t.len() && 0 <= c < t[r].len() implies #[trigger] rows_reaching(t.take(r), c) < rows_reaching(t, c)
            && column_entries(t, c)[rows_reaching(t.take(r), c) as int] == t[r][c] by {
            if r < n - 1 {
                assert(t.take(r) =~= d.take(r));
                assert(d[r] == t[r]);
                assert(rows_reaching(d.take(r), c) < rows_reaching(d, c));
                assert(column_entries(d, c)[rows_reaching(d.take(r), c) as int] == d[r][c]);
                if 0 <= c < t.last().len() {
                    assert(column_entries(t, c) == column_entries(d, c).push(t.last()[c]));
                } else {
                    assert(column_entries(t, c) == column_entries(d, c));
                }
                assert(column_entries(t, c)[rows_reaching(t.take(r), c) as int] == t[r][c]);
                assert(rows_reaching(t.take(r), c) < rows_reaching(t, c));
            } else {
                assert(t.take(r) =~= d);
                assert(column_entries(t, c) == column_entries(d, c).push(t[r][c]));
                assert(column_entries(t, c)[rows_reaching(t.take(r), c) as int] == t[r][c]);
                assert(rows_reaching(t, c) == rows_reaching(d, c) + 1);
                assert(rows_reaching(t.take(r), c) < rows_reaching(t, c));
            }
        }
    }
}

/// The first `m` columns, read column by column, top to bottom.
proof fn lemma_column_word_cells(t: Seq<Seq<u32>>, m: int)
    requires
        0 <= m,
    ensures
        column_word_upto(t, m).len() == cells_left_of(t, m),
        forall|r: int, c: int| #[trigger] is_cell(t, r, c) && c < m ==> column_position(t, r, c) < cells_left_of(t, m)
            && column_word_upto(t, m)[column_position(t, r, c)] == t[r][c],
    decreases m,
{
    if m == 0 {
        assert(cells_left_of(t, 0) == 0) by {
            lemma_cells_left_zero(t);
        }
    } else {
        lemma_column_word_cells(t, m - 1);
        lemma_cells_left_step(t, m - 1);
        lemma_column_entries_cells(t, m - 1);
        assert forall|r: int, c: int| #[trigger] is_cell(t, r, c) && c < m implies column_position(t, r, c) < cells_left_of(t, m)
            && column_word_upto(t, m)[column_position(t, r, c)] == t[r][c] by {
            let w0 = column_word_upto(t, m - 1);
            assert(column_word_upto(t, m) == w0 + column_entries(t, m - 1));
            if c < m - 1 {
                lemma_cells_left_mono(t, c + 1, m - 1);
                lemma_cells_left_step(t, c);
                lemma_column_entries_cells(t, c);
                assert(column_position(t, r, c) < cells_left_of(t, m - 1));
                assert(w0[column_position(t, r, c)] == t[r][c]);
            } else {
                let i = rows_reaching(t.take(r), c) as int;
                assert(column_entries(t, m - 1)[i] == t[r][c]);
                assert(column_position(t, r, c) == w0.len() + i);
            }
        }
    }
}

proof fn lemma_cells_left_zero(t: Seq<Seq<u32>>)
    ensures
        cells_left_of(t, 0) == 0,
    decreases t.len(),
{
    if t.len() > 0 {
        lemma_cells_left_zero(t.drop_last());
    }
}

proof fn lemma_cells_left_mono(t: Seq<Seq<u32>>, a: int, b: int)
    requires
        0 <= a <= b,
    ensures
        cells_left_of(t, a) <= cells_left_of(t, b),
    decreases t.len(),
{
    if t.len() > 0 {
        lemma_cells_left_mono(t.drop_last(), a, b);
    }
}

/// The column reading word holds every cell of the tableau exactly once:
/// it has as many letters as the tableau has cells, and the cell `(r, c)` is
/// read after all cells of the columns left of `c` and after the cells above
/// it in its column.
pub proof fn lemma_column_reading_word_cells(t: Seq<Seq<u32>>)
    requires
        forall|r: int| 0 <= r < t.len() ==> #[trigger] t[r].len() <= usize::MAX,
    ensures
        column_word_upto(t, max_part(shape_of(t)) as int).len() == cell_count(t),
        forall|r: int, c: int| #[trigger] is_cell(t, r, c) ==> 0 <= column_position(t, r, c) < cell_count(t)
            && column_word_upto(t, max_part(shape_of(t)) as int)[column_position(t, r, c)] == t[r][c],
{
    let m = max_part(shape_of(t)) as int;
    lemma_max_part_bounds(shape_of(t));
    assert forall|r: int| 0 <= r < t.len() implies #[trigger] t[r].len() <= m by {
        assert(shape_of(t)[r] <= m);
    }
    lemma_cells_left_all(t, m);
    lemma_column_word_cells(t, m);
}

/// Number of later entries smaller than entry `i`, among positions `i+1..j`.
pub open spec fn smaller_after(s: Seq<u32>, i: int, j: int) -> nat
    decreases j - i,
{
    if j <= i + 1 {
        0
    } else {
        smaller_after(s, i, j - 1) + if s[i] > s[j - 1] { 1nat } else { 0nat }
    }
}

/// Number of inversions `i < j` with `s[i] > s[j]`, for first indices `i >= from`.
pub open spec fn inversions_from(s: Seq<u32>, from: int) -> nat
    decreases s.len() - from,
{
    if from >= s.len() {
        0
    } else {
        smaller_after(s, from, s.len() as int) + inversions_from(s, from + 1)
    }
}

/// Jeu de taquin slide of the empty cell at `(r, c)`: while the cell has a
/// neighbour to the right or below, the smaller of the two (the lower one on a
/// tie, so that columns stay strictly increasing) moves into it and the empty cell (holding 0) moves to where it was.
pub open spec fn slide_spec(t: Seq<Seq<u32>>, r: int, c: int) -> Seq<Seq<u32>>
    decreases t.len() - r, t[r].len() - c,
{
    if !is_cell(t, r, c) {
        t
    } else {
        let has_right = c + 1 < t[r].len();
        let has_below = r + 1 < t.len() && c < t[r + 1].len();
        if !has_right && !has_below {
            t
        } else if has_right && (!has_below || t[r][c + 1] < t[r + 1][c]) {
            slide_spec(t.update(r, t[r].update(c, t[r][c + 1]).update(c + 1, 0)), r, c + 1)
        } else {
            slide_spec(t.update(r, t[r].update(c, t[r + 1][c])).update(r + 1, t[r + 1].update(c, 0)), r + 1, c)
        }
    }
}

/// Number of occurrences of `v` in `s`.
pub open spec fn occurrences(s: Seq<u32>, v: int) -> nat
    decreases s.len(),
{
    if s.len() == 0 {
        0
    } else {
        occurrences(s.drop_last(), v) + if s.last() == v { 1nat } else { 0nat }
    }
}

/// Largest value, 0 for the empty sequence.
pub open spec fn max_value(s: Seq<u32>) -> nat
    decreases s.len(),
{
    if s.len() == 0 {
        0
    } else if max_value(s.drop_last()) >= s.last() {
        max_value(s.drop_last())
    } else {
        s.last() as nat
    }
}

/// No letter is 0 and, in every prefix, each value `i` below the largest
/// letter occurs at least as often as `i + 1`.
pub open spec fn is_lattice_spec(word: Seq<u32>) -> bool {
    &&& forall|j: int| 0 <= j < word.len() ==> #[trigger] word[j] != 0
    &&& forall|k: int| 1 <= k <= word.len() ==> #[trigger] prefix_balanced(word, k)
}

/// In the first `k` letters, each value `i` below the largest letter of the
/// whole word occurs at least as often as `i + 1`.
#[verifier::opaque]
pub open spec fn prefix_balanced(word: Seq<u32>, k: int) -> bool {
    forall|i: int, j: int|
        j == i + 1 && 1 <= i < max_value(word) ==> #[trigger] occurrences(word.take(k), i)
            >= #[trigger] occurrences(word.take(k), j)
}

/// `idx` lists increasing positions of `s` holding strictly increasing values.
pub open spec fn is_increasing_subsequence(s: Seq<u32>, idx: Seq<int>) -> bool {
    &&& forall|i: int| 0 <= i < idx.len() ==> 0 <= #[trigger] idx[i] < s.len()
    &&& forall|i: int, j: int| 0 <= i < j < idx.len() ==> #[trigger] idx[i] < #[trigger] idx[j]
    &&& forall|i: int, j: int| 0 <= i < j < idx.len() ==> s[#[trigger] idx[i]] < s[#[trigger] idx[j]]
}

/// `vals` lists the values of `s` at the positions `idx`.
pub open spec fn values_at(s: Seq<u32>, idx: Seq<int>, vals: Seq<u32>) -> bool {
    idx.len() == vals.len() && forall|i: int| 0 <= i < idx.len() ==> #[trigger] vals[i] == s[idx[i]]
}

/// Number of inversions of a sequence.
pub open spec fn inversions(s: Seq<u32>) -> nat {
    inversions_from(s, 0)
}

// ---------------------------------------------------------------------------
// Operations
// ---------------------------------------------------------------------------

/// Compute the conjugate (transpose/flip) of a partition.
///
/// The conjugate partition λ' is obtained by transposing the Young diagram:
/// λ'_j = #{i : λ_i > j}, for `j` below the first part.
pub fn conjugate_partition(shape: &[usize]) -> (conj: Vec<usize>)
    ensures
        conj@ == conjugate_partition_spec(shape@),
{
    if shape.len() == 0 {
        return Vec::new();
    }
    conjugate_counts(shape, shape[0])
}

/// The shape of the insertion tableau of `perm`, whose parts sum to its length.
fn insertion_shape_of(perm: &[u32]) -> (shape: Vec<usize>)
    ensures
        shape@ == shape_of(insertion_spec(perm@)),
        parts_sum(shape@) == perm@.len(),
        perm@.len() <= usize::MAX,
{
    let n = perm.len();
    let t = insertion_tableau(perm);
    proof {
        lemma_shape_sum(t@);
    }
    t.shape()
}

/// Greene's theorem: compute the Greene invariant G_k(π), the maximum total
/// length of `k` disjoint increasing subsequences of π.
///
/// For a permutation π with RSK shape λ = (λ_1, λ_2, ...), Greene's theorem
/// states G_k(π) = λ_1 + λ_2 + ... + λ_k. For a word with repeated letters
/// the subsequences are weakly increasing. `k` disjoint subsequences are
/// given as a cover: an assignment of each position to one of them or to none.
pub fn greene_invariant(perm: &[u32], k: usize) -> (g: usize)
    ensures
        g == prefix_sum(shape_of(insertion_spec(perm@)), k as int),
        exists|lab: Seq<int>| #[trigger] is_increasing_cover(perm@, lab, k as int) && cover_size(lab) == g,
        forall|lab: Seq<int>| #[trigger] is_increasing_cover(perm@, lab, k as int) ==> cover_size(lab) <= g,
        perm@.no_duplicates() ==> exists|lab: Seq<int>|
            #[trigger] is_strictly_increasing_cover(perm@, lab, k as int) && cover_size(lab) == g,
        perm@.no_duplicates() ==> forall|lab: Seq<int>|
            #[trigger] is_strictly_increasing_cover(perm@, lab, k as int) ==> cover_size(lab) <= g,
{
    proof {
        assert(perm@.len() == perm.len());
        lemma_greene(perm@, k as int);
        let m = prefix_sum(shape_of(insertion_spec(perm@)), k as int) as int;
        let best = choose|lab: Seq<int>| #[trigger] is_increasing_cover(perm@, lab, k as int) && cover_size(lab) == m;
        if perm@.no_duplicates() {
            lemma_distinct_covers(perm@, best, k as int);
            assert forall|lab: Seq<int>| #[trigger] is_strictly_increasing_cover(perm@, lab, k as int) implies cover_size(lab)
                <= m by {
                lemma_distinct_covers(perm@, lab, k as int);
            }
        }
    }
    if perm.len() == 0 || k == 0 {
        proof {
            if perm@.len() == 0 {
                assert(perm@ =~= Seq::<u32>::empty());
                assert(shape_of(insertion_spec(perm@)) =~= Seq::<usize>::empty());
            }
            assert(shape_of(insertion_spec(perm@)).take(0) =~= Seq::<usize>::empty());
        }
        return 0;
    }
    let shape = insertion_shape_of(perm);
    let mut sum: usize = 0;
    let mut i: usize = 0;
    while i < shape.len() && i < k
        invariant
            i <= shape@.len(),
            i <= k,
            sum == parts_sum(shape@.take(i as int)),
            parts_sum(shape@) <= usize::MAX,
        decreases shape@.len() - i,
    {
        proof {
            lemma_parts_sum_take(shape@, i as int);
            lemma_parts_sum_prefix_bound(shape@, i + 1);
        }
        sum = sum + shape[i];
        i += 1;
    }
    if i == shape.len() {
        assert(shape@.take(i as int) =~= shape@);
    }
    sum
}

/// Compute all Greene invariants G_1, G_2, ..., G_n for a permutation: the
/// running sums of the insertion shape.
pub fn greene_invariants(perm: &[u32]) -> (g: Vec<usize>)
    ensures
        g@ == running_sums(shape_of(insertion_spec(perm@))),
{
    if perm.len() == 0 {
        assert(perm@ =~= Seq::<u32>::empty());
        assert(running_sums(shape_of(insertion_spec(perm@))) =~= Seq::<usize>::empty());
        return Vec::new();
    }
    let shape = insertion_shape_of(perm);
    let n = shape.len();
    let mut result: Vec<usize> = Vec::new();
    let mut sum: usize = 0;
    let mut i: usize = 0;
    while i < n
        invariant
            n == shape@.len(),
            i <= n,
            sum == parts_sum(shape@.take(i as int)),
            parts_sum(shape@) <= usize::MAX,
            result@ =~= running_sums(shape@).take(i as int),
        decreases n - i,
    {
        proof {
            lemma_parts_sum_take(shape@, i as int);
            lemma_parts_sum_prefix_bound(shape@, i + 1);
        }
        sum = sum + shape[i];
        result.push(sum);
        i += 1;
    }
    assert(running_sums(shape@).take(n as int) =~= running_sums(shape@));
    result
}

/// Compute the tableau shape from the Greene invariants.
/// This is the inverse: if G_k = λ_1 + ... + λ_k, then λ_k = G_k - G_{k-1}.
pub fn greene_to_shape(greene: &[usize]) -> (shape: Vec<usize>)
    requires
        forall|i: int| 0 < i < greene@.len() ==> greene@[i - 1] <= #[trigger] greene@[i],
    ensures
        shape@ == differences(greene@),
{
    let mut shape: Vec<usize> = Vec::new();
    let mut prev: usize = 0;
    let mut i: usize = 0;
    while i < greene.len()
        invariant
            i <= greene@.len(),
            forall|j: int| 0 < j < greene@.len() ==> greene@[j - 1] <= #[trigger] greene@[j],
            prev == if i == 0 { 0 } else { greene@[i - 1] },
            shape@ =~= differences(greene@).take(i as int),
        decreases greene@.len() - i,
    {
        let g = greene[i];
        shape.push(g - prev);
        prev = g;
        i += 1;
    }
    assert(differences(greene@).take(i as int) =~= differences(greene@));
    shape
}

/// The Greene invariants determine the shape: the differences of the running
/// sums of the parts are the parts, and the running sums never decrease.
pub proof fn lemma_greene_roundtrip(s: Seq<usize>)
    requires
        parts_sum(s) <= usize::MAX,
    ensures
        forall|i: int| 0 < i < s.len() ==> running_sums(s)[i - 1] <= #[trigger] running_sums(s)[i],
        differences(running_sums(s)) == s,
{
    assert forall|i: int| 0 <= i < s.len() implies #[trigger] running_sums(s)[i] == parts_sum(s.take(i + 1)) by {
        lemma_parts_sum_prefix_bound(s, i + 1);
    }
    assert forall|i: int| 0 < i < s.len() implies running_sums(s)[i - 1] + s[i] == #[trigger] running_sums(s)[i] by {
        lemma_parts_sum_take(s, i);
    }
    if s.len() > 0 {
        lemma_parts_sum_take(s, 0);
        assert(s.take(0) =~= Seq::<usize>::empty());
    }
    assert(differences(running_sums(s)) =~= s);
}

/// Compute the reading word of a Young tableau: read each row right-to-left,
/// starting from the bottom row.
pub fn reading_word(tableau: &YoungTableau) -> (word: Vec<u32>)
    ensures
        word@ == reading_word_spec(tableau@),
        word@.len() == cell_count(tableau@),
        forall|r: int, c: int| #[trigger] is_cell(tableau@, r, c) ==> 0 <= reading_position(tableau@, r, c) < word@.len()
            && word@[reading_position(tableau@, r, c)] == tableau@[r][c],
{
    proof {
        lemma_reading_word_cells(tableau@);
    }
    let ghost t = tableau@;
    let mut word: Vec<u32> = Vec::new();
    let mut i: usize = tableau.rows.len();
    assert(t.take(i as int) =~= t);
    assert(word@ + reading_word_spec(t) =~= reading_word_spec(t));
    while i > 0
        invariant
            t == tableau@,
            i <= t.len(),
            reading_word_spec(t) == word@ + reading_word_spec(t.take(i as int)),
        decreases i,
    {
        let row = &tableau.rows[i - 1];
        assert(row@ == t[i - 1]);
        assert(t.take(i as int).drop_last() =~= t.take(i - 1));
        let ghost w0 = word@;
        let mut j: usize = row.len();
        while j > 0
            invariant
                row@ == t[i - 1],
                j <= row@.len(),
                word@ =~= w0 + reversed(row@).take(row@.len() - j),
            decreases j,
        {
            word.push(row[j - 1]);
            j -= 1;
        }
        assert(reversed(row@).take(row@.len() as int) =~= reversed(row@));
        assert(reading_word_spec(t.take(i as int)) == reversed(t[i - 1]) + reading_word_spec(t.take(i - 1)));
        assert(w0 + (reversed(t[i - 1]) + reading_word_spec(t.take(i - 1))) =~= word@ + reading_word_spec(t.take(i - 1)));
        i -= 1;
    }
    assert(reading_word_spec(t.take(0)) =~= Seq::<u32>::empty());
    assert(word@ + Seq::<u32>::empty() =~= word@);
    word
}

/// Compute the column reading word: read each column top-to-bottom,
/// starting from the leftmost column.
pub fn column_reading_word(tableau: &YoungTableau) -> (word: Vec<u32>)
    ensures
        word@ == column_word_upto(tableau@, max_part(shape_of(tableau@)) as int),
        word@.len() == cell_count(tableau@),
        forall|r: int, c: int| #[trigger] is_cell(tableau@, r, c) ==> 0 <= column_position(tableau@, r, c) < word@.len()
            && word@[column_position(tableau@, r, c)] == tableau@[r][c],
{
    proof {
        assert forall|r: int| 0 <= r < tableau@.len() implies #[trigger] tableau@[r].len() <= usize::MAX by {
            assert(tableau@[r] == tableau.rows@[r]@);
            assert(tableau.rows@[r]@.len() == tableau.rows@[r].len());
        }
        lemma_column_reading_word_cells(tableau@);
    }
    let ghost t = tableau@;
    if tableau.rows.len() == 0 {
        assert(shape_of(t) =~= Seq::<usize>::empty());
        return Vec::new();
    }
    let max_col = max_row_length(tableau);
    let mut word: Vec<u32> = Vec::new();
    let mut col: usize = 0;
    while col < max_col
        invariant
            t == tableau@,
            col <= max_col,
            word@ == column_word_upto(t, col as int),
        decreases max_col - col,
    {
        let ghost w0 = word@;
        let mut r: usize = 0;
        while r < tableau.rows.len()
            invariant
                t == tableau@,
                r <= t.len(),
                word@ == w0 + column_entries(t.take(r as int), col as int),
            decreases t.len() - r,
        {
            assert(tableau.rows@[r as int]@ == t[r as int]);
            assert(t.take(r + 1).drop_last() =~= t.take(r as int));
            if col < tableau.rows[r].len() {
                word.push(tableau.rows[r][col]);
                assert(word@ =~= w0 + column_entries(t.take(r + 1), col as int));
            }
            r += 1;
        }
        assert(t.take(r as int) =~= t);
        col += 1;
    }
    word
}

/// Length of the longest row.
fn max_row_length(tableau: &YoungTableau) -> (m: usize)
    ensures
        m == max_part(shape_of(tableau@)),
{
    let s = tableau.shape();
    let mut m: usize = 0;
    let mut i: usize = 0;
    while i < s.len()
        invariant
            i <= s@.len(),
            m == max_part(s@.take(i as int)),
        decreases s@.len() - i,
    {
        proof {
            crate::tableau::lemma_max_part_take(s@, i as int);
        }
        if s[i] > m {
            m = s[i];
        }
        i += 1;
    }
    assert(s@.take(i as int) =~= s@);
    m
}

/// Whether two tableaux have the same rows.
fn same_rows(a: &YoungTableau, b: &YoungTableau) -> (eq: bool)
    ensures
        eq == (a@ == b@),
{
    if a.rows.len() != b.rows.len() {
        return false;
    }
    let mut i: usize = 0;
    while i < a.rows.len()
        invariant
            a@.len() == b@.len(),
            i <= a@.len(),
            forall|k: int| 0 <= k < i ==> #[trigger] a@[k] == b@[k],
        decreases a@.len() - i,
    {
        let ra = &a.rows[i];
        let rb = &b.rows[i];
        assert(ra@ == a@[i as int] && rb@ == b@[i as int]);
        if ra.len() != rb.len() {
            assert(a@[i as int].len() != b@[i as int].len());
            return false;
        }
        let mut j: usize = 0;
        while j < ra.len()
            invariant
                ra@.len() == rb@.len(),
                i < a@.len(),
                a@.len() == b@.len(),
                ra@ == a@[i as int],
                rb@ == b@[i as int],
                j <= ra@.len(),
                forall|k: int| 0 <= k < j ==> #[trigger] ra@[k] == rb@[k],
            decreases ra@.len() - j,
        {
            if ra[j] != rb[j] {
                assert(a@[i as int][j as int] != b@[i as int][j as int]);
                return false;
            }
            j += 1;
        }
        assert(ra@ =~= rb@);
        i += 1;
    }
    assert(a@ =~= b@);
    true
}

/// Check Knuth equivalence: two words are Knuth equivalent when a sequence of
/// elementary Knuth transformations turns one into the other:
///   - ...x z y... and ...z x y... when x <= y < z,
///   - ...y x z... and ...y z x... when x < y <= z.
///
/// By Knuth's theorem this holds exactly when the two words have the same
/// RSK insertion tableau, which is what is compared.
pub fn are_knuth_equivalent(word1: &[u32], word2: &[u32]) -> (b: bool)
    ensures
        b == (word1@.len() == word2@.len() && insertion_spec(word1@) == insertion_spec(word2@)),
        b == knuth_equivalent(word1@, word2@),
{
    proof {
        lemma_knuth_equivalent_iff_same_tableau(word1@, word2@);
        lemma_insertion_tableau_props(word1@);
        lemma_insertion_tableau_props(word2@);
    }
    if word1.len() != word2.len() {
        return false;
    }
    let p1 = insertion_tableau(word1);
    let p2 = insertion_tableau(word2);
    same_rows(&p1, &p2)
}

/// The conjugate of the insertion shape of the reversed word measures the
/// weakly decreasing and the increasing subsequences of the word.
proof fn lemma_dual_shape_subsequences(s: Seq<u32>)
    requires
        s.len() <= usize::MAX,
    ensures
        ({
            let d = conjugate_partition_spec(shape_of(insertion_spec(reversed(s))));
            &&& exists|idx: Seq<int>| #[trigger] is_nonincreasing_subsequence(s, idx) && idx.len() == d.len()
            &&& forall|idx: Seq<int>| #[trigger] is_nonincreasing_subsequence(s, idx) ==> idx.len() <= d.len()
            &&& (d.len() == 0 <==> s.len() == 0)
            &&& d.len() > 0 ==> exists|idx: Seq<int>| #[trigger] is_increasing_subsequence(s, idx) && idx.len() == d[0]
            &&& d.len() > 0 ==> forall|idx: Seq<int>| #[trigger] is_increasing_subsequence(s, idx) ==> idx.len() <= d[0]
        }),
{
    let n: int = s.len() as int;
    let r = reversed(s);
    let p = insertion_spec(r);
    let sh = shape_of(p);
    let d = conjugate_partition_spec(sh);
    lemma_insertion_tableau_props(r);
    lemma_rows_at_most_cells(p);
    lemma_first_row_longest(r);
    lemma_rows_longest_decreasing(r);
    assert(reversed(r) =~= s);
    // the number of parts of `d` is the length of the first row
    if p.len() == 0 {
        assert(cell_count(p) == 0);
        assert(r.len() == 0);
        assert(d.len() == 0);
        assert(first_row(p).len() == 0);
    } else {
        assert(p[0].len() > 0);
        assert(sh[0] == p[0].len());
        assert(d.len() == p[0].len());
        assert(first_row(p) == p[0]);
        assert(r.len() > 0) by {
            if r.len() == 0 {
                assert(cell_count(p) == 0);
                lemma_cell_count_prefix_bound(p, 1);
                lemma_cell_count_take(p, 1);
            }
        }
    }
    // weakly increasing subsequences of `r` and weakly decreasing ones of `s`
    let best = choose|idx: Seq<int>| #[trigger] is_nondecreasing_subsequence(r, idx) && idx.len() == first_row(p).len();
    lemma_reversed_subsequence(s, best);
    assert(is_nonincreasing_subsequence(s, reversed_positions(n, best)));
    assert forall|idx: Seq<int>| #[trigger] is_nonincreasing_subsequence(s, idx) implies idx.len() <= d.len() by {
        lemma_reversed_subsequence(s, idx);
        assert(is_nondecreasing_subsequence(r, reversed_positions(n, idx)));
    }
    if d.len() > 0 {
        // the first part of `d` counts the rows of `p`
        assert(weakly_decreasing(sh)) by {
            assert forall|i: int, j: int| 0 <= i < j < sh.len() implies #[trigger] sh[j] <= #[trigger] sh[i] by {
                assert(p[j].len() <= p[i].len());
            }
        }
        lemma_count_greater_prefix(sh, 0);
        if count_greater(sh, 0) < sh.len() {
            let k: int = count_greater(sh, 0) as int;
            assert(p[k].len() > 0);
            assert(sh[k] > 0);
        }
        assert(d[0] == p.len());
        let down = choose|idx: Seq<int>| #[trigger] is_decreasing_subsequence(r, idx) && idx.len() == p.len();
        lemma_reversed_subsequence(s, down);
        assert(is_increasing_subsequence(s, reversed_positions(n, down)));
        assert forall|idx: Seq<int>| #[trigger] is_increasing_subsequence(s, idx) implies idx.len() <= d[0] by {
            lemma_reversed_subsequence(s, idx);
            assert(is_decreasing_subsequence(r, reversed_positions(n, idx)));
        }
    }
}

/// `idx` lists increasing positions of `s` whose values never increase.
pub open spec fn is_nonincreasing_subsequence(s: Seq<u32>, idx: Seq<int>) -> bool {
    &&& forall|i: int| 0 <= i < idx.len() ==> 0 <= #[trigger] idx[i] < s.len()
    &&& forall|i: int, j: int| 0 <= i < j < idx.len() ==> #[trigger] idx[i] < #[trigger] idx[j]
    &&& forall|i: int, j: int| 0 <= i < j < idx.len() ==> s[#[trigger] idx[i]] >= s[#[trigger] idx[j]]
}

/// The positions `idx` of a word of length `n`, seen in the reversed word and
/// listed in increasing order.
pub open spec fn reversed_positions(n: int, idx: Seq<int>) -> Seq<int> {
    Seq::new(idx.len(), |k: int| n - 1 - idx[idx.len() - 1 - k])
}

/// Entries of `j`, the reversed positions of `idx`, against those of `idx`.
proof fn lemma_reversed_positions(n: int, idx: Seq<int>)
    requires
        forall|i: int| 0 <= i < idx.len() ==> 0 <= #[trigger] idx[i] < n,
        forall|i: int, j: int| 0 <= i < j < idx.len() ==> #[trigger] idx[i] < #[trigger] idx[j],
    ensures
        reversed_positions(n, idx).len() == idx.len(),
        forall|k: int| 0 <= k < idx.len() ==> 0 <= #[trigger] reversed_positions(n, idx)[k] < n
            && reversed_positions(n, idx)[k] == n - 1 - idx[idx.len() - 1 - k],
        forall|k: int, l: int| 0 <= k < l < idx.len() ==> #[trigger] reversed_positions(n, idx)[k]
            < #[trigger] reversed_positions(n, idx)[l],
{
    let m: int = idx.len() as int;
    assert forall|k: int, l: int| 0 <= k < l < m implies #[trigger] reversed_positions(n, idx)[k]
        < #[trigger] reversed_positions(n, idx)[l] by {
        assert(idx[m - 1 - l] < idx[m - 1 - k]);
    }
}

/// Reversing a word turns its weakly increasing subsequences into weakly
/// decreasing ones and its strictly decreasing subsequences into strictly
/// increasing ones, and back.
pub proof fn lemma_reversed_subsequence(s: Seq<u32>, idx: Seq<int>)
    ensures
        is_nondecreasing_subsequence(reversed(s), idx)
            ==> is_nonincreasing_subsequence(s, reversed_positions(s.len() as int, idx)),
        is_nonincreasing_subsequence(s, idx)
            ==> is_nondecreasing_subsequence(reversed(s), reversed_positions(s.len() as int, idx)),
        is_decreasing_subsequence(reversed(s), idx)
            ==> is_increasing_subsequence(s, reversed_positions(s.len() as int, idx)),
        is_increasing_subsequence(s, idx)
            ==> is_decreasing_subsequence(reversed(s), reversed_positions(s.len() as int, idx)),
        reversed_positions(s.len() as int, idx).len() == idx.len(),
{
    let n: int = s.len() as int;
    let r = reversed(s);
    let j = reversed_positions(n, idx);
    let m: int = idx.len() as int;
    if is_nondecreasing_subsequence(r, idx) || is_nonincreasing_subsequence(s, idx)
        || is_decreasing_subsequence(r, idx) || is_increasing_subsequence(s, idx) {
        lemma_reversed_positions(n, idx);
        assert forall|k: int| 0 <= k < m implies s[#[trigger] j[k]] == r[idx[m - 1 - k]] && r[j[k]] == s[idx[m - 1 - k]] by {}
        if is_nondecreasing_subsequence(r, idx) {
            assert forall|k: int, l: int| 0 <= k < l < m implies s[#[trigger] j[k]] >= s[#[trigger] j[l]] by {
                let a: int = m - 1 - l;
                let b: int = m - 1 - k;
                assert(0 <= a < b < m);
                assert(r[idx[a]] <= r[idx[b]]);
            }
        }
        if is_nonincreasing_subsequence(s, idx) {
            assert forall|k: int, l: int| 0 <= k < l < m implies r[#[trigger] j[k]] <= r[#[trigger] j[l]] by {
                let a: int = m - 1 - l;
                let b: int = m - 1 - k;
                assert(0 <= a < b < m);
                assert(s[idx[a]] >= s[idx[b]]);
            }
        }
        if is_decreasing_subsequence(r, idx) {
            assert forall|k: int, l: int| 0 <= k < l < m implies s[#[trigger] j[k]] < s[#[trigger] j[l]] by {
                let a: int = m - 1 - l;
                let b: int = m - 1 - k;
                assert(0 <= a < b < m);
                assert(r[idx[a]] > r[idx[b]]);
            }
        }
        if is_increasing_subsequence(s, idx) {
            assert forall|k: int, l: int| 0 <= k < l < m implies r[#[trigger] j[k]] > r[#[trigger] j[l]] by {
                let a: int = m - 1 - l;
                let b: int = m - 1 - k;
                assert(0 <= a < b < m);
                assert(s[idx[a]] < s[idx[b]]);
            }
        }
    }
}

/// A tableau whose rows all have a cell has no more rows than cells.
proof fn lemma_rows_at_most_cells(t: Seq<Seq<u32>>)
    requires
        forall|i: int| 0 <= i < t.len() ==> #[trigger] t[i].len() > 0,
    ensures
        t.len() <= cell_count(t),
        t.len() > 0 ==> t[0].len() <= cell_count(t),
    decreases t.len(),
{
    if t.len() > 0 {
        lemma_rows_at_most_cells(t.drop_last());
        assert(t.take(0) =~= Seq::<Seq<u32>>::empty());
        lemma_cell_count_take(t, 0);
        lemma_cell_count_prefix_bound(t, 1);
    }
}

/// Compute the dual RSK shape: the conjugate of the insertion shape of the
/// reversed word.
///
/// It corresponds to decreasing subsequences: it has as many parts as the
/// longest weakly decreasing subsequence of the word (for a permutation, the
/// longest decreasing subsequence), and its first part is the length of the
/// longest increasing subsequence.
pub fn dual_rsk_shape(perm: &[u32]) -> (shape: Vec<usize>)
    ensures
        shape@ == conjugate_partition_spec(shape_of(insertion_spec(reversed(perm@)))),
        exists|idx: Seq<int>| #[trigger] is_nonincreasing_subsequence(perm@, idx) && idx.len() == shape@.len(),
        forall|idx: Seq<int>| #[trigger] is_nonincreasing_subsequence(perm@, idx) ==> idx.len() <= shape@.len(),
        shape@.len() == 0 <==> perm@.len() == 0,
        shape@.len() > 0 ==> exists|idx: Seq<int>| #[trigger] is_increasing_subsequence(perm@, idx) && idx.len() == shape@[0],
        shape@.len() > 0 ==> forall|idx: Seq<int>| #[trigger] is_increasing_subsequence(perm@, idx) ==> idx.len() <= shape@[0],
{
    assert(perm@.len() == perm.len());
    proof {
        lemma_dual_shape_subsequences(perm@);
    }
    if perm.len() == 0 {
        assert(reversed(perm@) =~= Seq::<u32>::empty());
        assert(shape_of(insertion_spec(reversed(perm@))) =~= Seq::<usize>::empty());
        return Vec::new();
    }
    let mut rev: Vec<u32> = Vec::new();
    let mut i: usize = perm.len();
    while i > 0
        invariant
            i <= perm@.len(),
            rev@ =~= reversed(perm@).take(perm@.len() - i),
        decreases i,
    {
        rev.push(perm[i - 1]);
        i -= 1;
    }
    assert(reversed(perm@).take(perm@.len() as int) =~= reversed(perm@));
    let shape = insertion_tableau(rev.as_slice()).shape();
    conjugate_partition(shape.as_slice())
}

/// Compute the number of inversions of a permutation: pairs `i < j` with
/// `perm[i] > perm[j]`.
pub fn inversion_count(perm: &[u32]) -> (count: usize)
    requires
        inversions(perm@) <= usize::MAX,
    ensures
        count == inversions(perm@),
{
    let n = perm.len();
    let mut count: usize = 0;
    let mut i: usize = 0;
    while i < n
        invariant
            n == perm@.len(),
            i <= n,
            count + inversions_from(perm@, i as int) == inversions(perm@),
            inversions(perm@) <= usize::MAX,
        decreases n - i,
    {
        let mut j: usize = i + 1;
        while j < n
            invariant
                n == perm@.len(),
                i < n,
                i + 1 <= j <= n,
                count + (smaller_after(perm@, i as int, n as int) - smaller_after(perm@, i as int, j as int))
                    + inversions_from(perm@, i + 1) == inversions(perm@),
                smaller_after(perm@, i as int, j as int) <= smaller_after(perm@, i as int, n as int),
                inversions(perm@) <= usize::MAX,
            decreases n - j,
        {
            proof {
                lemma_smaller_after_mono(perm@, i as int, j + 1, n as int);
            }
            if perm[i] > perm[j] {
                count += 1;
            }
            j += 1;
        }
        i += 1;
    }
    count
}

/// Jeu de taquin: slide a cell through a skew tableau to straighten it.
///
/// Given a skew tableau (a tableau with one empty cell), repeatedly swap
/// the empty cell with the smaller of its right and lower neighbors until
/// no more swaps are possible. A position past the end of its row, with no
/// cell below it, leaves the tableau as it is.
pub fn jeu_de_taquin(tableau: &mut YoungTableau, empty_row: usize, empty_col: usize)
    requires
        empty_row < old(tableau)@.len(),
        is_cell(old(tableau)@, empty_row as int, empty_col as int) || !is_cell(old(tableau)@, empty_row + 1, empty_col as int),
    ensures
        final(tableau)@ == slide_spec(old(tableau)@, empty_row as int, empty_col as int),
{
    assert(tableau.rows@[empty_row as int]@ == tableau@[empty_row as int]);
    if empty_col >= tableau.rows[empty_row].len() {
        return;
    }
    let ghost goal = slide_spec(tableau@, empty_row as int, empty_col as int);
    let mut r = empty_row;
    let mut c = empty_col;
    while c < tableau.rows[r].len() - 1 || (r < tableau.rows.len() - 1 && c < tableau.rows[r + 1].len())
        invariant
            is_cell(tableau@, r as int, c as int),
            slide_spec(tableau@, r as int, c as int) == goal,
        decreases tableau@.len() - r, tableau@[r as int].len() - c,
    {
        let ghost t = tableau@;
        assert(tableau.rows@[r as int]@ == t[r as int]);
        if r < tableau.rows.len() - 1 {
            assert(tableau.rows@[r + 1]@ == t[r + 1]);
        }
        let right = if c < tableau.rows[r].len() - 1 {
            Some(tableau.rows[r][c + 1])
        } else {
            None
        };
        let below = if r < tableau.rows.len() - 1 && c < tableau.rows[r + 1].len() {
            Some(tableau.rows[r + 1][c])
        } else {
            None
        };
        match (right, below) {
            (None, None) => {
                assert(false);
            },
            (Some(rv), None) => {
                tableau.rows[r][c] = rv;
                tableau.rows[r][c + 1] = 0;
                assert(tableau@ =~= t.update(r as int, t[r as int].update(c as int, t[r as int][c + 1]).update(c + 1, 0)));
                c += 1;
            },
            (None, Some(bv)) => {
                tableau.rows[r][c] = bv;
                tableau.rows[r + 1][c] = 0;
                assert(tableau@ =~= t.update(r as int, t[r as int].update(c as int, t[r + 1][c as int])).update(r + 1, t[r + 1].update(c as int, 0)));
                r += 1;
            },
            (Some(rv), Some(bv)) => {
                if rv < bv {
                    tableau.rows[r][c] = rv;
                    tableau.rows[r][c + 1] = 0;
                    assert(tableau@ =~= t.update(r as int, t[r as int].update(c as int, t[r as int][c + 1]).update(c + 1, 0)));
                    c += 1;
                } else {
                    tableau.rows[r][c] = bv;
                    tableau.rows[r + 1][c] = 0;
                    assert(tableau@ =~= t.update(r as int, t[r as int].update(c as int, t[r + 1][c as int])).update(r + 1, t[r + 1].update(c as int, 0)));
                    r += 1;
                }
            },
        }
    }
    assert(tableau.rows@[r as int]@ == tableau@[r as int]);
    if r < tableau.rows.len() - 1 {
        assert(tableau.rows@[r + 1]@ == tableau@[r + 1]);
    }
}

/// A slide keeps the shape and leaves the empty cell (holding 0) at an outer
/// corner: a cell with no cell to its right and none below it.
pub proof fn lemma_slide_ends_at_corner(t: Seq<Seq<u32>>, r: int, c: int)
    requires
        is_cell(t, r, c),
        t[r][c] == 0,
    ensures
        shape_of(slide_spec(t, r, c)) == shape_of(t),
        exists|a: int, b: int| #[trigger] is_cell(slide_spec(t, r, c), a, b) && slide_spec(t, r, c)[a][b] == 0
            && b + 1 >= slide_spec(t, r, c)[a].len()
            && !(a + 1 < slide_spec(t, r, c).len() && b < slide_spec(t, r, c)[a + 1].len()),
    decreases t.len() - r, t[r].len() - c,
{
    let u = slide_spec(t, r, c);
    let has_right = c + 1 < t[r].len();
    let has_below = r + 1 < t.len() && c < t[r + 1].len();
    if !has_right && !has_below {
        assert(u[r][c] == 0);
        assert(is_cell(u, r, c));
    } else if has_right && (!has_below || t[r][c + 1] < t[r + 1][c]) {
        let t2 = t.update(r, t[r].update(c, t[r][c + 1]).update(c + 1, 0));
        assert(t2[r][c + 1] == 0);
        lemma_slide_ends_at_corner(t2, r, c + 1);
        assert(shape_of(t2) =~= shape_of(t));
    } else {
        let t2 = t.update(r, t[r].update(c, t[r + 1][c])).update(r + 1, t[r + 1].update(c, 0));
        assert(t2[r + 1][c] == 0);
        lemma_slide_ends_at_corner(t2, r + 1, c);
        assert(shape_of(t2) =~= shape_of(t));
    }
}

/// A tableau of partition shape with one empty cell `(r, c)` holding 0, whose
/// other entries are nonzero and distinct, and increase strictly along each
/// row and down each column when the empty cell is skipped.
pub open spec fn is_hole_tableau(t: Seq<Seq<u32>>, r: int, c: int) -> bool {
    &&& is_partition_shape(t)
    &&& is_cell(t, r, c)
    &&& t[r][c] == 0
    &&& forall|x: int, y: int| is_cell(t, x, y) && (x != r || y != c) ==> #[trigger] t[x][y] != 0
    &&& forall|x: int, y1: int, y2: int|
        0 <= x < t.len() && 0 <= y1 < y2 < t[x].len() && (x != r || y1 != c) && (x != r || y2 != c)
            ==> #[trigger] t[x][y1] < #[trigger] t[x][y2]
    &&& forall|x1: int, x2: int, y: int|
        0 <= x1 < x2 < t.len() && 0 <= y < t[x2].len() && (x1 != r || y != c) && (x2 != r || y != c)
            ==> #[trigger] t[x1][y] < #[trigger] t[x2][y]
    &&& forall|x1: int, y1: int, x2: int, y2: int|
        is_cell(t, x1, y1) && is_cell(t, x2, y2) && (x1 != x2 || y1 != y2) && (x1 != r || y1 != c)
            && (x2 != r || y2 != c) ==> #[trigger] t[x1][y1] != #[trigger] t[x2][y2]
}

/// Sliding the right neighbour into the empty cell keeps the ordering.
proof fn lemma_slide_right_step(t: Seq<Seq<u32>>, r: int, c: int)
    requires
        is_hole_tableau(t, r, c),
        c + 1 < t[r].len(),
        r + 1 < t.len() && c < t[r + 1].len() ==> t[r][c + 1] < t[r + 1][c],
    ensures
        is_hole_tableau(t.update(r, t[r].update(c, t[r][c + 1]).update(c + 1, 0)), r, c + 1),
        content(t.update(r, t[r].update(c, t[r][c + 1]).update(c + 1, 0))) == content(t),
{
    let rv = t[r][c + 1];
    let row2 = t[r].update(c, rv).update(c + 1, 0);
    let t2 = t.update(r, row2);
    assert forall|x: int, y: int| is_cell(t2, x, y) implies #[trigger] t2[x][y] == (if x == r && y == c { rv } else if x == r && y == c + 1 { 0 } else { t[x][y] }) by {}
    assert forall|i: int, j: int| 0 <= i < j < t2.len() implies #[trigger] t2[j].len() <= #[trigger] t2[i].len() by {
        assert(t[j].len() <= t[i].len());
    }
    assert forall|x: int, y1: int, y2: int|
        0 <= x < t2.len() && 0 <= y1 < y2 < t2[x].len() && (x != r || y1 != c + 1) && (x != r || y2 != c + 1)
            implies #[trigger] t2[x][y1] < #[trigger] t2[x][y2] by {
        if x == r {
            if y1 == c {
                assert(t[r][c + 1] < t[r][y2]);
            } else if y2 == c {
                assert(t[r][y1] < t[r][c + 1]);
            } else {
                assert(t[x][y1] < t[x][y2]);
            }
        } else {
            assert(t[x][y1] < t[x][y2]);
        }
    }
    assert forall|x1: int, x2: int, y: int|
        0 <= x1 < x2 < t2.len() && 0 <= y < t2[x2].len() && (x1 != r || y != c + 1) && (x2 != r || y != c + 1)
            implies #[trigger] t2[x1][y] < #[trigger] t2[x2][y] by {
        assert(t[x2].len() <= t[x1].len());
        if x1 == r && y == c {
            // the moved value against the cells below it in column c
            assert(t[r + 1].len() <= t[r].len());
            if x2 > r + 1 {
                assert(t[r + 1][c] < t[x2][c]);
            }
            assert(t[r][c + 1] < t[r + 1][c]);
        } else if x2 == r && y == c {
            // the cells above the moved value: t[x1][c] < t[x1][c + 1] < t[r][c + 1]
            assert(t[r].len() <= t[x1].len());
            assert(t[x1][c] < t[x1][c + 1]);
            assert(t[x1][c + 1] < t[r][c + 1]);
        } else {
            assert(t[x1][y] < t[x2][y]);
        }
    }
    assert forall|x1: int, y1: int, x2: int, y2: int|
        is_cell(t2, x1, y1) && is_cell(t2, x2, y2) && (x1 != x2 || y1 != y2) && (x1 != r || y1 != c + 1)
            && (x2 != r || y2 != c + 1) implies #[trigger] t2[x1][y1] != #[trigger] t2[x2][y2] by {
        if x1 == r && y1 == c {
            assert(t[r][c + 1] != t[x2][y2]);
        } else if x2 == r && y2 == c {
            assert(t[x1][y1] != t[r][c + 1]);
        } else {
            assert(t[x1][y1] != t[x2][y2]);
        }
    }
    assert forall|x: int, y: int| is_cell(t2, x, y) && (x != r || y != c + 1) implies #[trigger] t2[x][y] != 0 by {
        if x == r && y == c {
            assert(t[r][c + 1] != 0);
        }
    }
    // the row keeps its entries: 0 and rv trade places
    let row = t[r];
    assert(row2.to_multiset() =~= row.to_multiset()) by {
        broadcast use {vstd::multiset::group_multiset_axioms, vstd::seq_lib::group_to_multiset_ensures};
        let row1 = row.update(c, rv);
        assert(row[c] == 0);
        assert(row1[c + 1] == rv);
        assert(row.contains(0u32) && row.contains(rv));
        assert(row1.to_multiset() == row.to_multiset().insert(rv).remove(0u32));
        assert(row2.to_multiset() == row1.to_multiset().insert(0u32).remove(rv));
        assert forall|a: u32| #[trigger] row2.to_multiset().count(a) == row.to_multiset().count(a) by {}
    }
    lemma_content_update(t, r, row2);
    assert(content(t2) =~= content(t)) by {
        broadcast use vstd::multiset::group_multiset_axioms;
        assert forall|a: u32| #[trigger] content(t2).count(a) == content(t).count(a) by {
            assert(content(t2).add(t[r].to_multiset()).count(a) == content(t).add(row2.to_multiset()).count(a));
        }
    }
}

/// Sliding the lower neighbour into the empty cell keeps the ordering.
proof fn lemma_slide_down_step(t: Seq<Seq<u32>>, r: int, c: int)
    requires
        is_hole_tableau(t, r, c),
        r + 1 < t.len(),
        c < t[r + 1].len(),
        c + 1 < t[r].len() ==> t[r + 1][c] < t[r][c + 1],
    ensures
        is_hole_tableau(t.update(r, t[r].update(c, t[r + 1][c])).update(r + 1, t[r + 1].update(c, 0)), r + 1, c),
        content(t.update(r, t[r].update(c, t[r + 1][c])).update(r + 1, t[r + 1].update(c, 0))) == content(t),
{
    let bv = t[r + 1][c];
    let t1 = t.update(r, t[r].update(c, bv));
    let t2 = t1.update(r + 1, t[r + 1].update(c, 0));
    assert forall|x: int, y: int| is_cell(t2, x, y) implies #[trigger] t2[x][y] == (if x == r && y == c { bv } else if x == r + 1 && y == c { 0 } else { t[x][y] }) by {}
    assert forall|i: int, j: int| 0 <= i < j < t2.len() implies #[trigger] t2[j].len() <= #[trigger] t2[i].len() by {
        assert(t[j].len() <= t[i].len());
    }
    assert forall|x: int, y1: int, y2: int|
        0 <= x < t2.len() && 0 <= y1 < y2 < t2[x].len() && (x != r + 1 || y1 != c) && (x != r + 1 || y2 != c)
            implies #[trigger] t2[x][y1] < #[trigger] t2[x][y2] by {
        if x == r {
            if y1 == c {
                // bv < t[r][c + 1] <= t[r][y2]
                assert(t[r + 1][c] < t[r][c + 1]);
                if y2 > c + 1 {
                    assert(t[r][c + 1] < t[r][y2]);
                }
            } else if y2 == c {
                // t[r][y1] < t[r + 1][y1] < t[r + 1][c]
                assert(t[r][y1] < t[r + 1][y1]);
                assert(t[r + 1][y1] < t[r + 1][c]);
            } else {
                assert(t[x][y1] < t[x][y2]);
            }
        } else {
            assert(t[x][y1] < t[x][y2]);
        }
    }
    assert forall|x1: int, x2: int, y: int|
        0 <= x1 < x2 < t2.len() && 0 <= y < t2[x2].len() && (x1 != r + 1 || y != c) && (x2 != r + 1 || y != c)
            implies #[trigger] t2[x1][y] < #[trigger] t2[x2][y] by {
        assert(t[x2].len() <= t[x1].len());
        if x1 == r && y == c {
            assert(t[r + 1][c] < t[x2][c]);
        } else if x2 == r && y == c {
            assert(t[x1][c] < t[r + 1][c]);
        } else {
            assert(t[x1][y] < t[x2][y]);
        }
    }
    assert forall|x1: int, y1: int, x2: int, y2: int|
        is_cell(t2, x1, y1) && is_cell(t2, x2, y2) && (x1 != x2 || y1 != y2) && (x1 != r + 1 || y1 != c)
            && (x2 != r + 1 || y2 != c) implies #[trigger] t2[x1][y1] != #[trigger] t2[x2][y2] by {
        if x1 == r && y1 == c {
            assert(t[r + 1][c] != t[x2][y2]);
        } else if x2 == r && y2 == c {
            assert(t[x1][y1] != t[r + 1][c]);
        } else {
            assert(t[x1][y1] != t[x2][y2]);
        }
    }
    assert forall|x: int, y: int| is_cell(t2, x, y) && (x != r + 1 || y != c) implies #[trigger] t2[x][y] != 0 by {
        if x == r && y == c {
            assert(t[r + 1][c] != 0);
        }
    }
    // 0 moves down one row and bv up one row
    lemma_content_update(t, r, t[r].update(c, bv));
    lemma_content_update(t1, r + 1, t[r + 1].update(c, 0));
    assert(t1[r + 1] == t[r + 1]);
    assert(content(t2) =~= content(t)) by {
        broadcast use {vstd::multiset::group_multiset_axioms, vstd::seq_lib::group_to_multiset_ensures};
        assert(t[r][c] == 0);
        assert(t[r].contains(0u32));
        assert(t[r + 1].contains(bv));
        assert(t[r].update(c, bv).to_multiset() == t[r].to_multiset().insert(bv).remove(0u32));
        assert(t[r + 1].update(c, 0).to_multiset() == t[r + 1].to_multiset().insert(0u32).remove(bv));
        assert forall|a: u32| #[trigger] content(t2).count(a) == content(t).count(a) by {
            assert(content(t1).add(t[r].to_multiset()).count(a) == content(t).add(t[r].update(c, bv).to_multiset()).count(a));
            assert(content(t2).add(t1[r + 1].to_multiset()).count(a) == content(t1).add(t[r + 1].update(c, 0).to_multiset()).count(a));
        }
    }
}

/// A slide through a tableau with one empty cell keeps its entries and keeps
/// the rows and columns strictly increasing, the empty cell skipped; the
/// empty cell ends at an outer corner.
pub proof fn lemma_slide_keeps_order(t: Seq<Seq<u32>>, r: int, c: int)
    requires
        is_hole_tableau(t, r, c),
    ensures
        content(slide_spec(t, r, c)) == content(t),
        exists|a: int, b: int| #[trigger] is_hole_tableau(slide_spec(t, r, c), a, b)
            && b + 1 >= slide_spec(t, r, c)[a].len()
            && !(a + 1 < slide_spec(t, r, c).len() && b < slide_spec(t, r, c)[a + 1].len()),
    decreases t.len() - r, t[r].len() - c,
{
    let has_right = c + 1 < t[r].len();
    let has_below = r + 1 < t.len() && c < t[r + 1].len();
    if !has_right && !has_below {
        assert(slide_spec(t, r, c) == t);
        assert(is_hole_tableau(slide_spec(t, r, c), r, c));
    } else if has_right && (!has_below || t[r][c + 1] < t[r + 1][c]) {
        lemma_slide_right_step(t, r, c);
        let t2 = t.update(r, t[r].update(c, t[r][c + 1]).update(c + 1, 0));
        lemma_slide_keeps_order(t2, r, c + 1);
        assert(slide_spec(t, r, c) == slide_spec(t2, r, c + 1));
    } else {
        if has_right {
            assert(t[r][c + 1] != t[r + 1][c]);
        }
        lemma_slide_down_step(t, r, c);
        let t2 = t.update(r, t[r].update(c, t[r + 1][c])).update(r + 1, t[r + 1].update(c, 0));
        lemma_slide_keeps_order(t2, r + 1, c);
        assert(slide_spec(t, r, c) == slide_spec(t2, r + 1, c));
    }
}

/// A tableau of partition shape with one empty cell `(r, c)` holding 0 whose
/// other entries, which may repeat, increase weakly along each row and
/// strictly down each column when the empty cell is skipped.
pub open spec fn is_semistandard_hole(t: Seq<Seq<u32>>, r: int, c: int) -> bool {
    &&& is_partition_shape(t)
    &&& is_cell(t, r, c)
    &&& t[r][c] == 0
    &&& forall|x: int, y1: int, y2: int|
        0 <= x < t.len() && 0 <= y1 < y2 < t[x].len() && (x != r || y1 != c) && (x != r || y2 != c)
            ==> #[trigger] t[x][y1] <= #[trigger] t[x][y2]
    &&& forall|x1: int, x2: int, y: int|
        0 <= x1 < x2 < t.len() && 0 <= y < t[x2].len() && (x1 != r || y != c) && (x2 != r || y != c)
            ==> #[trigger] t[x1][y] < #[trigger] t[x2][y]
}

/// Sliding the right neighbour into the empty cell keeps a semistandard order.
proof fn lemma_semistandard_right_step(t: Seq<Seq<u32>>, r: int, c: int)
    requires
        is_semistandard_hole(t, r, c),
        c + 1 < t[r].len(),
        r + 1 < t.len() && c < t[r + 1].len() ==> t[r][c + 1] < t[r + 1][c],
    ensures
        is_semistandard_hole(t.update(r, t[r].update(c, t[r][c + 1]).update(c + 1, 0)), r, c + 1),
        content(t.update(r, t[r].update(c, t[r][c + 1]).update(c + 1, 0))) == content(t),
{
    let rv = t[r][c + 1];
    let row2 = t[r].update(c, rv).update(c + 1, 0);
    let t2 = t.update(r, row2);
    assert forall|x: int, y: int| is_cell(t2, x, y) implies #[trigger] t2[x][y] == (if x == r && y == c { rv } else if x == r && y == c + 1 { 0 } else { t[x][y] }) by {}
    assert forall|i: int, j: int| 0 <= i < j < t2.len() implies #[trigger] t2[j].len() <= #[trigger] t2[i].len() by {
        assert(t[j].len() <= t[i].len());
    }
    assert forall|x: int, y1: int, y2: int|
        0 <= x < t2.len() && 0 <= y1 < y2 < t2[x].len() && (x != r || y1 != c + 1) && (x != r || y2 != c + 1)
            implies #[trigger] t2[x][y1] <= #[trigger] t2[x][y2] by {
        if x == r {
            if y1 == c {
                assert(t[r][c + 1] <= t[r][y2]);
            } else if y2 == c {
                assert(t[r][y1] <= t[r][c + 1]);
            } else {
                assert(t[x][y1] <= t[x][y2]);
            }
        } else {
            assert(t[x][y1] <= t[x][y2]);
        }
    }
    assert forall|x1: int, x2: int, y: int|
        0 <= x1 < x2 < t2.len() && 0 <= y < t2[x2].len() && (x1 != r || y != c + 1) && (x2 != r || y != c + 1)
            implies #[trigger] t2[x1][y] < #[trigger] t2[x2][y] by {
        assert(t[x2].len() <= t[x1].len());
        if x1 == r && y == c {
            // the moved value against the cells below it in column c
            assert(t[r + 1].len() <= t[r].len());
            if x2 > r + 1 {
                assert(t[r + 1][c] < t[x2][c]);
            }
            assert(t[r][c + 1] < t[r + 1][c]);
        } else if x2 == r && y == c {
            // the cells above the moved value: t[x1][c] <= t[x1][c + 1] < t[r][c + 1]
            assert(t[r].len() <= t[x1].len());
            assert(t[x1][c] <= t[x1][c + 1]);
            assert(t[x1][c + 1] < t[r][c + 1]);
        } else {
            assert(t[x1][y] < t[x2][y]);
        }
    }
    // the row keeps its entries: 0 and rv trade places
    let row = t[r];
    assert(row2.to_multiset() =~= row.to_multiset()) by {
        broadcast use {vstd::multiset::group_multiset_axioms, vstd::seq_lib::group_to_multiset_ensures};
        let row1 = row.update(c, rv);
        assert(row[c] == 0);
        assert(row1[c + 1] == rv);
        assert(row.contains(0u32) && row.contains(rv));
        assert(row1.to_multiset() == row.to_multiset().insert(rv).remove(0u32));
        assert(row2.to_multiset() == row1.to_multiset().insert(0u32).remove(rv));
        assert forall|a: u32| #[trigger] row2.to_multiset().count(a) == row.to_multiset().count(a) by {}
    }
    lemma_content_update(t, r, row2);
    assert(content(t2) =~= content(t)) by {
        broadcast use vstd::multiset::group_multiset_axioms;
        assert forall|a: u32| #[trigger] content(t2).count(a) == content(t).count(a) by {
            assert(content(t2).add(t[r].to_multiset()).count(a) == content(t).add(row2.to_multiset()).count(a));
        }
    }
}

/// Sliding the lower neighbour into the empty cell keeps a semistandard order.
proof fn lemma_semistandard_down_step(t: Seq<Seq<u32>>, r: int, c: int)
    requires
        is_semistandard_hole(t, r, c),
        r + 1 < t.len(),
        c < t[r + 1].len(),
        c + 1 < t[r].len() ==> t[r + 1][c] <= t[r][c + 1],
    ensures
        is_semistandard_hole(t.update(r, t[r].update(c, t[r + 1][c])).update(r + 1, t[r + 1].update(c, 0)), r + 1, c),
        content(t.update(r, t[r].update(c, t[r + 1][c])).update(r + 1, t[r + 1].update(c, 0))) == content(t),
{
    let bv = t[r + 1][c];
    let t1 = t.update(r, t[r].update(c, bv));
    let t2 = t1.update(r + 1, t[r + 1].update(c, 0));
    assert forall|x: int, y: int| is_cell(t2, x, y) implies #[trigger] t2[x][y] == (if x == r && y == c { bv } else if x == r + 1 && y == c { 0 } else { t[x][y] }) by {}
    assert forall|i: int, j: int| 0 <= i < j < t2.len() implies #[trigger] t2[j].len() <= #[trigger] t2[i].len() by {
        assert(t[j].len() <= t[i].len());
    }
    assert forall|x: int, y1: int, y2: int|
        0 <= x < t2.len() && 0 <= y1 < y2 < t2[x].len() && (x != r + 1 || y1 != c) && (x != r + 1 || y2 != c)
            implies #[trigger] t2[x][y1] <= #[trigger] t2[x][y2] by {
        if x == r {
            if y1 == c {
                // bv <= t[r][c + 1] <= t[r][y2]
                assert(t[r + 1][c] <= t[r][c + 1]);
                if y2 > c + 1 {
                    assert(t[r][c + 1] <= t[r][y2]);
                }
            } else if y2 == c {
                // t[r][y1] < t[r + 1][y1] <= t[r + 1][c]
                assert(t[r][y1] < t[r + 1][y1]);
                assert(t[r + 1][y1] <= t[r + 1][c]);
            } else {
                assert(t[x][y1] <= t[x][y2]);
            }
        } else {
            assert(t[x][y1] <= t[x][y2]);
        }
    }
    assert forall|x1: int, x2: int, y: int|
        0 <= x1 < x2 < t2.len() && 0 <= y < t2[x2].len() && (x1 != r + 1 || y != c) && (x2 != r + 1 || y != c)
            implies #[trigger] t2[x1][y] < #[trigger] t2[x2][y] by {
        assert(t[x2].len() <= t[x1].len());
        if x1 == r && y == c {
            assert(t[r + 1][c] < t[x2][c]);
        } else if x2 == r && y == c {
            assert(t[x1][c] < t[r + 1][c]);
        } else {
            assert(t[x1][y] < t[x2][y]);
        }
    }
    // 0 moves down one row and bv up one row
    lemma_content_update(t, r, t[r].update(c, bv));
    lemma_content_update(t1, r + 1, t[r + 1].update(c, 0));
    assert(t1[r + 1] == t[r + 1]);
    assert(content(t2) =~= content(t)) by {
        broadcast use {vstd::multiset::group_multiset_axioms, vstd::seq_lib::group_to_multiset_ensures};
        assert(t[r][c] == 0);
        assert(t[r].contains(0u32));
        assert(t[r + 1].contains(bv));
        assert(t[r].update(c, bv).to_multiset() == t[r].to_multiset().insert(bv).remove(0u32));
        assert(t[r + 1].update(c, 0).to_multiset() == t[r + 1].to_multiset().insert(0u32).remove(bv));
        assert forall|a: u32| #[trigger] content(t2).count(a) == content(t).count(a) by {
            assert(content(t1).add(t[r].to_multiset()).count(a) == content(t).add(t[r].update(c, bv).to_multiset()).count(a));
            assert(content(t2).add(t1[r + 1].to_multiset()).count(a) == content(t1).add(t[r + 1].update(c, 0).to_multiset()).count(a));
        }
    }
}

/// A slide through a semistandard tableau with one empty cell, where entries
/// may repeat, keeps its entries, keeps the rows weakly and the columns
/// strictly increasing, the empty cell skipped; the empty cell ends at an
/// outer corner.
pub proof fn lemma_slide_keeps_semistandard(t: Seq<Seq<u32>>, r: int, c: int)
    requires
        is_semistandard_hole(t, r, c),
    ensures
        content(slide_spec(t, r, c)) == content(t),
        exists|a: int, b: int| #[trigger] is_semistandard_hole(slide_spec(t, r, c), a, b)
            && b + 1 >= slide_spec(t, r, c)[a].len()
            && !(a + 1 < slide_spec(t, r, c).len() && b < slide_spec(t, r, c)[a + 1].len()),
    decreases t.len() - r, t[r].len() - c,
{
    let has_right = c + 1 < t[r].len();
    let has_below = r + 1 < t.len() && c < t[r + 1].len();
    if !has_right && !has_below {
        assert(slide_spec(t, r, c) == t);
        assert(is_semistandard_hole(slide_spec(t, r, c), r, c));
    } else if has_right && (!has_below || t[r][c + 1] < t[r + 1][c]) {
        lemma_semistandard_right_step(t, r, c);
        let t2 = t.update(r, t[r].update(c, t[r][c + 1]).update(c + 1, 0));
        lemma_slide_keeps_semistandard(t2, r, c + 1);
        assert(slide_spec(t, r, c) == slide_spec(t2, r, c + 1));
    } else {
        lemma_semistandard_down_step(t, r, c);
        let t2 = t.update(r, t[r].update(c, t[r + 1][c])).update(r + 1, t[r + 1].update(c, 0));
        lemma_slide_keeps_semistandard(t2, r + 1, c);
        assert(slide_spec(t, r, c) == slide_spec(t2, r + 1, c));
    }
}

/// Check if a word is a lattice permutation: for every prefix, the
/// number of i's is ≥ the number of (i+1)'s for all i.
pub fn is_lattice_permutation(word: &[u32]) -> (b: bool)
    requires
        forall|i: int| 0 <= i < word@.len() ==> (#[trigger] word@[i] as int) < usize::MAX,
    ensures
        b == is_lattice_spec(word@),
{
    let n = word.len();
    if n == 0 {
        return true;
    }
    // largest letter
    let mut m: u32 = 0;
    let mut i: usize = 0;
    while i < n
        invariant
            n == word@.len(),
            i <= n,
            m == max_value(word@.take(i as int)),
            forall|j: int| 0 <= j < i ==> word@[j] <= m,
        decreases n - i,
    {
        assert(word@.take(i + 1).drop_last() =~= word@.take(i as int));
        if word[i] > m {
            m = word[i];
        }
        i += 1;
    }
    assert(word@.take(i as int) =~= word@);
    let ghost mv = max_value(word@);
    assert(mv == 0 || exists|j: int| 0 <= j < n && word@[j] == mv) by {
        lemma_max_value_attained(word@);
    }
    let max_val = m as usize;
    let mut counts: Vec<usize> = vec![0; max_val + 1];
    assert forall|v: int| 0 <= v <= max_val implies #[trigger] counts@[v] == occurrences(word@.take(0), v) by {}
    let mut k: usize = 0;
    assert(prefixes_ok(word@, 0));
    while k < n
        invariant
            n == word@.len(),
            k <= n,
            max_val == max_value(word@),
            forall|j: int| 0 <= j < n ==> word@[j] <= max_val,
            counts@.len() == max_val + 1,
            forall|v: int| 0 <= v <= max_val ==> #[trigger] counts@[v] == occurrences(word@.take(k as int), v),
            prefixes_ok(word@, k as int),
        decreases n - k,
    {
        let v = word[k] as usize;
        if v == 0 {
            proof {
                assert(word@[(k + 1) - 1] == 0);
                lemma_lattice_fails_at(word@, k + 1);
            }
            return false;
        }
        proof {
            assert(word@.take(k + 1).drop_last() =~= word@.take(k as int));
            assert forall|w: int| 0 <= w <= max_val implies occurrences(word@.take(k + 1), w) == occurrences(word@.take(k as int), w) + if w == v { 1nat } else { 0nat } by {}
            lemma_occurrences_bound(word@.take(k as int), v as int);
        }
        counts.set(v, counts[v] + 1);
        let mut j: usize = 1;
        while j < max_val
            invariant
                1 <= j,
                j <= max_val || max_val == 0,
                max_val == max_value(word@),
                n == word@.len(),
                word@[k as int] != 0,
                prefixes_ok(word@, k as int),
                counts@.len() == max_val + 1,
                k < n,
                forall|w: int| 0 <= w <= max_val ==> #[trigger] counts@[w] == occurrences(word@.take(k + 1), w),
                forall|ii: int, jj: int| jj == ii + 1 && 1 <= ii < j && ii < max_val ==> #[trigger] occurrences(word@.take(k + 1), ii) >= #[trigger] occurrences(word@.take(k + 1), jj),
            decreases max_val - j,
        {
            if counts[j] < counts[j + 1] {
                assert(occurrences(word@.take(k + 1), j as int) < occurrences(word@.take(k + 1), j + 1));
                assert(!prefix_balanced(word@, k + 1)) by {
                    reveal(prefix_balanced);
                }
                proof {
                    lemma_lattice_fails_at(word@, k + 1);
                }
                return false;
            }
            j += 1;
        }
        assert(prefix_balanced(word@, k + 1)) by {
            reveal(prefix_balanced);
        }
        proof {
            lemma_prefixes_ok_step(word@, k as int);
        }
        k += 1;
    }
    true
}

proof fn lemma_lattice_fails_at(word: Seq<u32>, k: int)
    requires
        1 <= k <= word.len(),
        word[k - 1] == 0 || !prefix_balanced(word, k),
    ensures
        !is_lattice_spec(word),
{
    if is_lattice_spec(word) {
        assert(prefix_balanced(word, k));
        assert(word[k - 1] != 0);
    }
}

/// The first `k` prefixes pass the lattice checks.
spec fn prefixes_ok(word: Seq<u32>, k: int) -> bool {
    &&& forall|j: int| 0 <= j < k ==> #[trigger] word[j] != 0
    &&& forall|kk: int| 1 <= kk <= k ==> #[trigger] prefix_balanced(word, kk)
}

proof fn lemma_prefixes_ok_step(word: Seq<u32>, k: int)
    requires
        0 <= k < word.len(),
        prefixes_ok(word, k),
        word[k] != 0,
        prefix_balanced(word, k + 1),
    ensures
        prefixes_ok(word, k + 1),
{
    assert forall|kk: int| 1 <= kk <= k + 1 implies #[trigger] prefix_balanced(word, kk) by {
        if kk <= k {
            assert(prefix_balanced(word, kk));
        }
    }
}

/// Length of the longest strictly increasing subsequence of `s` that ends at
/// position `i` (0 outside `s`).
pub open spec fn lis_end(s: Seq<u32>, i: int) -> nat
    decreases i, i + 1,
{
    if i < 0 || i >= s.len() {
        0
    } else {
        1 + best_before(s, i, i)
    }
}

/// Largest `lis_end(s, j)` over positions `j < k` with `s[j] < s[i]`, 0 when
/// there is none (for `0 <= k <= i`).
pub open spec fn best_before(s: Seq<u32>, i: int, k: int) -> nat
    decreases i, k,
{
    if k <= 0 || k > i || i >= s.len() {
        0
    } else {
        let prev = best_before(s, i, k - 1);
        let here: nat = if s[k - 1] < s[i] { lis_end(s, k - 1) } else { 0 };
        if prev >= here { prev } else { here }
    }
}

/// Largest `lis_end(s, j)` over positions `j < k`.
pub open spec fn lis_max(s: Seq<u32>, k: int) -> nat
    decreases k,
{
    if k <= 0 {
        0
    } else if lis_max(s, k - 1) >= lis_end(s, k - 1) {
        lis_max(s, k - 1)
    } else {
        lis_end(s, k - 1)
    }
}

/// The last position before `bound` where a longest increasing subsequence
/// ending there has length `level`, or -1 when there is none.
pub open spec fn latest_at_level(s: Seq<u32>, level: nat, bound: int) -> int
    decreases bound,
{
    if bound <= 0 {
        -1
    } else if lis_end(s, bound - 1) == level {
        bound - 1
    } else {
        latest_at_level(s, level, bound - 1)
    }
}

/// Positions of the increasing subsequence of length `level` that ends at the
/// last position of that level before `bound`, each earlier position being
/// the last one of the level below before it.
pub open spec fn chain_back(s: Seq<u32>, level: nat, bound: int) -> Seq<int>
    decreases level,
{
    if level == 0 {
        Seq::empty()
    } else {
        let i = latest_at_level(s, level, bound);
        chain_back(s, (level - 1) as nat, i).push(i)
    }
}

proof fn lemma_best_before_upper(s: Seq<u32>, i: int, k: int, b: nat)
    requires
        0 <= k <= i < s.len(),
        forall|j: int| 0 <= j < k && s[j] < s[i] ==> #[trigger] lis_end(s, j) <= b,
    ensures
        best_before(s, i, k) <= b,
    decreases k,
{
    if k > 0 {
        lemma_best_before_upper(s, i, k - 1, b);
        if s[k - 1] < s[i] {
            assert(lis_end(s, k - 1) <= b);
        }
    }
}

proof fn lemma_best_before_lower(s: Seq<u32>, i: int, k: int, j: int)
    requires
        0 <= j < k <= i < s.len(),
        s[j] < s[i],
    ensures
        lis_end(s, j) <= best_before(s, i, k),
    decreases k,
{
    if j < k - 1 {
        lemma_best_before_lower(s, i, k - 1, j);
    }
}

proof fn lemma_latest_at_level(s: Seq<u32>, level: nat, bound: int)
    requires
        bound >= 0,
    ensures
        latest_at_level(s, level, bound) < bound,
        latest_at_level(s, level, bound) >= 0 ==> lis_end(s, latest_at_level(s, level, bound)) == level,
        latest_at_level(s, level, bound) >= -1,
        forall|j: int| latest_at_level(s, level, bound) < j < bound ==> #[trigger] lis_end(s, j) != level,
    decreases bound,
{
    if bound > 0 && lis_end(s, bound - 1) != level {
        lemma_latest_at_level(s, level, bound - 1);
    }
}

/// Position `j` is the last before `bound` at level `level`.
proof fn lemma_latest_at_level_is(s: Seq<u32>, level: nat, bound: int, j: int)
    requires
        0 <= j < bound,
        lis_end(s, j) == level,
        forall|k: int| j < k < bound ==> #[trigger] lis_end(s, k) != level,
    ensures
        latest_at_level(s, level, bound) == j,
    decreases bound,
{
    if bound - 1 > j {
        assert(lis_end(s, bound - 1) != level);
        lemma_latest_at_level_is(s, level, bound - 1, j);
    }
}

proof fn lemma_lis_max(s: Seq<u32>, k: int, b: nat, j: int)
    requires
        0 <= j < k,
        lis_end(s, j) == b,
        forall|i: int| 0 <= i < k ==> #[trigger] lis_end(s, i) <= b,
    ensures
        lis_max(s, k) == b,
    decreases k,
{
    if j < k - 1 {
        lemma_lis_max(s, k - 1, b, j);
    } else {
        lemma_lis_max_bound(s, k - 1, b);
    }
}

proof fn lemma_lis_max_bound(s: Seq<u32>, k: int, b: nat)
    requires
        forall|i: int| 0 <= i < k ==> #[trigger] lis_end(s, i) <= b,
    ensures
        lis_max(s, k) <= b,
    decreases k,
{
    if k > 0 {
        lemma_lis_max_bound(s, k - 1, b);
    }
}

/// Index of the leftmost pile whose top is at least `x` (piles strictly increasing).
fn leftmost_not_below(piles: &Vec<u32>, x: u32) -> (pos: usize)
    requires
        forall|a: int, b: int| 0 <= a < b < piles@.len() ==> #[trigger] piles@[a] < #[trigger] piles@[b],
    ensures
        pos <= piles@.len(),
        forall|j: int| 0 <= j < pos ==> #[trigger] piles@[j] < x,
        forall|j: int| pos <= j < piles@.len() ==> #[trigger] piles@[j] >= x,
{
    let mut lo: usize = 0;
    let mut hi: usize = piles.len();
    while lo < hi
        invariant
            lo <= hi <= piles@.len(),
            forall|a: int, b: int| 0 <= a < b < piles@.len() ==> #[trigger] piles@[a] < #[trigger] piles@[b],
            forall|j: int| 0 <= j < lo ==> #[trigger] piles@[j] < x,
            forall|j: int| hi <= j < piles@.len() ==> #[trigger] piles@[j] >= x,
        decreases hi - lo,
    {
        let mid = lo + (hi - lo) / 2;
        if piles[mid] < x {
            assert forall|j: int| 0 <= j < mid + 1 implies #[trigger] piles@[j] < x by {
                if j < mid {
                    assert(piles@[j] < piles@[mid as int]);
                }
            }
            lo = mid + 1;
        } else {
            assert forall|j: int| mid <= j < piles@.len() implies #[trigger] piles@[j] >= x by {
                if j > mid {
                    assert(piles@[mid as int] < piles@[j]);
                }
            }
            hi = mid;
        }
    }
    lo
}

/// The patience piles after `k` letters bound every strictly increasing
/// subsequence of the first `k` letters: it is no longer than the number of
/// piles, and its last value is at least the top of the pile of its length.
spec fn piles_bound(s: Seq<u32>, k: int, piles: Seq<u32>) -> bool {
    forall|idx: Seq<int>|
        #[trigger] is_increasing_subsequence(s.take(k), idx) && idx.len() > 0 ==> idx.len() <= piles.len()
            && piles[idx.len() - 1] <= s[idx[idx.len() - 1]]
}

proof fn lemma_piles_bound_step(s: Seq<u32>, k: int, piles: Seq<u32>, piles2: Seq<u32>, pos: int)
    requires
        0 <= k < s.len(),
        piles_bound(s, k, piles),
        0 <= pos <= piles.len(),
        forall|j: int| 0 <= j < pos ==> #[trigger] piles[j] < s[k],
        piles2 == if pos == piles.len() { piles.push(s[k]) } else { piles.update(pos, s[k]) },
        forall|j: int| pos <= j < piles.len() ==> #[trigger] piles[j] >= s[k],
    ensures
        piles_bound(s, k + 1, piles2),
{
    let x = s[k];
    assert forall|idx: Seq<int>|
        #[trigger] is_increasing_subsequence(s.take(k + 1), idx) && idx.len() > 0 implies idx.len() <= piles2.len()
            && piles2[idx.len() - 1] <= s[idx[idx.len() - 1]] by {
        let m = idx.len();
        let last = idx[m - 1];
        assert(0 <= last < k + 1);
        assert forall|i: int| 0 <= i < m implies #[trigger] idx[i] <= last by {
            if i < m - 1 {
                assert(idx[i] < idx[m - 1]);
            }
        }
        if last < k {
            assert(is_increasing_subsequence(s.take(k), idx)) by {
                assert forall|i: int, j: int| 0 <= i < j < idx.len() implies s.take(k)[#[trigger] idx[i]] < s.take(k)[#[trigger] idx[j]] by {
                    assert(s.take(k + 1)[idx[i]] < s.take(k + 1)[idx[j]]);
                }
            }
            assert(m <= piles.len() && piles[m - 1] <= s[last]);
            if m - 1 == pos {
                assert(piles[m - 1] >= x);
            }
        } else {
            if m >= 2 {
                let idx2 = idx.drop_last();
                assert(is_increasing_subsequence(s.take(k), idx2)) by {
                    assert forall|i: int| 0 <= i < idx2.len() implies 0 <= #[trigger] idx2[i] < s.take(k).len() by {
                        assert(idx[i] < idx[m - 1]);
                    }
                    assert forall|i: int, j: int| 0 <= i < j < idx2.len() implies #[trigger] idx2[i] < #[trigger] idx2[j] by {
                        assert(idx[i] < idx[j]);
                    }
                    assert forall|i: int, j: int| 0 <= i < j < idx2.len() implies s.take(k)[#[trigger] idx2[i]] < s.take(k)[#[trigger] idx2[j]] by {
                        assert(s.take(k + 1)[idx[i]] < s.take(k + 1)[idx[j]]);
                        assert(idx[j] < idx[m - 1]);
                    }
                }
                assert(m - 1 <= piles.len());
                assert(piles[m - 2] <= s[idx2[m - 2]]);
                assert(s.take(k + 1)[idx[m - 2]] < s.take(k + 1)[idx[m - 1]]);
                assert(piles[m - 2] < x);
                if m - 2 >= pos {
                    assert(piles[m - 2] >= x);
                }
            }
        }
    }
}

proof fn lemma_occurrences_bound(s: Seq<u32>, v: int)
    ensures
        occurrences(s, v) <= s.len(),
    decreases s.len(),
{
    if s.len() > 0 {
        lemma_occurrences_bound(s.drop_last(), v);
    }
}

proof fn lemma_max_value_attained(s: Seq<u32>)
    ensures
        s.len() > 0 ==> exists|j: int| 0 <= j < s.len() && s[j] == max_value(s),
        forall|j: int| 0 <= j < s.len() ==> s[j] <= max_value(s),
    decreases s.len(),
{
    if s.len() > 0 {
        lemma_max_value_attained(s.drop_last());
        assert forall|j: int| 0 <= j < s.len() implies s[j] <= max_value(s) by {
            if j < s.len() - 1 {
                assert(s[j] == s.drop_last()[j]);
            }
        }
        if max_value(s.drop_last()) >= s.last() && s.len() > 1 {
            let j = choose|j: int| 0 <= j < s.len() - 1 && s.drop_last()[j] == max_value(s.drop_last());
            assert(s[j] == max_value(s));
        } else {
            assert(s[s.len() - 1] == max_value(s));
        }
    }
}

/// Compute a longest increasing subsequence using patience sorting.
///
/// Returns the values of a strictly increasing subsequence of maximal length:
/// the one that ends at the last position where such a longest subsequence
/// can end, each earlier position being the last one before it that ends a
/// longest increasing subsequence one shorter.
pub fn lis_patience(sequence: &[u32]) -> (lis: Vec<u32>)
    ensures
        lis@ == chain_back(sequence@, lis_max(sequence@, sequence@.len() as int), sequence@.len() as int).map_values(
            |i: int| sequence@[i],
        ),
        exists|idx: Seq<int>| #[trigger] is_increasing_subsequence(sequence@, idx) && values_at(sequence@, idx, lis@),
        forall|idx: Seq<int>| #[trigger] is_increasing_subsequence(sequence@, idx) ==> idx.len() <= lis@.len(),
{
    let ghost s = sequence@;
    let n = sequence.len();
    if n == 0 {
        proof {
            let e = Seq::<int>::empty();
            assert(is_increasing_subsequence(s, e));
            assert(values_at(s, e, Seq::<u32>::empty()));
            assert forall|idx: Seq<int>| #[trigger] is_increasing_subsequence(s, idx) implies idx.len() <= 0 by {
                if idx.len() > 0 {
                    assert(0 <= idx[0] < s.len());
                }
            }
            assert(chain_back(s, 0, 0).map_values(|i: int| s[i]) =~= Seq::<u32>::empty());
        }
        return Vec::new();
    }
    // piles[i] = smallest possible top value of a pile of size i+1
    let mut piles: Vec<u32> = Vec::new();
    // parent pointers for reconstruction
    let mut parent: Vec<Option<usize>> = Vec::new();
    let mut i: usize = 0;
    while i < n
        invariant
            i <= n,
            parent@.len() == i,
            forall|j: int| 0 <= j < i ==> #[trigger] parent@[j] is None,
        decreases n - i,
    {
        parent.push(None);
        i += 1;
    }
    let mut pile_top: Vec<usize> = Vec::new();
    // pile of each processed position
    let ghost mut h: Seq<int> = Seq::new(n as nat, |j: int| 0);
    assert(piles_bound(s, 0, piles@)) by {
        assert forall|idx: Seq<int>| #[trigger] is_increasing_subsequence(s.take(0), idx) && idx.len() > 0 implies idx.len() <= piles@.len()
            && piles@[idx.len() - 1] <= s[idx[idx.len() - 1]] by {
            assert(0 <= idx[0] < s.take(0).len());
        }
    }
    let mut idx: usize = 0;
    while idx < n
        invariant
            s == sequence@,
            n == s.len(),
            idx <= n,
            parent@.len() == n,
            h.len() == n,
            piles@.len() == pile_top@.len(),
            forall|a: int, b: int| 0 <= a < b < piles@.len() ==> #[trigger] piles@[a] < #[trigger] piles@[b],
            forall|j: int| 0 <= j < pile_top@.len() ==> #[trigger] pile_top@[j] < idx,
            forall|j: int| 0 <= j < pile_top@.len() ==> s[#[trigger] pile_top@[j] as int] == piles@[j],
            forall|j: int| 0 <= j < pile_top@.len() ==> h[#[trigger] pile_top@[j] as int] == j,
            forall|j: int| 0 <= j < idx ==> (#[trigger] parent@[j] is None) == (h[j] == 0),
            forall|j: int| 0 <= j < idx && #[trigger] parent@[j] is Some ==> {
                let p = parent@[j]->0 as int;
                &&& p < j
                &&& s[p] < s[j]
                &&& h[p] == h[j] - 1
                &&& p == latest_at_level(s, h[j] as nat, j)
            },
            forall|j: int| 0 <= j < idx ==> #[trigger] h[j] >= 0,
            forall|j: int| 0 <= j < idx ==> #[trigger] lis_end(s, j) == h[j] + 1,
            forall|j: int| 0 <= j < idx ==> #[trigger] lis_end(s, j) <= piles@.len(),
            forall|j: int| 0 <= j < idx ==> piles@[lis_end(s, j) - 1] <= s[j] && #[trigger] lis_end(s, j) >= 1,
            forall|p: int| 0 <= p < pile_top@.len() ==> #[trigger] pile_top@[p] as int == latest_at_level(s, (p + 1) as nat, idx as int),
            forall|j: int| idx <= j < n ==> #[trigger] parent@[j] is None,
            idx > 0 ==> piles@.len() > 0,
            piles_bound(s, idx as int, piles@),
        decreases n - idx,
    {
        let val = sequence[idx];
        // Binary search for the leftmost pile with top >= val
        let pos = leftmost_not_below(&piles, val);
        let ghost old_piles = piles@;
        let ghost old_top = pile_top@;
        let ghost old_parent = parent@;
        let ghost old_h = h;
        proof {
            // the longest increasing subsequence ending here has length pos + 1
            assert forall|j: int| 0 <= j < idx && s[j] < s[idx as int] implies #[trigger] lis_end(s, j) <= pos by {
                let l = lis_end(s, j);
                assert(old_piles[l - 1] <= s[j]);
                if l - 1 >= pos {
                    assert(old_piles[l - 1] >= val);
                }
            }
            lemma_best_before_upper(s, idx as int, idx as int, pos as nat);
            if pos > 0 {
                let t = old_top[pos - 1] as int;
                assert(lis_end(s, t) == old_h[t] + 1);
                assert(s[t] == old_piles[pos - 1]);
                lemma_best_before_lower(s, idx as int, idx as int, t);
            }
            assert(lis_end(s, idx as int) == pos + 1);
        }
        if pos > 0 {
            parent.set(idx, Some(pile_top[pos - 1]));
        }
        proof {
            h = h.update(idx as int, pos as int);
        }
        if pos == piles.len() {
            piles.push(val);
            pile_top.push(idx);
        } else {
            piles.set(pos, val);
            pile_top.set(pos, idx);
        }
        proof {
            if pos > 0 {
                assert(parent@[idx as int] == Some(old_top[pos - 1]));
                assert(old_top[pos - 1] < idx);
                assert(s[old_top[pos - 1] as int] == old_piles[pos - 1] && old_piles[pos - 1] < val);
                assert(old_h[old_top[pos - 1] as int] == pos - 1);
                assert(old_top[pos - 1] as int == latest_at_level(s, pos as nat, idx as int));
            } else {
                assert(parent@[idx as int] == old_parent[idx as int]);
            }
            assert forall|j: int| 0 <= j < idx + 1 && #[trigger] parent@[j] is Some implies {
                let p = parent@[j]->0 as int;
                &&& p < j
                &&& s[p] < s[j]
                &&& h[p] == h[j] - 1
                &&& p == latest_at_level(s, h[j] as nat, j)
            } by {
                if j < idx {
                    assert(parent@[j] == old_parent[j]);
                    assert(old_parent[j] is Some);
                }
            }
            assert forall|j: int| 0 <= j < idx + 1 implies (#[trigger] parent@[j] is None) == (h[j] == 0) by {
                if j < idx {
                    assert(parent@[j] == old_parent[j]);
                }
            }
            assert forall|j: int| 0 <= j < idx + 1 implies piles@[lis_end(s, j) - 1] <= s[j] && #[trigger] lis_end(s, j) >= 1 by {
                if j < idx {
                    let l = lis_end(s, j);
                    if l - 1 == pos {
                        assert(old_piles[l - 1] <= s[j]);
                        assert(old_piles[pos as int] >= val);
                    } else {
                        assert(piles@[l - 1] == old_piles[l - 1]);
                    }
                }
            }
            assert forall|p: int| 0 <= p < pile_top@.len() implies #[trigger] pile_top@[p] as int == latest_at_level(s, (p + 1) as nat, idx + 1) by {
                if p != pos {
                    assert(pile_top@[p] == old_top[p]);
                    assert(lis_end(s, idx as int) != p + 1);
                }
            }
            lemma_piles_bound_step(s, idx as int, old_piles, piles@, pos as int);
            assert forall|a: int, b: int| 0 <= a < b < piles@.len() implies #[trigger] piles@[a] < #[trigger] piles@[b] by {
                if a == pos {
                    if b < old_piles.len() {
                        assert(old_piles[b] > old_piles[a]);
                    }
                } else if b == pos {
                    assert(old_piles[a] < val);
                } else {
                    assert(old_piles[a] < old_piles[b]);
                }
            }
        }
        idx += 1;
    }
    let len = piles.len();
    proof {
        assert(s.take(n as int) =~= s);
        assert(piles_bound(s, s.len() as int, piles@));
        let t = pile_top@[len - 1] as int;
        assert(lis_end(s, t) == len);
        lemma_lis_max(s, n as int, len as nat, t);
    }
    // Reconstruct the LIS
    let mut cur = pile_top[len - 1];
    let mut chain: Vec<usize> = Vec::new();
    chain.push(cur);
    proof {
        let i0 = cur as int;
        assert(chain_back(s, len as nat, n as int) == chain_back(s, (len - 1) as nat, i0).push(i0));
        assert(Seq::new(chain@.len(), |k: int| chain@[chain@.len() - 1 - k] as int) =~= seq![i0]);
        assert(chain_back(s, (len - 1) as nat, i0).push(i0) =~= chain_back(s, (len - 1) as nat, i0) + seq![i0]);
    }
    while parent[cur].is_some()
        invariant
            s == sequence@,
            n == s.len(),
            parent@.len() == n,
            h.len() == n,
            1 <= len,
            cur < n,
            chain@.len() >= 1,
            chain@[chain@.len() - 1] == cur,
            h[cur as int] == len - chain@.len(),
            forall|j: int| 0 <= j < n ==> (#[trigger] parent@[j] is None) == (h[j] == 0),
            forall|j: int| 0 <= j < n && #[trigger] parent@[j] is Some ==> {
                let p = parent@[j]->0 as int;
                &&& p < j
                &&& s[p] < s[j]
                &&& h[p] == h[j] - 1
                &&& p == latest_at_level(s, h[j] as nat, j)
            },
            forall|j: int| 0 <= j < n ==> #[trigger] h[j] >= 0,
            forall|a: int| 0 <= a < chain@.len() ==> #[trigger] chain@[a] < n,
            forall|a: int, b: int| 0 <= a < b < chain@.len() ==> #[trigger] chain@[b] < #[trigger] chain@[a],
            forall|a: int, b: int| 0 <= a < b < chain@.len() ==> s[#[trigger] chain@[b] as int] < s[#[trigger] chain@[a] as int],
            chain_back(s, len as nat, n as int) == chain_back(s, h[cur as int] as nat, cur as int)
                + Seq::new(chain@.len(), |k: int| chain@[chain@.len() - 1 - k] as int),
        decreases cur,
    {
        let p = parent[cur].unwrap();
        let ghost old_chain = chain@;
        proof {
            assert forall|a: int| 0 <= a < chain@.len() implies #[trigger] chain@[a] >= cur && s[chain@[a] as int] >= s[cur as int] by {
                if a < chain@.len() - 1 {
                    assert(chain@[chain@.len() - 1] < chain@[a]);
                }
            }
        }
        chain.push(p);
        proof {
            let lv = h[cur as int] as nat;
            assert(lv >= 1);
            assert(chain_back(s, lv, cur as int) == chain_back(s, (lv - 1) as nat, p as int).push(p as int));
            assert(h[p as int] == lv - 1);
            let r_old = Seq::new(old_chain.len(), |k: int| old_chain[old_chain.len() - 1 - k] as int);
            let r_new = Seq::new(chain@.len(), |k: int| chain@[chain@.len() - 1 - k] as int);
            assert(r_new =~= seq![p as int] + r_old);
            assert(chain_back(s, (lv - 1) as nat, p as int).push(p as int) + r_old
                =~= chain_back(s, (lv - 1) as nat, p as int) + (seq![p as int] + r_old));
        }
        cur = p;
    }
    let m = chain.len();
    assert(m == len);
    let mut result: Vec<u32> = Vec::with_capacity(m);
    let ghost order: Seq<int> = Seq::new(m as nat, |i: int| chain@[m - 1 - i] as int);
    proof {
        assert(h[cur as int] == 0);
        assert(chain_back(s, 0, cur as int) =~= Seq::<int>::empty());
        assert(chain_back(s, len as nat, n as int) =~= order);
        assert(is_increasing_subsequence(s, order)) by {
            assert forall|a: int, b: int| 0 <= a < b < order.len() implies #[trigger] order[a] < #[trigger] order[b] by {
                let a2 = m - 1 - b;
                let b2 = m - 1 - a;
                assert(0 <= a2 < b2 < chain@.len());
                assert(chain@[b2] < chain@[a2]);
            }
            assert forall|a: int, b: int| 0 <= a < b < order.len() implies s[#[trigger] order[a]] < s[#[trigger] order[b]] by {
                let a2 = m - 1 - b;
                let b2 = m - 1 - a;
                assert(0 <= a2 < b2 < chain@.len());
                assert(s[chain@[b2] as int] < s[chain@[a2] as int]);
            }
            assert forall|a: int| 0 <= a < order.len() implies 0 <= #[trigger] order[a] < s.len() by {
                assert(chain@[m - 1 - a] < n);
            }
        }
    }
    let mut i: usize = m;
    while i > 0
        invariant
            s == sequence@,
            i <= m,
            m == chain@.len(),
            order == Seq::new(m as nat, |k: int| chain@[m - 1 - k] as int),
            forall|a: int| 0 <= a < chain@.len() ==> #[trigger] chain@[a] < s.len(),
            result@.len() == m - i,
            forall|k: int| 0 <= k < m - i ==> #[trigger] result@[k] == s[order[k]],
            is_increasing_subsequence(s, order),
            piles_bound(s, s.len() as int, piles@),
            m == piles@.len(),
        decreases i,
    {
        result.push(sequence[chain[i - 1]]);
        i -= 1;
    }
    proof {
        assert(values_at(s, order, result@));
        assert forall|idx: Seq<int>| #[trigger] is_increasing_subsequence(s, idx) implies idx.len() <= result@.len() by {
            if idx.len() > 0 {
                assert(is_increasing_subsequence(s.take(n as int), idx));
            }
        }
        assert(result@ =~= order.map_values(|i: int| s[i]));
    }
    result
}

proof fn lemma_smaller_after_mono(s: Seq<u32>, i: int, j: int, k: int)
    requires
        j <= k,
    ensures
        smaller_after(s, i, j) <= smaller_after(s, i, k),
    decreases k - j,
{
    if j < k {
        lemma_smaller_after_mono(s, i, j, k - 1);
    }
}

} // verus!
