//! Core Young tableau data structure and partition operations.
use vstd::prelude::*;
use vstd::string::StringExecFns;

verus! {

// ---------------------------------------------------------------------------
// Mathematical model
// ---------------------------------------------------------------------------

/// Number of cells of a tableau given by its rows.
pub open spec fn cell_count(t: Seq<Seq<u32>>) -> nat
    decreases t.len(),
{
    if t.len() == 0 {
        0
    } else {
        cell_count(t.drop_last()) + t.last().len()
    }
}

/// Sum of a sequence of parts.
pub open spec fn parts_sum(s: Seq<usize>) -> nat
    decreases s.len(),
{
    if s.len() == 0 {
        0
    } else {
        parts_sum(s.drop_last()) + s.last() as nat
    }
}

/// The shape of a tableau: the sequence of its row lengths.
pub open spec fn shape_of(t: Seq<Seq<u32>>) -> Seq<usize> {
    t.map_values(|r: Seq<u32>| r.len() as usize)
}

/// `(r, c)` is a cell of the tableau.
pub open spec fn is_cell(t: Seq<Seq<u32>>, r: int, c: int) -> bool {
    0 <= r < t.len() && 0 <= c < t[r].len()
}

/// Every row is weakly increasing from left to right.
pub open spec fn rows_weakly_increasing(t: Seq<Seq<u32>>) -> bool {
    forall|r: int, i: int, j: int|
        0 <= r < t.len() && 0 <= i < j < t[r].len() ==> #[trigger] t[r][i] <= #[trigger] t[r][j]
}

/// Every row is strictly increasing from left to right.
pub open spec fn rows_strictly_increasing(t: Seq<Seq<u32>>) -> bool {
    forall|r: int, i: int, j: int|
        0 <= r < t.len() && 0 <= i < j < t[r].len() ==> #[trigger] t[r][i] < #[trigger] t[r][j]
}

/// Wherever a cell has a cell directly above it, its entry is strictly larger.
pub open spec fn columns_strictly_increasing(t: Seq<Seq<u32>>) -> bool {
    forall|r: int, s: int, c: int|
        0 <= r && s == r + 1 && s < t.len() && 0 <= c < t[r].len() && c < t[s].len() ==> #[trigger] t[r][c]
            < #[trigger] t[s][c]
}

/// Rows weakly increasing and columns strictly increasing.
pub open spec fn is_semistandard_spec(t: Seq<Seq<u32>>) -> bool {
    rows_weakly_increasing(t) && columns_strictly_increasing(t)
}

/// No two distinct cells hold the same entry.
pub open spec fn entries_distinct(t: Seq<Seq<u32>>) -> bool {
    forall|r1: int, c1: int, r2: int, c2: int|
        is_cell(t, r1, c1) && is_cell(t, r2, c2) && (r1 != r2 || c1 != c2) ==> #[trigger] t[r1][c1]
            != #[trigger] t[r2][c2]
}

/// Some cell holds the value `v`.
pub open spec fn holds_value(t: Seq<Seq<u32>>, v: int) -> bool {
    exists|r: int, c: int| is_cell(t, r, c) && #[trigger] t[r][c] == v
}

/// Rows and columns strictly increasing, and the entries are exactly `1..=n`,
/// each once, where `n` is the number of cells.
pub open spec fn is_standard_spec(t: Seq<Seq<u32>>) -> bool {
    &&& rows_strictly_increasing(t)
    &&& columns_strictly_increasing(t)
    &&& forall|r: int, c: int| is_cell(t, r, c) ==> 1 <= #[trigger] t[r][c] <= cell_count(t)
    &&& entries_distinct(t)
    &&& forall|v: int| 1 <= v <= cell_count(t) ==> holds_value(t, v)
}

/// Row lengths weakly decrease from top to bottom.
pub open spec fn is_partition_shape(t: Seq<Seq<u32>>) -> bool {
    forall|i: int, j: int| 0 <= i < j < t.len() ==> #[trigger] t[j].len() <= #[trigger] t[i].len()
}

/// Parts weakly decrease.
pub open spec fn weakly_decreasing(s: Seq<usize>) -> bool {
    forall|i: int, j: int| 0 <= i < j < s.len() ==> #[trigger] s[j] <= #[trigger] s[i]
}

/// Number of parts strictly greater than `j`.
pub open spec fn count_greater(s: Seq<usize>, j: int) -> nat
    decreases s.len(),
{
    if s.len() == 0 {
        0
    } else {
        count_greater(s.drop_last(), j) + if s.last() > j {
            1nat
        } else {
            0nat
        }
    }
}

/// The conjugate of `s` truncated (or padded) to `width` parts: part `j`
/// counts the parts of `s` greater than `j`.
pub open spec fn conjugate_with_width(s: Seq<usize>, width: nat) -> Seq<usize> {
    Seq::new(width, |j: int| count_greater(s, j) as usize)
}

/// The conjugate of a shape, with as many parts as its first part.
pub open spec fn conjugate_partition_spec(shape: Seq<usize>) -> Seq<usize> {
    if shape.len() == 0 {
        Seq::empty()
    } else {
        conjugate_with_width(shape, shape[0] as nat)
    }
}

/// Largest part, 0 for no parts.
pub open spec fn max_part(s: Seq<usize>) -> nat
    decreases s.len(),
{
    if s.len() == 0 {
        0
    } else if max_part(s.drop_last()) >= s.last() {
        max_part(s.drop_last())
    } else {
        s.last() as nat
    }
}

/// Sum of the first `k` parts, parts beyond the end counting as 0.
pub open spec fn prefix_sum(s: Seq<usize>, k: int) -> nat {
    if k < s.len() {
        parts_sum(s.take(k))
    } else {
        parts_sum(s)
    }
}

/// `a` dominates `b`: every prefix sum of `a` is at least that of `b`, up to
/// the longer of the two lengths.
pub open spec fn dominates_spec(a: Seq<usize>, b: Seq<usize>) -> bool {
    let m = if a.len() >= b.len() {
        a.len()
    } else {
        b.len()
    };
    forall|k: int| 1 <= k <= m ==> prefix_sum(a, k) >= prefix_sum(b, k)
}

/// The character of a decimal digit.
pub open spec fn digit_char(d: int) -> char {
    if d == 0 {
        '0'
    } else if d == 1 {
        '1'
    } else if d == 2 {
        '2'
    } else if d == 3 {
        '3'
    } else if d == 4 {
        '4'
    } else if d == 5 {
        '5'
    } else if d == 6 {
        '6'
    } else if d == 7 {
        '7'
    } else if d == 8 {
        '8'
    } else {
        '9'
    }
}

/// Decimal digits of `v`, most significant first.
pub open spec fn decimal(v: nat) -> Seq<char>
    decreases v,
{
    if v < 10 {
        seq![digit_char(v as int)]
    } else {
        decimal(v / 10).push(digit_char((v % 10) as int))
    }
}

/// `v` in decimal, right-aligned in a field of width 3.
pub open spec fn padded_cell(v: u32) -> Seq<char> {
    let d = decimal(v as nat);
    if d.len() < 3 {
        Seq::new((3 - d.len()) as nat, |i: int| ' ') + d
    } else {
        d
    }
}

/// A row as text: its cells, padded, separated by single spaces.
pub open spec fn row_text(row: Seq<u32>) -> Seq<char>
    decreases row.len(),
{
    if row.len() == 0 {
        Seq::empty()
    } else if row.len() == 1 {
        padded_cell(row[0])
    } else {
        row_text(row.drop_last()) + seq![' '] + padded_cell(row.last())
    }
}

/// A tableau as text: its rows, one per line.
pub open spec fn tableau_text(t: Seq<Seq<u32>>) -> Seq<char>
    decreases t.len(),
{
    if t.len() == 0 {
        Seq::empty()
    } else if t.len() == 1 {
        row_text(t[0])
    } else {
        tableau_text(t.drop_last()) + seq!['\n'] + row_text(t.last())
    }
}

// ---------------------------------------------------------------------------
// Lemmas
// ---------------------------------------------------------------------------

pub proof fn lemma_count_greater_bound(s: Seq<usize>, j: int)
    ensures
        count_greater(s, j) <= s.len(),
    decreases s.len(),
{
    if s.len() > 0 {
        lemma_count_greater_bound(s.drop_last(), j);
    }
}

/// In a weakly decreasing sequence the parts greater than `j` come first:
/// position `i` is among them exactly when it is below their number.
pub proof fn lemma_count_greater_prefix(s: Seq<usize>, j: int)
    requires
        weakly_decreasing(s),
    ensures
        count_greater(s, j) <= s.len(),
        forall|i: int| 0 <= i < s.len() ==> (i < count_greater(s, j) <==> #[trigger] s[i] > j),
    decreases s.len(),
{
    lemma_count_greater_bound(s, j);
    if s.len() > 0 {
        let d = s.drop_last();
        assert(weakly_decreasing(d)) by {
            assert forall|a: int, b: int| 0 <= a < b < d.len() implies #[trigger] d[b] <= #[trigger] d[a] by {
                assert(s[b] <= s[a]);
            }
        }
        lemma_count_greater_prefix(d, j);
        lemma_count_greater_bound(d, j);
        let n = s.len() - 1;
        assert forall|i: int| 0 <= i < s.len() implies (i < count_greater(s, j) <==> #[trigger] s[i] > j) by {
            if i < n {
                assert(s[i] == d[i]);
                if s.last() > j {
                    assert(s[i] >= s[n]);
                    if !(i < count_greater(d, j)) {
                        assert(d[i] <= j);
                    }
                }
            } else {
                if s.last() <= j {
                    assert(count_greater(d, j) <= n);
                } else {
                    if count_greater(d, j) < n {
                        let m = count_greater(d, j) as int;
                        assert(d[m] <= j);
                        assert(s[n] <= s[m]);
                    }
                }
            }
        }
    }
}

/// Sum of `count_greater(s, j)` over `j < w`: the cells of `s` in its first `w` columns.
spec fn column_cells(s: Seq<usize>, w: int) -> nat
    decreases w,
{
    if w <= 0 {
        0
    } else {
        column_cells(s, w - 1) + count_greater(s, w - 1)
    }
}

/// Number of `j < w` below `v`.
spec fn below_count(v: int, w: int) -> nat
    decreases w,
{
    if w <= 0 {
        0
    } else {
        below_count(v, w - 1) + if v > w - 1 { 1nat } else { 0nat }
    }
}

proof fn lemma_below_count(v: int, w: int)
    requires
        0 <= v,
        0 <= w,
    ensures
        below_count(v, w) == if v <= w { v } else { w },
    decreases w,
{
    if w > 0 {
        lemma_below_count(v, w - 1);
    }
}

proof fn lemma_column_cells_last(s: Seq<usize>, w: int)
    requires
        s.len() > 0,
    ensures
        column_cells(s, w) == column_cells(s.drop_last(), w) + below_count(s.last() as int, w),
    decreases w,
{
    if w > 0 {
        lemma_column_cells_last(s, w - 1);
    }
}

proof fn lemma_column_cells_sum(s: Seq<usize>, w: int)
    requires
        0 <= w,
        forall|i: int| 0 <= i < s.len() ==> #[trigger] s[i] <= w,
    ensures
        column_cells(s, w) == parts_sum(s),
    decreases s.len(),
{
    if s.len() > 0 {
        let d = s.drop_last();
        assert forall|i: int| 0 <= i < d.len() implies #[trigger] d[i] <= w by {
            assert(d[i] == s[i]);
        }
        lemma_column_cells_sum(d, w);
        lemma_column_cells_last(s, w);
        lemma_below_count(s.last() as int, w);
    } else {
        lemma_column_cells_empty(s, w);
    }
}

proof fn lemma_column_cells_empty(s: Seq<usize>, w: int)
    requires
        s.len() == 0,
    ensures
        column_cells(s, w) == 0,
    decreases w,
{
    if w > 0 {
        lemma_column_cells_empty(s, w - 1);
    }
}

proof fn lemma_conjugate_with_width_sum(s: Seq<usize>, w: nat)
    requires
        s.len() <= usize::MAX,
    ensures
        parts_sum(conjugate_with_width(s, w)) == column_cells(s, w as int),
    decreases w,
{
    if w > 0 {
        let c = conjugate_with_width(s, w);
        assert(c.drop_last() =~= conjugate_with_width(s, (w - 1) as nat));
        lemma_conjugate_with_width_sum(s, (w - 1) as nat);
        lemma_count_greater_bound(s, w - 1);
    }
}

/// A partition and its transpose have the same number of cells.
pub proof fn lemma_conjugate_same_sum(s: Seq<usize>)
    requires
        weakly_decreasing(s),
        s.len() <= usize::MAX,
    ensures
        parts_sum(conjugate_partition_spec(s)) == parts_sum(s),
{
    if s.len() > 0 {
        assert forall|i: int| 0 <= i < s.len() implies #[trigger] s[i] <= s[0] as int by {
            if i > 0 {
                assert(s[i] <= s[0]);
            }
        }
        lemma_conjugate_with_width_sum(s, s[0] as nat);
        lemma_column_cells_sum(s, s[0] as int);
    } else {
        assert(conjugate_partition_spec(s) =~= Seq::<usize>::empty());
    }
}

/// Transposing a partition twice gives it back, and its transpose is again a
/// partition with positive parts.
pub proof fn lemma_conjugate_involution(s: Seq<usize>)
    requires
        weakly_decreasing(s),
        forall|i: int| 0 <= i < s.len() ==> #[trigger] s[i] >= 1,
        s.len() <= usize::MAX,
    ensures
        weakly_decreasing(conjugate_partition_spec(s)),
        forall|i: int| 0 <= i < conjugate_partition_spec(s).len() ==> #[trigger] conjugate_partition_spec(s)[i] >= 1,
        conjugate_partition_spec(conjugate_partition_spec(s)) == s,
{
    let c = conjugate_partition_spec(s);
    if s.len() > 0 {
        let w = s[0] as int;
        assert forall|j: int| 0 <= j < w implies (#[trigger] c[j]) == count_greater(s, j) by {
            lemma_count_greater_bound(s, j);
        }
        assert forall|j: int| 0 <= j < w implies #[trigger] c[j] >= 1 by {
            lemma_count_greater_prefix(s, j);
            assert(s[0] > j);
        }
        assert(weakly_decreasing(c)) by {
            assert forall|a: int, b: int| 0 <= a < b < c.len() implies #[trigger] c[b] <= #[trigger] c[a] by {
                lemma_count_greater_prefix(s, a);
                lemma_count_greater_prefix(s, b);
                let m = count_greater(s, b) as int;
                if m > 0 {
                    assert(s[m - 1] > b);
                    assert(s[m - 1] > a);
                }
                if count_greater(s, a) < m {
                    let q = count_greater(s, a) as int;
                    assert(s[q] > b);
                }
            }
        }
        // the transpose has as many parts as `s`
        lemma_count_greater_prefix(s, 0);
        assert(c[0] == count_greater(s, 0));
        assert(count_greater(s, 0) == s.len()) by {
            if count_greater(s, 0) < s.len() {
                let q = count_greater(s, 0) as int;
                assert(s[q] >= 1);
            }
        }
        let cc = conjugate_partition_spec(c);
        assert(cc.len() == s.len());
        assert forall|i: int| 0 <= i < s.len() implies #[trigger] cc[i] == s[i] by {
            lemma_count_greater_prefix(c, i);
            lemma_count_greater_bound(c, i);
            let m = count_greater(c, i) as int;
            // position j of c exceeds i exactly when j < s[i]
            assert forall|j: int| 0 <= j < c.len() implies (#[trigger] c[j] > i <==> j < s[i]) by {
                lemma_count_greater_prefix(s, j);
                if j < s[i] {
                    assert(s[i] > j);
                } else {
                    assert(!(s[i] > j));
                }
            }
            assert(s[i] <= s[0]);
            if m < s[i] {
                assert(c[m] > i);
            }
            if m > s[i] {
                assert(c[s[i] as int] > i);
            }
        }
        assert(cc =~= s);
    } else {
        assert(c =~= Seq::<usize>::empty());
        assert(conjugate_partition_spec(c) =~= s);
    }
}

pub proof fn lemma_count_greater_take(s: Seq<usize>, i: int, j: int)
    requires
        0 <= i < s.len(),
    ensures
        count_greater(s.take(i + 1), j) == count_greater(s.take(i), j) + if s[i] > j {
            1nat
        } else {
            0nat
        },
{
    assert(s.take(i + 1).drop_last() =~= s.take(i));
}

pub proof fn lemma_parts_sum_take(s: Seq<usize>, i: int)
    requires
        0 <= i < s.len(),
    ensures
        parts_sum(s.take(i + 1)) == parts_sum(s.take(i)) + s[i],
{
    assert(s.take(i + 1).drop_last() =~= s.take(i));
}

pub proof fn lemma_parts_sum_prefix_bound(s: Seq<usize>, i: int)
    requires
        0 <= i <= s.len(),
    ensures
        parts_sum(s.take(i)) <= parts_sum(s),
    decreases s.len() - i,
{
    if i == s.len() {
        assert(s.take(i) =~= s);
    } else {
        lemma_parts_sum_take(s, i);
        lemma_parts_sum_prefix_bound(s, i + 1);
    }
}

pub proof fn lemma_cell_count_take(t: Seq<Seq<u32>>, i: int)
    requires
        0 <= i < t.len(),
    ensures
        cell_count(t.take(i + 1)) == cell_count(t.take(i)) + t[i].len(),
{
    assert(t.take(i + 1).drop_last() =~= t.take(i));
}

pub proof fn lemma_cell_count_prefix_bound(t: Seq<Seq<u32>>, i: int)
    requires
        0 <= i <= t.len(),
    ensures
        cell_count(t.take(i)) <= cell_count(t),
    decreases t.len() - i,
{
    if i == t.len() {
        assert(t.take(i) =~= t);
    } else {
        lemma_cell_count_take(t, i);
        lemma_cell_count_prefix_bound(t, i + 1);
    }
}

/// The sum of the row lengths is the number of cells.
pub proof fn lemma_shape_sum(t: Seq<Seq<u32>>)
    requires
        cell_count(t) <= usize::MAX,
    ensures
        parts_sum(shape_of(t)) == cell_count(t),
    decreases t.len(),
{
    if t.len() > 0 {
        lemma_shape_sum(t.drop_last());
        assert(shape_of(t).drop_last() =~= shape_of(t.drop_last()));
    }
}

pub proof fn lemma_max_part_take(s: Seq<usize>, i: int)
    requires
        0 <= i < s.len(),
    ensures
        max_part(s.take(i + 1)) == if max_part(s.take(i)) >= s[i] {
            max_part(s.take(i))
        } else {
            s[i] as nat
        },
{
    assert(s.take(i + 1).drop_last() =~= s.take(i));
}

pub proof fn lemma_max_part_bounds(s: Seq<usize>)
    ensures
        forall|i: int| 0 <= i < s.len() ==> s[i] <= max_part(s),
        s.len() > 0 ==> exists|i: int| 0 <= i < s.len() && s[i] == max_part(s),
        max_part(s) <= usize::MAX,
    decreases s.len(),
{
    if s.len() > 0 {
        lemma_max_part_bounds(s.drop_last());
        assert forall|i: int| 0 <= i < s.len() implies s[i] <= max_part(s) by {
            if i < s.len() - 1 {
                assert(s[i] == s.drop_last()[i]);
            }
        }
        if max_part(s.drop_last()) >= s.last() && s.len() > 1 {
            let i = choose|i: int| 0 <= i < s.len() - 1 && s.drop_last()[i] == max_part(s.drop_last());
            assert(s[i] == max_part(s));
        } else {
            assert(s[s.len() - 1] == max_part(s));
        }
    }
}

pub proof fn lemma_prefix_sum_step(s: Seq<usize>, i: int)
    requires
        0 <= i,
    ensures
        prefix_sum(s, i + 1) == prefix_sum(s, i) + if i < s.len() {
            s[i] as nat
        } else {
            0nat
        },
        prefix_sum(s, i + 1) <= parts_sum(s),
{
    if i < s.len() {
        lemma_parts_sum_take(s, i);
        if i + 1 == s.len() {
            assert(s.take(i + 1) =~= s);
        }
        lemma_parts_sum_prefix_bound(s, i + 1);
    }
}

/// The conjugate counts of `parts` for the first `width` columns: entry `j`
/// counts the parts greater than `j`.
pub fn conjugate_counts(parts: &[usize], width: usize) -> (conj: Vec<usize>)
    ensures
        conj@ == conjugate_with_width(parts@, width as nat),
{
    let mut conj: Vec<usize> = vec![0; width];
    assert(conj@ =~= conjugate_with_width(parts@.take(0), width as nat));
    let n = parts.len();
    let mut i: usize = 0;
    while i < n
        invariant
            n == parts@.len(),
            i <= parts@.len(),
            conj@ =~= conjugate_with_width(parts@.take(i as int), width as nat),
        decreases parts@.len() - i,
    {
        let p = parts[i];
        assert forall|k: int| 0 <= k < width implies #[trigger] conj@[k] == count_greater(parts@.take(i as int), k) by {
            lemma_count_greater_bound(parts@.take(i as int), k);
        }
        let mut j: usize = 0;
        while j < width
            invariant
                i < parts@.len(),
                n == parts@.len(),
                p == parts@[i as int],
                j <= width,
                conj@.len() == width,
                forall|k: int| 0 <= k < j ==> #[trigger] conj@[k] == count_greater(parts@.take(i + 1), k),
                forall|k: int| j <= k < width ==> #[trigger] conj@[k] == count_greater(parts@.take(i as int), k),
            decreases width - j,
        {
            proof {
                lemma_count_greater_take(parts@, i as int, j as int);
                lemma_count_greater_bound(parts@.take(i as int), j as int);
            }
            if j < p {
                conj.set(j, conj[j] + 1);
            }
            j += 1;
        }
        assert forall|k: int| 0 <= k < width implies #[trigger] conj@[k] == conjugate_with_width(parts@.take(i + 1), width as nat)[k] by {
            lemma_count_greater_bound(parts@.take(i + 1), k);
        }
        i += 1;
    }
    assert(parts@.take(i as int) =~= parts@);
    conj
}

// ---------------------------------------------------------------------------
// Young tableaux
// ---------------------------------------------------------------------------

/// A Young tableau (or semistandard tableau) represented as a list of rows.
///
/// Each row is a non-decreasing sequence of positive integers,
/// and row lengths are weakly decreasing (forming a partition shape).
#[derive(Debug, Clone, PartialEq, Eq)]
pub struct YoungTableau {
    /// Rows of the tableau, top to bottom.
    pub rows: Vec<Vec<u32>>,
}

impl View for YoungTableau {
    type V = Seq<Seq<u32>>;

    open spec fn view(&self) -> Seq<Seq<u32>> {
        self.rows@.map_values(|r: Vec<u32>| r@)
    }
}

/// The rows of a vector of vectors as sequences.
pub open spec fn rows_view(rows: Seq<Vec<u32>>) -> Seq<Seq<u32>> {
    rows.map_values(|r: Vec<u32>| r@)
}

/// Whether a row is (strictly, if `strict`) increasing, checked on adjacent entries.
fn row_is_sorted(row: &Vec<u32>, strict: bool) -> (b: bool)
    ensures
        b == if strict {
            forall|a: int, c: int| 0 <= a < c < row@.len() ==> #[trigger] row@[a] < #[trigger] row@[c]
        } else {
            forall|a: int, c: int| 0 <= a < c < row@.len() ==> #[trigger] row@[a] <= #[trigger] row@[c]
        },
{
    let mut j: usize = 1;
    while j < row.len()
        invariant
            j >= 1,
            strict ==> forall|a: int, c: int| 0 <= a < c < j && c < row@.len() ==> #[trigger] row@[a] < #[trigger] row@[c],
            !strict ==> forall|a: int, c: int| 0 <= a < c < j && c < row@.len() ==> #[trigger] row@[a] <= #[trigger] row@[c],
        decreases row@.len() - j,
    {
        if (strict && row[j - 1] >= row[j]) || (!strict && row[j - 1] > row[j]) {
            assert(row@[j - 1] == row@[j - 1]);
            return false;
        }
        proof {
            assert forall|a: int| 0 <= a < j implies (strict ==> #[trigger] row@[a] < row@[j as int]) && (!strict ==> row@[a] <= row@[j as int]) by {
                if a < j - 1 {
                    assert(row@[a] == row@[a] && row@[j - 1] == row@[j - 1]);
                }
            }
        }
        j += 1;
    }
    true
}

/// The one-character text of a decimal digit.
fn digit_text(d: u32) -> (s: &'static str)
    requires
        d < 10,
    ensures
        s@ == seq![digit_char(d as int)],
{
    proof {
        reveal_strlit("0");
        reveal_strlit("1");
        reveal_strlit("2");
        reveal_strlit("3");
        reveal_strlit("4");
        reveal_strlit("5");
        reveal_strlit("6");
        reveal_strlit("7");
        reveal_strlit("8");
        reveal_strlit("9");
    }
    let s = if d == 0 {
        "0"
    } else if d == 1 {
        "1"
    } else if d == 2 {
        "2"
    } else if d == 3 {
        "3"
    } else if d == 4 {
        "4"
    } else if d == 5 {
        "5"
    } else if d == 6 {
        "6"
    } else if d == 7 {
        "7"
    } else if d == 8 {
        "8"
    } else {
        "9"
    };
    assert(s@ =~= seq![digit_char(d as int)]);
    s
}

/// Appends `v` in decimal, right-aligned in a field of width 3.
fn push_cell(out: &mut String, v: u32)
    ensures
        final(out)@ == old(out)@ + padded_cell(v),
{
    // digits from the least significant one
    let mut low: Vec<u32> = Vec::new();
    let mut x: u32 = v;
    while x >= 10
        invariant
            decimal(v as nat) == decimal(x as nat) + Seq::new(low@.len(), |i: int| digit_char(low@[low@.len() - 1 - i] as int)),
            forall|i: int| 0 <= i < low@.len() ==> #[trigger] low@[i] < 10,
        decreases x,
    {
        let ghost before = low@;
        assert(decimal(x as nat) == decimal((x / 10) as nat).push(digit_char((x % 10) as int)));
        low.push(x % 10);
        assert(Seq::new(low@.len(), |i: int| digit_char(low@[low@.len() - 1 - i] as int)) =~= seq![digit_char((x % 10) as int)] + Seq::new(before.len(), |i: int| digit_char(before[before.len() - 1 - i] as int)));
        assert(decimal((x / 10) as nat).push(digit_char((x % 10) as int)) + Seq::new(before.len(), |i: int| digit_char(before[before.len() - 1 - i] as int))
            =~= decimal((x / 10) as nat) + Seq::new(low@.len(), |i: int| digit_char(low@[low@.len() - 1 - i] as int)));
        x = x / 10;
    }
    assert(decimal(x as nat) == seq![digit_char(x as int)]);
    let ghost d = decimal(v as nat);
    let ghost tail = Seq::new(low@.len(), |i: int| digit_char(low@[low@.len() - 1 - i] as int));
    assert(d.len() == 1 + low@.len());
    let ghost out0 = out@;
    let spaces: usize = if low.len() >= 2 { 0 } else { 2 - low.len() };
    proof {
        reveal_strlit(" ");
    }
    let mut k: usize = 0;
    while k < spaces
        invariant
            k <= spaces,
            out@ == out0 + Seq::new(k as nat, |i: int| ' '),
        decreases spaces - k,
    {
        out.append(" ");
        proof {
            reveal_strlit(" ");
        }
        assert(" "@ =~= seq![' ']);
        assert(out0 + Seq::new(k as nat, |i: int| ' ') + seq![' '] =~= out0 + Seq::new((k + 1) as nat, |i: int| ' '));
        k += 1;
    }
    let ghost out1 = out@;
    out.append(digit_text(x));
    let mut i: usize = low.len();
    while i > 0
        invariant
            i <= low@.len(),
            forall|k: int| 0 <= k < low@.len() ==> #[trigger] low@[k] < 10,
            tail == Seq::new(low@.len(), |j: int| digit_char(low@[low@.len() - 1 - j] as int)),
            out@ == out1 + seq![digit_char(x as int)] + tail.take(low@.len() - i),
        decreases i,
    {
        out.append(digit_text(low[i - 1]));
        assert(tail.take(low@.len() - i) + seq![digit_char(low@[i - 1] as int)] =~= tail.take(low@.len() - (i - 1)));
        i -= 1;
    }
    assert(tail.take(low@.len() as int) =~= tail);
    assert(d =~= seq![digit_char(x as int)] + tail);
    proof {
        if d.len() < 3 {
            assert(Seq::new(spaces as nat, |i: int| ' ') =~= Seq::new((3 - d.len()) as nat, |i: int| ' '));
        }
    }
    assert(out@ =~= out0 + padded_cell(v));
}

/// Appends a row as text.
fn push_row(out: &mut String, row: &Vec<u32>)
    ensures
        final(out)@ == old(out)@ + row_text(row@),
{
    proof {
        reveal_strlit(" ");
    }
    let ghost out0 = out@;
    let mut j: usize = 0;
    while j < row.len()
        invariant
            j <= row@.len(),
            out@ == out0 + row_text(row@.take(j as int)),
        decreases row@.len() - j,
    {
        assert(row@.take(j + 1).drop_last() =~= row@.take(j as int));
        assert(row@.take(j + 1).last() == row@[j as int]);
        proof {
            reveal_strlit(" ");
        }
        assert(" "@ =~= seq![' ']);
        if j > 0 {
            out.append(" ");
        }
        push_cell(out, row[j]);
        proof {
            if j == 0 {
                assert(row_text(row@.take(0)) =~= Seq::<char>::empty());
                assert(out0 + Seq::<char>::empty() =~= out0);
            }
        }
        assert(out@ =~= out0 + row_text(row@.take(j + 1)));
        j += 1;
    }
    assert(row@.take(j as int) =~= row@);
}

/// Largest row length.
fn max_row_len(rows: &Vec<Vec<u32>>) -> (m: usize)
    ensures
        m == max_part(shape_of(rows_view(rows@))),
        forall|r: int| 0 <= r < rows@.len() ==> rows@[r]@.len() <= m,
{
    let ghost s = shape_of(rows_view(rows@));
    let mut m: usize = 0;
    let mut i: usize = 0;
    while i < rows.len()
        invariant
            i <= rows@.len(),
            s == shape_of(rows_view(rows@)),
            m == max_part(s.take(i as int)),
            forall|r: int| 0 <= r < i ==> rows@[r]@.len() <= m,
        decreases rows@.len() - i,
    {
        proof {
            lemma_max_part_take(s, i as int);
        }
        let len = rows[i].len();
        assert(rows_view(rows@)[i as int] == rows@[i as int]@);
        assert(s[i as int] == len);
        if len > m {
            m = len;
        }
        i += 1;
    }
    assert(s.take(i as int) =~= s);
    m
}

/// Whether the columns are strictly increasing wherever a cell has a cell above it.
fn columns_strict_check(rows: &Vec<Vec<u32>>) -> (b: bool)
    ensures
        b == columns_strictly_increasing(rows_view(rows@)),
{
    let ghost t = rows_view(rows@);
    let max_cols = max_row_len(rows);
    let mut col: usize = 0;
    while col < max_cols
        invariant
            t == rows_view(rows@),
            forall|r: int| 0 <= r < rows@.len() ==> rows@[r]@.len() <= max_cols,
            col <= max_cols,
            forall|r: int, s: int, c: int|
                0 <= r && s == r + 1 && s < t.len() && 0 <= c < t[r].len() && c < t[s].len() && c < col ==> #[trigger] t[r][c]
                    < #[trigger] t[s][c],
        decreases max_cols - col,
    {
        let mut row: usize = 1;
        while row < rows.len()
            invariant
                t == rows_view(rows@),
                col < max_cols,
                row >= 1,
                forall|r: int, s: int, c: int|
                    0 <= r && s == r + 1 && s < t.len() && 0 <= c < t[r].len() && c < t[s].len() && (c < col || (c == col && s < row)) ==> #[trigger] t[r][c]
                        < #[trigger] t[s][c],
            decreases rows@.len() - row,
        {
            assert(t[row as int] == rows@[row as int]@);
            assert(t[row - 1] == rows@[row - 1]@);
            if col < rows[row].len() && col < rows[row - 1].len() && rows[row][col] <= rows[row - 1][col] {
                return false;
            }
            row += 1;
        }
        col += 1;
    }
    proof {
        assert forall|r: int, s: int, c: int|
            0 <= r && s == r + 1 && s < t.len() && 0 <= c < t[r].len() && c < t[s].len() implies #[trigger] t[r][c]
                < #[trigger] t[s][c] by {
            assert(t[s] == rows@[s]@);
        }
    }
    true
}

impl YoungTableau {
    /// Create an empty Young tableau.
    pub fn empty() -> (t: Self)
        ensures
            t@ == Seq::<Seq<u32>>::empty(),
    {
        let t = YoungTableau { rows: Vec::new() };
        assert(t@ =~= Seq::<Seq<u32>>::empty());
        t
    }

    /// Create a Young tableau from a shape (partition) filled with zeros.
    pub fn from_shape(shape: &[usize]) -> (t: Self)
        ensures
            t@.len() == shape@.len(),
            forall|i: int| 0 <= i < shape@.len() ==> #[trigger] t@[i] == Seq::new(shape@[i] as nat, |j: int| 0u32),
    {
        let mut rows: Vec<Vec<u32>> = Vec::new();
        let mut i: usize = 0;
        while i < shape.len()
            invariant
                i <= shape@.len(),
                rows@.len() == i,
                forall|k: int| 0 <= k < i ==> #[trigger] rows@[k]@ == Seq::new(shape@[k] as nat, |j: int| 0u32),
            decreases shape@.len() - i,
        {
            let row: Vec<u32> = vec![0; shape[i]];
            assert(row@ =~= Seq::new(shape@[i as int] as nat, |j: int| 0u32));
            rows.push(row);
            i += 1;
        }
        let t = YoungTableau { rows };
        assert forall|k: int| 0 <= k < shape@.len() implies #[trigger] t@[k] == Seq::new(shape@[k] as nat, |j: int| 0u32) by {
            assert(t@[k] == t.rows@[k]@);
        }
        t
    }

    /// Create a Young tableau from existing rows (no validation).
    pub fn from_rows(rows: Vec<Vec<u32>>) -> (t: Self)
        ensures
            t.rows@ == rows@,
            t@ == rows_view(rows@),
    {
        YoungTableau { rows }
    }

    /// The shape (partition) of the tableau as a vector of row lengths.
    pub fn shape(&self) -> (s: Vec<usize>)
        ensures
            s@ == shape_of(self@),
    {
        let mut s: Vec<usize> = Vec::new();
        let mut i: usize = 0;
        while i < self.rows.len()
            invariant
                i <= self@.len(),
                s@ =~= shape_of(self@).take(i as int),
            decreases self@.len() - i,
        {
            assert(self.rows@[i as int]@ == self@[i as int]);
            s.push(self.rows[i].len());
            i += 1;
        }
        assert(shape_of(self@).take(i as int) =~= shape_of(self@));
        s
    }

    /// Total number of cells in the tableau.
    pub fn size(&self) -> (n: usize)
        requires
            cell_count(self@) <= usize::MAX,
        ensures
            n == cell_count(self@),
    {
        let mut n: usize = 0;
        let mut i: usize = 0;
        while i < self.rows.len()
            invariant
                i <= self@.len(),
                n == cell_count(self@.take(i as int)),
                cell_count(self@) <= usize::MAX,
            decreases self@.len() - i,
        {
            proof {
                lemma_cell_count_take(self@, i as int);
                lemma_cell_count_prefix_bound(self@, i + 1);
            }
            assert(self.rows@[i as int]@ == self@[i as int]);
            n = n + self.rows[i].len();
            i += 1;
        }
        assert(self@.take(i as int) =~= self@);
        n
    }

    /// Number of rows.
    pub fn num_rows(&self) -> (n: usize)
        ensures
            n == self@.len(),
    {
        self.rows.len()
    }

    /// Get the cell value at (row, col). Returns `None` if out of bounds.
    pub fn get(&self, row: usize, col: usize) -> (v: Option<u32>)
        ensures
            v == if is_cell(self@, row as int, col as int) {
                Some(self@[row as int][col as int])
            } else {
                None::<u32>
            },
    {
        if row < self.rows.len() {
            assert(self.rows@[row as int]@ == self@[row as int]);
            if col < self.rows[row].len() {
                return Some(self.rows[row][col]);
            }
        }
        None
    }

    /// Check if the tableau satisfies the semistandard conditions:
    /// rows are weakly increasing and columns are strictly increasing.
    pub fn is_semistandard(&self) -> (b: bool)
        ensures
            b == is_semistandard_spec(self@),
    {
        let mut i: usize = 0;
        while i < self.rows.len()
            invariant
                i <= self@.len(),
                forall|r: int, a: int, b: int|
                    0 <= r < i && 0 <= a < b < self@[r].len() ==> #[trigger] self@[r][a]
                        <= #[trigger] self@[r][b],
            decreases self@.len() - i,
        {
            assert(self.rows@[i as int]@ == self@[i as int]);
            if !row_is_sorted(&self.rows[i], false) {
                return false;
            }
            i += 1;
        }
        columns_strict_check(&self.rows)
    }

    /// Check if the tableau is standard (strictly increasing along both rows and columns,
    /// containing the numbers 1..=n exactly once).
    pub fn is_standard(&self) -> (b: bool)
        requires
            cell_count(self@) < usize::MAX,
        ensures
            b == is_standard_spec(self@),
    {
        let n = self.size();
        let ghost t = self@;
        let mut seen: Vec<bool> = vec![false; n + 1];
        let mut i: usize = 0;
        while i < self.rows.len()
            invariant
                t == self@,
                n == cell_count(t),
                i <= t.len(),
                seen@.len() == n + 1,
                forall|r: int, a: int, b: int|
                    0 <= r < i && 0 <= a < b < t[r].len() ==> #[trigger] t[r][a] < #[trigger] t[r][b],
                forall|r: int, c: int| is_cell(t, r, c) && r < i ==> 1 <= #[trigger] t[r][c] <= n,
                forall|r1: int, c1: int, r2: int, c2: int|
                    is_cell(t, r1, c1) && is_cell(t, r2, c2) && r1 < i && r2 < i && (r1 != r2 || c1
                        != c2) ==> #[trigger] t[r1][c1] != #[trigger] t[r2][c2],
                forall|v: int|
                    0 <= v <= n ==> (#[trigger] seen@[v] <==> exists|r: int, c: int|
                        is_cell(t, r, c) && r < i && #[trigger] t[r][c] == v),
            decreases t.len() - i,
        {
            let row = &self.rows[i];
            assert(row@ == t[i as int]);
            if !row_is_sorted(row, true) {
                return false;
            }
            let mut k: usize = 0;
            while k < row.len()
                invariant
                    t == self@,
                    n == cell_count(t),
                    i < t.len(),
                    row@ == t[i as int],
                    k <= row@.len(),
                    seen@.len() == n + 1,
                    forall|r: int, a: int, b: int|
                        0 <= r <= i && 0 <= a < b < t[r].len() ==> #[trigger] t[r][a] < #[trigger] t[r][b],
                    forall|r: int, c: int|
                        is_cell(t, r, c) && (r < i || (r == i && c < k)) ==> 1 <= #[trigger] t[r][c] <= n,
                    forall|r1: int, c1: int, r2: int, c2: int|
                        is_cell(t, r1, c1) && is_cell(t, r2, c2) && (r1 < i || (r1 == i && c1 < k)) && (
                        r2 < i || (r2 == i && c2 < k)) && (r1 != r2 || c1 != c2) ==> #[trigger] t[r1][c1]
                            != #[trigger] t[r2][c2],
                    forall|v: int|
                        0 <= v <= n ==> (#[trigger] seen@[v] <==> exists|r: int, c: int|
                            is_cell(t, r, c) && (r < i || (r == i && c < k)) && #[trigger] t[r][c] == v),
                decreases row@.len() - k,
            {
                let v = row[k];
                if v == 0 || v as usize > n {
                    return false;
                }
                if seen[v as usize] {
                    proof {
                        let (r, c) = choose|r: int, c: int|
                            is_cell(t, r, c) && (r < i || (r == i && c < k)) && #[trigger] t[r][c] == v;
                        assert(t[r][c] == t[i as int][k as int]);
                        assert(is_cell(t, i as int, k as int));
                    }
                    return false;
                }
                seen.set(v as usize, true);
                proof {
                    assert(t[i as int][k as int] == v);
                    assert forall|w: int| 0 <= w <= n implies (#[trigger] seen@[w] <==> exists|r: int, c: int|
                        is_cell(t, r, c) && (r < i || (r == i && c < k + 1)) && #[trigger] t[r][c] == w) by {
                        if w == v {
                            assert(is_cell(t, i as int, k as int));
                        } else if seen@[w] {
                            let (r, c) = choose|r: int, c: int|
                                is_cell(t, r, c) && (r < i || (r == i && c < k)) && #[trigger] t[r][c] == w;
                            assert(is_cell(t, r, c) && (r < i || (r == i && c < k + 1)) && t[r][c] == w);
                        } else if exists|r: int, c: int|
                            is_cell(t, r, c) && (r < i || (r == i && c < k + 1)) && #[trigger] t[r][c] == w {
                            let (r, c) = choose|r: int, c: int|
                                is_cell(t, r, c) && (r < i || (r == i && c < k + 1)) && #[trigger] t[r][c] == w;
                            assert(is_cell(t, r, c) && (r < i || (r == i && c < k)) && t[r][c] == w);
                        }
                    }
                }
                k += 1;
            }
            proof {
                assert forall|w: int| 0 <= w <= n implies (#[trigger] seen@[w] <==> exists|r: int, c: int|
                    is_cell(t, r, c) && r < i + 1 && #[trigger] t[r][c] == w) by {
                    if seen@[w] {
                        let (r, c) = choose|r: int, c: int|
                            is_cell(t, r, c) && (r < i || (r == i && c < k)) && #[trigger] t[r][c] == w;
                        assert(is_cell(t, r, c) && r < i + 1 && t[r][c] == w);
                    }
                    if exists|r: int, c: int| is_cell(t, r, c) && r < i + 1 && #[trigger] t[r][c] == w {
                        let (r, c) = choose|r: int, c: int|
                            is_cell(t, r, c) && r < i + 1 && #[trigger] t[r][c] == w;
                        assert(is_cell(t, r, c) && (r < i || (r == i && c < k)) && t[r][c] == w);
                    }
                }
            }
            i += 1;
        }
        if !columns_strict_check(&self.rows) {
            return false;
        }
        let mut v: usize = 1;
        while v <= n
            invariant
                t == self@,
                n == cell_count(t),
                n < usize::MAX,
                1 <= v <= n + 1,
                seen@.len() == n + 1,
                forall|w: int|
                    0 <= w <= n ==> (#[trigger] seen@[w] <==> exists|r: int, c: int|
                        is_cell(t, r, c) && r < t.len() && #[trigger] t[r][c] == w),
                forall|w: int| 1 <= w < v ==> holds_value(t, w),
            decreases n + 1 - v,
        {
            if !seen[v] {
                assert(!holds_value(t, v as int));
                return false;
            }
            proof {
                let (r, c) = choose|r: int, c: int| is_cell(t, r, c) && r < t.len() && #[trigger] t[r][c] == v;
                assert(is_cell(t, r, c) && t[r][c] == v);
            }
            v += 1;
        }
        true
    }

    /// The conjugate (transpose) partition shape: column `j` has as many cells
    /// as there are rows longer than `j`, for `j` below the longest row.
    pub fn conjugate_shape(&self) -> (conj: Vec<usize>)
        ensures
            conj@ == if self@.len() == 0 {
                Seq::<usize>::empty()
            } else {
                conjugate_with_width(shape_of(self@), max_part(shape_of(self@)))
            },
    {
        if self.rows.len() == 0 {
            return Vec::new();
        }
        let max_cols = max_row_len(&self.rows);
        let s = self.shape();
        conjugate_counts(s.as_slice(), max_cols)
    }

    /// Format the tableau as a string for display: each entry right-aligned
    /// in width 3, entries separated by a space, rows by a newline.
    pub fn display(&self) -> (s: String)
        ensures
            s@ == tableau_text(self@),
    {
        proof {
            reveal_strlit("\n");
        }
        let mut s = String::new();
        let mut i: usize = 0;
        while i < self.rows.len()
            invariant
                i <= self@.len(),
                s@ == tableau_text(self@.take(i as int)),
            decreases self@.len() - i,
        {
            assert(self@.take(i + 1).drop_last() =~= self@.take(i as int));
            assert(self.rows@[i as int]@ == self@[i as int]);
            let ghost s0 = s@;
            proof {
                reveal_strlit("\n");
            }
            assert("\n"@ =~= seq!['\n']);
            assert(self@.take(i + 1).last() == self@[i as int]);
            if i > 0 {
                s.append("\n");
            }
            push_row(&mut s, &self.rows[i]);
            proof {
                if i == 0 {
                    assert(tableau_text(self@.take(0)) =~= Seq::<char>::empty());
                    assert(Seq::<char>::empty() + row_text(self@[0]) =~= row_text(self@[0]));
                }
            }
            assert(s@ =~= tableau_text(self@.take(i + 1)));
            i += 1;
        }
        assert(self@.take(i as int) =~= self@);
        s
    }

    /// Set the cell value at (row, col); out-of-bounds positions are ignored.
    pub fn set(&mut self, row: usize, col: usize, val: u32)
        ensures
            final(self)@ == if is_cell(old(self)@, row as int, col as int) {
                old(self)@.update(row as int, old(self)@[row as int].update(col as int, val))
            } else {
                old(self)@
            },
    {
        if row < self.rows.len() && col < self.rows[row].len() {
            self.rows[row][col] = val;
            assert(self@ =~= old(self)@.update(row as int, old(self)@[row as int].update(col as int, val)));
        } else {
            assert(self@ =~= old(self)@);
        }
    }
}

} // verus!

verus! {

/// A partition of an integer n.
#[derive(Debug, Clone, PartialEq, Eq)]
pub struct Partition(pub Vec<usize>);

impl View for Partition {
    type V = Seq<usize>;

    open spec fn view(&self) -> Seq<usize> {
        self.0@
    }
}

impl Partition {
    /// Create a partition from its parts (no validation).
    pub fn new(parts: Vec<usize>) -> (p: Self)
        ensures
            p@ == parts@,
    {
        Partition(parts)
    }

    /// The sum of all parts.
    pub fn weight(&self) -> (w: usize)
        requires
            parts_sum(self@) <= usize::MAX,
        ensures
            w == parts_sum(self@),
    {
        let mut w: usize = 0;
        let mut i: usize = 0;
        while i < self.0.len()
            invariant
                i <= self@.len(),
                w == parts_sum(self@.take(i as int)),
                parts_sum(self@) <= usize::MAX,
            decreases self@.len() - i,
        {
            proof {
                lemma_parts_sum_take(self@, i as int);
                lemma_parts_sum_prefix_bound(self@, i + 1);
            }
            w = w + self.0[i];
            i += 1;
        }
        assert(self@.take(i as int) =~= self@);
        w
    }

    /// Number of parts (length).
    pub fn len(&self) -> (n: usize)
        ensures
            n == self@.len(),
    {
        self.0.len()
    }

    /// Check if the partition has no parts.
    pub fn is_empty(&self) -> (b: bool)
        ensures
            b == (self@.len() == 0),
    {
        self.0.len() == 0
    }

    /// Check if the parts are weakly decreasing.
    pub fn is_valid(&self) -> (b: bool)
        ensures
            b == weakly_decreasing(self@),
    {
        let mut j: usize = 1;
        while j < self.0.len()
            invariant
                j >= 1,
                forall|a: int, c: int| 0 <= a < c < j && c < self@.len() ==> #[trigger] self@[c] <= #[trigger] self@[a],
            decreases self@.len() - j,
        {
            if self.0[j - 1] < self.0[j] {
                assert(self@[j - 1] == self@[j - 1]);
                return false;
            }
            proof {
                assert forall|a: int| 0 <= a < j implies self@[j as int] <= #[trigger] self@[a] by {
                    if a < j - 1 {
                        assert(self@[a] == self@[a] && self@[j - 1] == self@[j - 1]);
                    }
                }
            }
            j += 1;
        }
        true
    }

    /// Conjugate (transpose) partition: as many parts as the first part, part
    /// `j` counting the parts greater than `j`.
    pub fn conjugate(&self) -> (c: Partition)
        requires
            forall|i: int| 0 <= i < self@.len() ==> #[trigger] self@[i] <= self@[0],
        ensures
            c@ == conjugate_partition_spec(self@),
    {
        if self.0.len() == 0 {
            return Partition(Vec::new());
        }
        Partition(conjugate_counts(self.0.as_slice(), self.0[0]))
    }

    /// Dominance ordering: self dominates other if cumulative sums are >= at every position.
    pub fn dominates(&self, other: &Partition) -> (b: bool)
        requires
            parts_sum(self@) <= usize::MAX,
            parts_sum(other@) <= usize::MAX,
        ensures
            b == dominates_spec(self@, other@),
    {
        let max_len = if self.0.len() >= other.0.len() {
            self.0.len()
        } else {
            other.0.len()
        };
        let mut self_cum: usize = 0;
        let mut other_cum: usize = 0;
        let mut i: usize = 0;
        while i < max_len
            invariant
                max_len == if self@.len() >= other@.len() {
                    self@.len()
                } else {
                    other@.len()
                },
                i <= max_len,
                self_cum == prefix_sum(self@, i as int),
                other_cum == prefix_sum(other@, i as int),
                parts_sum(self@) <= usize::MAX,
                parts_sum(other@) <= usize::MAX,
                forall|k: int| 1 <= k <= i ==> prefix_sum(self@, k) >= prefix_sum(other@, k),
            decreases max_len - i,
        {
            proof {
                lemma_prefix_sum_step(self@, i as int);
                lemma_prefix_sum_step(other@, i as int);
            }
            if i < self.0.len() {
                self_cum = self_cum + self.0[i];
            }
            if i < other.0.len() {
                other_cum = other_cum + other.0[i];
            }
            if self_cum < other_cum {
                return false;
            }
            i += 1;
        }
        true
    }
}

} // verus!
