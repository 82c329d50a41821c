//! Standard Young tableaux generation and validation.
use vstd::prelude::*;
use crate::tableau::{
    YoungTableau, Partition, cell_count, parts_sum, is_standard_spec, is_cell, holds_value,
    entries_distinct, weakly_decreasing,
    lemma_parts_sum_take, lemma_parts_sum_prefix_bound,
};
use crate::hook::{hook_length_count, hooks_fit, factorial_spec, hook_product_spec, hook_count_spec};
use crate::hook_formula::{standard_tableaux, lemma_hook_length_formula};
use crate::insertion::copy_rows;

verus! {

// ---------------------------------------------------------------------------
// Specifications
// ---------------------------------------------------------------------------

/// `t` is a standard tableau whose row lengths are the parts of `shape`.
pub open spec fn is_standard_of_shape(t: Seq<Seq<u32>>, shape: Seq<usize>) -> bool {
    &&& t.len() == shape.len()
    &&& forall|r: int| 0 <= r < t.len() ==> #[trigger] t[r].len() == shape[r]
    &&& is_standard_spec(t)
}

/// Number of nonzero (filled) cells among the first `k` cells of a row.
pub open spec fn filled_in_row(row: Seq<u32>, k: int) -> nat
    decreases k,
{
    if k <= 0 {
        0
    } else {
        filled_in_row(row, k - 1) + if row[k - 1] != 0 { 1nat } else { 0nat }
    }
}

/// Number of nonzero (filled) cells among the first `m` rows.
pub open spec fn filled_count(t: Seq<Seq<u32>>, m: int) -> nat
    decreases m,
{
    if m <= 0 {
        0
    } else {
        filled_count(t, m - 1) + filled_in_row(t[m - 1], t[m - 1].len() as int)
    }
}

/// A partial standard filling of `shape` with the values `1..k`: zeros mark
/// empty cells, each of `1..k` is in exactly one cell, and every filled cell
/// has its left and upper neighbours (where they exist) filled with smaller values.
pub open spec fn partial_filling(t: Seq<Seq<u32>>, shape: Seq<usize>, k: int) -> bool {
    &&& t.len() == shape.len()
    &&& forall|r: int| 0 <= r < t.len() ==> #[trigger] t[r].len() == shape[r]
    &&& forall|r: int, c: int| is_cell(t, r, c) ==> #[trigger] t[r][c] < k
    &&& forall|r1: int, c1: int, r2: int, c2: int|
        is_cell(t, r1, c1) && is_cell(t, r2, c2) && (r1 != r2 || c1 != c2) && t[r1][c1] != 0 ==> #[trigger] t[r1][c1]
            != #[trigger] t[r2][c2]
    &&& forall|v: int| 1 <= v < k ==> holds_value(t, v)
    &&& filled_count(t, t.len() as int) == k - 1
    &&& forall|r: int, c: int, d: int|
        is_cell(t, r, c) && d == c - 1 && 0 <= d && #[trigger] t[r][c] != 0 ==> #[trigger] t[r][d] != 0 && t[r][d] < t[r][c]
    &&& forall|r: int, s: int, c: int|
        is_cell(t, r, c) && s == r - 1 && 0 <= s && c < t[s].len() && #[trigger] t[r][c] != 0 ==> #[trigger] t[s][c] != 0 && t[s][c]
            < t[r][c]
}

/// `q` is a partition of `total` into positive parts, weakly decreasing, each at most `bound`.
pub open spec fn is_partition_of(q: Seq<usize>, total: nat, bound: nat) -> bool {
    &&& weakly_decreasing(q)
    &&& forall|i: int| 0 <= i < q.len() ==> 1 <= #[trigger] q[i] <= bound
    &&& parts_sum(q) == total
}

/// `t` extends the partial filling `p`: same cells, the filled cells of `p`
/// carry over, and the empty ones hold values of at least `k`.
pub open spec fn agrees_below(t: Seq<Seq<u32>>, p: Seq<Seq<u32>>, k: int) -> bool {
    &&& t.len() == p.len()
    &&& forall|r: int| 0 <= r < t.len() ==> #[trigger] t[r].len() == p[r].len()
    &&& forall|r: int, c: int| is_cell(p, r, c) ==> if #[trigger] p[r][c] == 0 { t[r][c] >= k } else { t[r][c] == p[r][c] }
}

/// Some tableau of `results` from position `from` on has the entries `t`.
pub open spec fn found_in(results: Seq<YoungTableau>, from: int, t: Seq<Seq<u32>>) -> bool {
    exists|i: int| from <= i < results.len() && (#[trigger] results[i])@ == t
}

/// Every cell of `t` holding `k` comes before `(row, col)` in reading order.
pub open spec fn value_before(t: Seq<Seq<u32>>, k: int, row: int, col: int) -> bool {
    forall|a: int, b: int| is_cell(t, a, b) && #[trigger] t[a][b] == k ==> a < row || (a == row && b < col)
}

/// `t1` holds `v` in cell `(a, b)`, `t2` holds `v` in no cell up to `(a, b)` in
/// reading order, and the two agree on every cell holding a value below `v`.
pub open spec fn differs_first_at(t1: Seq<Seq<u32>>, t2: Seq<Seq<u32>>, v: int, a: int, b: int) -> bool {
    &&& is_cell(t1, a, b)
    &&& t1[a][b] == v
    &&& forall|x: int, y: int| is_cell(t2, x, y) && (x < a || (x == a && y <= b)) ==> #[trigger] t2[x][y] != v
    &&& forall|x: int, y: int| is_cell(t1, x, y) && (t1[x][y] < v || t2[x][y] < v) ==> #[trigger] t1[x][y] == t2[x][y]
}

/// `t1` comes before `t2` in the order of generation: for some value `v` of
/// at least `k`, the two agree on all smaller values and `t1` places `v` in an
/// earlier cell (in reading order) than `t2` does.
pub open spec fn generated_before(t1: Seq<Seq<u32>>, t2: Seq<Seq<u32>>, k: int) -> bool {
    exists|v: int, a: int, b: int| v >= k && #[trigger] differs_first_at(t1, t2, v, a, b)
}

/// `t` is a standard tableau of `shape` extending the partial filling `p`
/// with the value `k` in cell `(r, c)`.
pub open spec fn completes_at(t: Seq<Seq<u32>>, p: Seq<Seq<u32>>, shape: Seq<usize>, k: int, r: int, c: int) -> bool {
    &&& is_standard_of_shape(t, shape)
    &&& agrees_below(t, p, k)
    &&& is_cell(t, r, c)
    &&& t[r][c] == k
}

// ---------------------------------------------------------------------------
// Lemmas on partial fillings
// ---------------------------------------------------------------------------

proof fn lemma_filled_in_row_bound(row: Seq<u32>, k: int)
    requires
        0 <= k <= row.len(),
    ensures
        filled_in_row(row, k) <= k,
        filled_in_row(row, k) == k ==> forall|c: int| 0 <= c < k ==> #[trigger] row[c] != 0,
    decreases k,
{
    if k > 0 {
        lemma_filled_in_row_bound(row, k - 1);
    }
}

proof fn lemma_filled_in_row_update(row: Seq<u32>, c: int, v: u32, k: int)
    requires
        0 <= c < row.len(),
        0 <= k <= row.len(),
        row[c] == 0,
        v != 0,
    ensures
        filled_in_row(row.update(c, v), k) == filled_in_row(row, k) + if c < k { 1nat } else { 0nat },
    decreases k,
{
    if k > 0 {
        lemma_filled_in_row_update(row, c, v, k - 1);
    }
}

proof fn lemma_filled_count_bound(t: Seq<Seq<u32>>, m: int)
    requires
        0 <= m <= t.len(),
    ensures
        filled_count(t, m) <= cell_count(t.take(m)),
        filled_count(t, m) == cell_count(t.take(m)) ==> forall|r: int, c: int| 0 <= r < m && 0 <= c < t[r].len() ==> #[trigger] t[r][c] != 0,
    decreases m,
{
    if m > 0 {
        lemma_filled_count_bound(t, m - 1);
        lemma_filled_in_row_bound(t[m - 1], t[m - 1].len() as int);
        assert(t.take(m).drop_last() =~= t.take(m - 1));
        if filled_count(t, m) == cell_count(t.take(m)) {
            assert forall|r: int, c: int| 0 <= r < m && 0 <= c < t[r].len() implies #[trigger] t[r][c] != 0 by {
                if r < m - 1 {
                } else {
                }
            }
        }
    }
}

proof fn lemma_filled_count_update(t: Seq<Seq<u32>>, r: int, c: int, v: u32, m: int)
    requires
        is_cell(t, r, c),
        t[r][c] == 0,
        v != 0,
        0 <= m <= t.len(),
    ensures
        filled_count(t.update(r, t[r].update(c, v)), m) == filled_count(t, m) + if r < m { 1nat } else { 0nat },
    decreases m,
{
    if m > 0 {
        lemma_filled_count_update(t, r, c, v, m - 1);
        if m - 1 == r {
            lemma_filled_in_row_update(t[r], c, v, t[r].len() as int);
        }
    }
}

proof fn lemma_shape_cell_count(t: Seq<Seq<u32>>, shape: Seq<usize>)
    requires
        t.len() == shape.len(),
        forall|r: int| 0 <= r < t.len() ==> #[trigger] t[r].len() == shape[r],
    ensures
        cell_count(t) == parts_sum(shape),
    decreases t.len(),
{
    if t.len() > 0 {
        lemma_shape_cell_count(t.drop_last(), shape.drop_last());
    }
}

/// Placing the next value in an empty cell whose left and upper neighbours
/// are filled keeps a partial filling.
proof fn lemma_place_next(t: Seq<Seq<u32>>, shape: Seq<usize>, k: int, r: int, c: int)
    requires
        partial_filling(t, shape, k),
        1 <= k <= u32::MAX,
        is_cell(t, r, c),
        t[r][c] == 0,
        c > 0 ==> t[r][c - 1] != 0,
        r > 0 && c < t[r - 1].len() ==> t[r - 1][c] != 0,
    ensures
        partial_filling(t.update(r, t[r].update(c, k as u32)), shape, k + 1),
{
    let v = k as u32;
    let t2 = t.update(r, t[r].update(c, v));
    lemma_filled_count_update(t, r, c, v, t.len() as int);
    assert forall|a: int, b: int| is_cell(t2, a, b) implies #[trigger] t2[a][b] == if a == r && b == c { v } else { t[a][b] } by {}
    assert forall|a: int, b: int| is_cell(t2, a, b) implies #[trigger] t2[a][b] < k + 1 by {
        if !(a == r && b == c) {
            assert(t[a][b] < k);
        }
    }
    assert forall|r1: int, c1: int, r2: int, c2: int|
        is_cell(t2, r1, c1) && is_cell(t2, r2, c2) && (r1 != r2 || c1 != c2) && t2[r1][c1] != 0 implies #[trigger] t2[r1][c1]
            != #[trigger] t2[r2][c2] by {
        if r1 == r && c1 == c {
            assert(t[r2][c2] < k);
        } else if r2 == r && c2 == c {
            assert(t[r1][c1] < k);
        } else {
            assert(t[r1][c1] != t[r2][c2]);
        }
    }
    assert forall|w: int| 1 <= w < k + 1 implies holds_value(t2, w) by {
        if w == k {
            assert(is_cell(t2, r, c) && t2[r][c] == w);
        } else {
            assert(holds_value(t, w));
            let (a, b) = choose|a: int, b: int| is_cell(t, a, b) && #[trigger] t[a][b] == w;
            assert(!(a == r && b == c));
            assert(is_cell(t2, a, b) && t2[a][b] == w);
        }
    }
    assert forall|a: int, b: int, d: int|
        is_cell(t2, a, b) && d == b - 1 && 0 <= d && #[trigger] t2[a][b] != 0 implies #[trigger] t2[a][d] != 0 && t2[a][d] < t2[a][b] by {
        if a == r && b == c {
            assert(t[r][c - 1] < k);
        } else if a == r && d == c {
            assert(t[a][b] != 0 && t[a][d] != 0);
        } else {
            assert(t[a][b] != 0 ==> t[a][d] != 0 && t[a][d] < t[a][b]);
        }
    }
    assert forall|a: int, e: int, b: int|
        is_cell(t2, a, b) && e == a - 1 && 0 <= e && b < t2[e].len() && #[trigger] t2[a][b] != 0 implies #[trigger] t2[e][b] != 0 && t2[e][b]
            < t2[a][b] by {
        if a == r && b == c {
            assert(t[r - 1][c] < k);
        } else if e == r && b == c {
            assert(t[a][b] != 0 && t[e][b] != 0);
        } else {
            assert(t[a][b] != 0 ==> t[e][b] != 0 && t[e][b] < t[a][b]);
        }
    }
}

/// A partial filling with all `n` values placed is a standard tableau of the shape.
proof fn lemma_complete_filling(t: Seq<Seq<u32>>, shape: Seq<usize>, n: int)
    requires
        partial_filling(t, shape, n + 1),
        n == parts_sum(shape),
    ensures
        is_standard_of_shape(t, shape),
{
    lemma_shape_cell_count(t, shape);
    lemma_filled_count_bound(t, t.len() as int);
    assert(t.take(t.len() as int) =~= t);
    // every cell is filled
    assert forall|r: int, c: int| is_cell(t, r, c) implies #[trigger] t[r][c] != 0 by {}
    // rows: adjacent entries increase, hence all pairs
    assert forall|r: int, i: int, j: int| 0 <= r < t.len() && 0 <= i < j < t[r].len() implies #[trigger] t[r][i] < #[trigger] t[r][j] by {
        lemma_row_chain(t, r, i, j);
    }
    assert forall|r: int, s: int, c: int|
        0 <= r && s == r + 1 && s < t.len() && 0 <= c < t[r].len() && c < t[s].len() implies #[trigger] t[r][c] < #[trigger] t[s][c] by {
        assert(t[s][c] != 0);
    }
    assert forall|r: int, c: int| is_cell(t, r, c) implies 1 <= #[trigger] t[r][c] <= cell_count(t) by {
        assert(t[r][c] != 0);
    }
    assert(entries_distinct(t)) by {
        assert forall|r1: int, c1: int, r2: int, c2: int|
            is_cell(t, r1, c1) && is_cell(t, r2, c2) && (r1 != r2 || c1 != c2) implies #[trigger] t[r1][c1] != #[trigger] t[r2][c2] by {
            assert(t[r1][c1] != 0);
        }
    }
}

proof fn lemma_zero_filling(t: Seq<Seq<u32>>, shape: Seq<usize>)
    requires
        t.len() == shape.len(),
        forall|r: int| 0 <= r < t.len() ==> #[trigger] t[r] == Seq::new(shape[r] as nat, |j: int| 0u32),
    ensures
        partial_filling(t, shape, 1),
{
    assert forall|m: int| 0 <= m <= t.len() implies #[trigger] filled_count(t, m) == 0 by {
        lemma_zero_filled_count(t, m);
    }
}

proof fn lemma_zero_filled_count(t: Seq<Seq<u32>>, m: int)
    requires
        0 <= m <= t.len(),
        forall|a: int, b: int| is_cell(t, a, b) ==> #[trigger] t[a][b] == 0,
    ensures
        filled_count(t, m) == 0,
    decreases m,
{
    if m > 0 {
        lemma_zero_filled_count(t, m - 1);
        lemma_zero_filled_in_row(t, m - 1, t[m - 1].len() as int);
    }
}

proof fn lemma_zero_filled_in_row(t: Seq<Seq<u32>>, r: int, k: int)
    requires
        0 <= r < t.len(),
        0 <= k <= t[r].len(),
        forall|a: int, b: int| is_cell(t, a, b) ==> #[trigger] t[a][b] == 0,
    ensures
        filled_in_row(t[r], k) == 0,
    decreases k,
{
    if k > 0 {
        lemma_zero_filled_in_row(t, r, k - 1);
        assert(t[r][k - 1] == 0);
    }
}

proof fn lemma_parts_sum_prepend(p: usize, q: Seq<usize>)
    ensures
        parts_sum(seq![p] + q) == p + parts_sum(q),
    decreases q.len(),
{
    if q.len() == 0 {
        assert(seq![p] + q =~= seq![p]);
        assert(seq![p].drop_last() =~= Seq::<usize>::empty());
        assert(parts_sum(seq![p]) == parts_sum(seq![p].drop_last()) + p);
    } else {
        lemma_parts_sum_prepend(p, q.drop_last());
        assert((seq![p] + q).drop_last() =~= seq![p] + q.drop_last());
        assert((seq![p] + q).last() == q.last());
    }
}

proof fn lemma_row_chain(t: Seq<Seq<u32>>, r: int, i: int, j: int)
    requires
        0 <= r < t.len(),
        0 <= i < j < t[r].len(),
        forall|a: int, b: int| is_cell(t, a, b) ==> #[trigger] t[a][b] != 0,
        forall|a: int, b: int, d: int|
            is_cell(t, a, b) && d == b - 1 && 0 <= d && #[trigger] t[a][b] != 0 ==> #[trigger] t[a][d] != 0 && t[a][d] < t[a][b],
    ensures
        t[r][i] < t[r][j],
    decreases j - i,
{
    assert(t[r][j] != 0);
    assert(t[r][j - 1] < t[r][j]);
    if i < j - 1 {
        lemma_row_chain(t, r, i, j - 1);
    }
}

// ---------------------------------------------------------------------------
// Operations
// ---------------------------------------------------------------------------

/// Extending a partial filling by the next value at `(row, col)`: a standard
/// tableau that completes the filling there completes the extended filling.
proof fn lemma_completion_extends(t: Seq<Seq<u32>>, p: Seq<Seq<u32>>, shape: Seq<usize>, k: int, row: int, col: int)
    requires
        completes_at(t, p, shape, k, row, col),
        1 <= k <= u32::MAX,
    ensures
        agrees_below(t, p.update(row, p[row].update(col, k as u32)), k + 1),
{
    let p1 = p.update(row, p[row].update(col, k as u32));
    assert forall|r: int, c: int| is_cell(p1, r, c) implies if #[trigger] p1[r][c] == 0 { t[r][c] >= k + 1 } else { t[r][c] == p1[r][c] } by {
        if r == row && c == col {
        } else {
            assert(p1[r][c] == p[r][c]);
            if p[r][c] == 0 {
                assert(t[r][c] >= k);
                assert(t[r][c] != t[row][col]);
            }
        }
    }
}

/// What the branch at `(row, col)` returns extends the current filling and
/// holds the value `k` exactly at `(row, col)`.
proof fn lemma_branch_result(t: Seq<Seq<u32>>, p: Seq<Seq<u32>>, shape: Seq<usize>, k: int, row: int, col: int)
    requires
        is_standard_of_shape(t, shape),
        partial_filling(p, shape, k),
        is_cell(p, row, col),
        p[row][col] == 0,
        1 <= k <= u32::MAX,
        agrees_below(t, p.update(row, p[row].update(col, k as u32)), k + 1),
    ensures
        agrees_below(t, p, k),
        t[row][col] == k,
        value_before(t, k, row, col + 1),
{
    let p1 = p.update(row, p[row].update(col, k as u32));
    assert(p1[row][col] == k as u32);
    assert forall|r: int, c: int| is_cell(p, r, c) implies if #[trigger] p[r][c] == 0 { t[r][c] >= k } else { t[r][c] == p[r][c] } by {
        if !(r == row && c == col) {
            assert(p1[r][c] == p[r][c]);
        }
    }
    assert forall|a: int, b: int| is_cell(t, a, b) && #[trigger] t[a][b] == k implies a < row || (a == row && b < col + 1) by {
        if !(a == row && b == col) {
            assert(t[a][b] != t[row][col]);
        }
    }
}

/// No standard tableau completes a filling at a cell whose left or upper
/// neighbour is still empty or holds a value at least `k`, or that is filled.
proof fn lemma_no_completion(t: Seq<Seq<u32>>, p: Seq<Seq<u32>>, shape: Seq<usize>, k: int, row: int, col: int)
    requires
        completes_at(t, p, shape, k, row, col),
        partial_filling(p, shape, k),
    ensures
        p[row][col] == 0,
        col > 0 ==> p[row][col - 1] != 0 && p[row][col - 1] < k,
        row > 0 && col < p[row - 1].len() ==> p[row - 1][col] != 0 && p[row - 1][col] < k,
        row > 0 && col > 0 && col - 1 < p[row - 1].len() ==> p[row - 1][col - 1] != 0,
{
    assert(is_cell(p, row, col));
    if p[row][col] != 0 {
        assert(t[row][col] == p[row][col]);
        assert(p[row][col] < k);
    }
    if col > 0 {
        assert(t[row][col - 1] < t[row][col]);
        assert(is_cell(p, row, col - 1));
        if p[row][col - 1] == 0 {
            assert(t[row][col - 1] >= k);
        }
    }
    if row > 0 && col < p[row - 1].len() {
        assert(t[row - 1][col] < t[row][col]);
        assert(is_cell(p, row - 1, col));
        if p[row - 1][col] == 0 {
            assert(t[row - 1][col] >= k);
        }
    }
    if row > 0 && col > 0 && col - 1 < p[row - 1].len() {
        assert(t[row - 1][col - 1] < t[row][col - 1]);
        assert(t[row][col - 1] < t[row][col]);
        assert(is_cell(p, row - 1, col - 1));
        if p[row - 1][col - 1] == 0 {
            assert(t[row - 1][col - 1] >= k);
        }
    }
}

/// A tableau from an earlier branch, holding `k` before `(row, col)`, comes
/// before one from the branch that puts `k` at `(row, col)`.
proof fn lemma_branch_order(
    ti: Seq<Seq<u32>>,
    tj: Seq<Seq<u32>>,
    p: Seq<Seq<u32>>,
    shape: Seq<usize>,
    k: int,
    row: int,
    col: int,
)
    requires
        is_standard_of_shape(ti, shape),
        is_standard_of_shape(tj, shape),
        agrees_below(ti, p, k),
        agrees_below(tj, p, k),
        value_before(ti, k, row, col),
        is_cell(tj, row, col),
        tj[row][col] == k,
        1 <= k <= parts_sum(shape),
    ensures
        generated_before(ti, tj, k),
{
    lemma_shape_cell_count(ti, shape);
    assert(holds_value(ti, k));
    let (a, b) = choose|a: int, b: int| is_cell(ti, a, b) && #[trigger] ti[a][b] == k;
    assert(a < row || (a == row && b < col));
    assert forall|x: int, y: int| is_cell(tj, x, y) && (x < a || (x == a && y <= b)) implies #[trigger] tj[x][y] != k by {
        if tj[x][y] == k {
            assert(tj[x][y] == tj[row][col]);
        }
    }
    assert forall|x: int, y: int| is_cell(ti, x, y) && (ti[x][y] < k || tj[x][y] < k) implies #[trigger] ti[x][y] == tj[x][y] by {
        assert(is_cell(p, x, y));
        if p[x][y] == 0 {
            assert(ti[x][y] >= k && tj[x][y] >= k);
        }
    }
    assert(differs_first_at(ti, tj, k, a, b));
}

/// The order of generation for a larger threshold holds for a smaller one.
proof fn lemma_generated_before_weaken(t1: Seq<Seq<u32>>, t2: Seq<Seq<u32>>, k: int, k2: int)
    requires
        generated_before(t1, t2, k),
        k2 <= k,
    ensures
        generated_before(t1, t2, k2),
{
    let (v, a, b) = choose|v: int, a: int, b: int| v >= k && #[trigger] differs_first_at(t1, t2, v, a, b);
    assert(v >= k2 && differs_first_at(t1, t2, v, a, b));
}

/// A complete filling is the only standard tableau extending it.
proof fn lemma_complete_unique(t: Seq<Seq<u32>>, p: Seq<Seq<u32>>, shape: Seq<usize>, n: int)
    requires
        partial_filling(p, shape, n + 1),
        n == parts_sum(shape),
        agrees_below(t, p, n + 1),
    ensures
        t == p,
{
    lemma_shape_cell_count(p, shape);
    lemma_filled_count_bound(p, p.len() as int);
    assert(p.take(p.len() as int) =~= p);
    assert forall|r: int| 0 <= r < t.len() implies #[trigger] t[r] =~= p[r] by {
        assert forall|c: int| 0 <= c < t[r].len() implies t[r][c] == p[r][c] by {
            assert(is_cell(p, r, c));
            assert(p[r][c] != 0);
        }
    }
    assert(t =~= p);
}

fn backtrack(
    tableau: &mut YoungTableau,
    shape: &[usize],
    next_val: u32,
    max_val: u32,
    results: &mut Vec<YoungTableau>,
)
    requires
        partial_filling(old(tableau)@, shape@, next_val as int),
        1 <= next_val <= max_val + 1,
        max_val == parts_sum(shape@),
        max_val < u32::MAX,
    ensures
        final(tableau)@ == old(tableau)@,
        old(results)@.len() <= final(results)@.len(),
        forall|i: int| 0 <= i < old(results)@.len() ==> #[trigger] final(results)@[i] == old(results)@[i],
        forall|i: int| old(results)@.len() <= i < final(results)@.len() ==> is_standard_of_shape(#[trigger] final(results)@[i]@, shape@),
        forall|i: int| old(results)@.len() <= i < final(results)@.len() ==> agrees_below(#[trigger] final(results)@[i]@, old(tableau)@, next_val as int),
        forall|i: int, j: int| old(results)@.len() <= i < j < final(results)@.len() ==> #[trigger] final(results)@[i]@ != #[trigger] final(results)@[j]@,
        forall|i: int, j: int| old(results)@.len() <= i < j < final(results)@.len() ==> generated_before(#[trigger] final(results)@[i]@, #[trigger] final(results)@[j]@, next_val as int),
        forall|t: Seq<Seq<u32>>| is_standard_of_shape(t, shape@) && #[trigger] agrees_below(t, old(tableau)@, next_val as int)
            ==> found_in(final(results)@, old(results)@.len() as int, t),
    decreases max_val + 1 - next_val,
{
    if next_val > max_val {
        proof {
            lemma_complete_filling(tableau@, shape@, max_val as int);
        }
        let copy = YoungTableau::from_rows(copy_rows(&tableau.rows));
        let ghost before = results@;
        results.push(copy);
        proof {
            let t0 = tableau@;
            assert(results@[before.len() as int]@ == t0);
            assert(agrees_below(t0, t0, next_val as int)) by {
                assert forall|r: int, c: int| is_cell(t0, r, c) implies if #[trigger] t0[r][c] == 0 { t0[r][c] >= next_val } else { t0[r][c] == t0[r][c] } by {
                    assert(t0[r][c] != 0);
                }
            }
            assert forall|t: Seq<Seq<u32>>| is_standard_of_shape(t, shape@) && #[trigger] agrees_below(t, t0, next_val as int)
                implies found_in(results@, before.len() as int, t) by {
                lemma_complete_unique(t, t0, shape@, max_val as int);
                assert(results@[before.len() as int]@ == t);
            }
        }
        return;
    }
    let ghost t0 = tableau@;
    let ghost r0 = results@;
    let ghost k = next_val as int;
    let mut row: usize = 0;
    while row < shape.len()
        invariant
            tableau@ == t0,
            k == next_val as int,
            partial_filling(t0, shape@, k),
            1 <= next_val <= max_val,
            max_val == parts_sum(shape@),
            max_val < u32::MAX,
            row <= shape@.len(),
            r0.len() <= results@.len(),
            forall|i: int| 0 <= i < r0.len() ==> #[trigger] results@[i] == r0[i],
            forall|i: int| r0.len() <= i < results@.len() ==> is_standard_of_shape(#[trigger] results@[i]@, shape@),
            forall|i: int| r0.len() <= i < results@.len() ==> agrees_below(#[trigger] results@[i]@, t0, k),
            forall|i: int| r0.len() <= i < results@.len() ==> value_before(#[trigger] results@[i]@, k, row as int, 0),
            forall|i: int, j: int| r0.len() <= i < j < results@.len() ==> #[trigger] results@[i]@ != #[trigger] results@[j]@,
            forall|i: int, j: int| r0.len() <= i < j < results@.len() ==> generated_before(#[trigger] results@[i]@, #[trigger] results@[j]@, k),
            forall|t: Seq<Seq<u32>>, r: int, c: int| #[trigger] completes_at(t, t0, shape@, k, r, c) && r < row
                ==> found_in(results@, r0.len() as int, t),
        decreases shape@.len() - row,
    {
        let mut col: usize = 0;
        while col < shape[row]
            invariant
                tableau@ == t0,
                k == next_val as int,
                partial_filling(t0, shape@, k),
                1 <= next_val <= max_val,
                max_val == parts_sum(shape@),
                max_val < u32::MAX,
                row < shape@.len(),
                r0.len() <= results@.len(),
                forall|i: int| 0 <= i < r0.len() ==> #[trigger] results@[i] == r0[i],
                forall|i: int| r0.len() <= i < results@.len() ==> is_standard_of_shape(#[trigger] results@[i]@, shape@),
                forall|i: int| r0.len() <= i < results@.len() ==> agrees_below(#[trigger] results@[i]@, t0, k),
                forall|i: int| r0.len() <= i < results@.len() ==> value_before(#[trigger] results@[i]@, k, row as int, col as int),
                forall|i: int, j: int| r0.len() <= i < j < results@.len() ==> #[trigger] results@[i]@ != #[trigger] results@[j]@,
                forall|i: int, j: int| r0.len() <= i < j < results@.len() ==> generated_before(#[trigger] results@[i]@, #[trigger] results@[j]@, k),
                forall|t: Seq<Seq<u32>>, r: int, c: int| #[trigger] completes_at(t, t0, shape@, k, r, c) && (r < row || (r == row && c < col))
                    ==> found_in(results@, r0.len() as int, t),
            decreases shape@[row as int] - col,
        {
            let ghost skipped = results@;
            let mut ok = true;
            // Cell must be empty (value 0)
            if tableau.get(row, col) != Some(0u32) {
                ok = false;
            }
            // Check row constraint: strictly increasing left-to-right
            if ok && col > 0 {
                match tableau.get(row, col - 1) {
                    Some(v) => {
                        if v == 0 || v >= next_val {
                            ok = false;
                        }
                    },
                    None => {},
                }
            }
            // Check column constraint: strictly increasing top-to-bottom
            if ok && row > 0 {
                match tableau.get(row - 1, col) {
                    Some(v) => {
                        if v == 0 || v >= next_val {
                            ok = false;
                        }
                    },
                    None => {},
                }
            }
            // For non-first-row cells, the cell above-left must be filled
            if ok && row > 0 && col > 0 && tableau.get(row - 1, col - 1) == Some(0u32) {
                ok = false;
            }
            if ok {
                proof {
                    lemma_place_next(t0, shape@, k, row as int, col as int);
                }
                tableau.set(row, col, next_val);
                let ghost t1 = tableau@;
                let ghost mid = results@;
                backtrack(tableau, shape, next_val + 1, max_val, results);
                tableau.set(row, col, 0);
                proof {
                    assert(t0[row as int].update(col as int, next_val).update(col as int, 0) =~= t0[row as int]);
                    assert(tableau@ =~= t0);
                    assert(t1 == t0.update(row as int, t0[row as int].update(col as int, k as u32)));
                    assert forall|i: int| 0 <= i < r0.len() implies #[trigger] results@[i] == r0[i] by {
                        assert(results@[i] == mid[i]);
                    }
                    assert forall|i: int| mid.len() <= i < results@.len() implies
                        agrees_below(#[trigger] results@[i]@, t0, k) && results@[i]@[row as int][col as int] == k
                            && value_before(results@[i]@, k, row as int, col + 1) by {
                        lemma_branch_result(results@[i]@, t0, shape@, k, row as int, col as int);
                    }
                    assert forall|i: int| r0.len() <= i < results@.len() implies is_standard_of_shape(#[trigger] results@[i]@, shape@)
                        && agrees_below(results@[i]@, t0, k) && value_before(results@[i]@, k, row as int, col + 1) by {
                        if i < mid.len() {
                            assert(results@[i] == mid[i]);
                            assert(value_before(mid[i]@, k, row as int, col as int));
                        }
                    }
                    assert forall|i: int, j: int| r0.len() <= i < j < results@.len() implies #[trigger] results@[i]@ != #[trigger] results@[j]@ by {
                        if j < mid.len() {
                            assert(results@[i] == mid[i] && results@[j] == mid[j]);
                        } else if i < mid.len() {
                            assert(results@[i] == mid[i]);
                            let ti = mid[i]@;
                            assert(is_cell(ti, row as int, col as int));
                            assert(value_before(ti, k, row as int, col as int));
                            assert(ti[row as int][col as int] != k);
                            assert(results@[j]@[row as int][col as int] == k);
                        }
                    }
                    assert forall|i: int, j: int| r0.len() <= i < j < results@.len() implies generated_before(#[trigger] results@[i]@, #[trigger] results@[j]@, k) by {
                        if j < mid.len() {
                            assert(results@[i] == mid[i] && results@[j] == mid[j]);
                        } else if i < mid.len() {
                            assert(results@[i] == mid[i]);
                            let ti = mid[i]@;
                            assert(value_before(ti, k, row as int, col as int));
                            lemma_branch_order(ti, results@[j]@, t0, shape@, k, row as int, col as int);
                        } else {
                            lemma_generated_before_weaken(results@[i]@, results@[j]@, k + 1, k);
                        }
                    }
                    assert forall|t: Seq<Seq<u32>>, r: int, c: int| #[trigger] completes_at(t, t0, shape@, k, r, c) && (r < row || (r == row && c < col + 1))
                        implies found_in(results@, r0.len() as int, t) by {
                        if r == row && c == col {
                            lemma_completion_extends(t, t0, shape@, k, r, c);
                            let i = choose|i: int| mid.len() <= i < results@.len() && (#[trigger] results@[i])@ == t;
                        } else {
                            let i = choose|i: int| r0.len() <= i < mid.len() && (#[trigger] mid[i])@ == t;
                            assert(results@[i] == mid[i]);
                        }
                    }
                }
            } else {
                proof {
                    assert forall|t: Seq<Seq<u32>>, r: int, c: int| #[trigger] completes_at(t, t0, shape@, k, r, c) && (r < row || (r == row && c < col + 1))
                        implies found_in(results@, r0.len() as int, t) by {
                        if r == row && c == col {
                            lemma_no_completion(t, t0, shape@, k, r, c);
                            assert(false);
                        }
                    }
                    assert forall|i: int| r0.len() <= i < results@.len() implies value_before(#[trigger] results@[i]@, k, row as int, col + 1) by {
                        assert(value_before(results@[i]@, k, row as int, col as int));
                    }
                }
            }
            col += 1;
        }
        proof {
            assert forall|i: int| r0.len() <= i < results@.len() implies value_before(#[trigger] results@[i]@, k, row + 1, 0) by {
                let ti = results@[i]@;
                assert(value_before(ti, k, row as int, col as int));
                assert forall|a: int, b: int| is_cell(ti, a, b) && #[trigger] ti[a][b] == k implies a < row + 1 || (a == row + 1 && b < 0) by {
                    if a == row {
                        assert(ti[a].len() == t0[a].len());
                    }
                }
            }
            assert forall|t: Seq<Seq<u32>>, r: int, c: int| #[trigger] completes_at(t, t0, shape@, k, r, c) && r < row + 1
                implies found_in(results@, r0.len() as int, t) by {
                if r == row {
                    assert(t[r].len() == shape@[r]);
                }
            }
        }
        row += 1;
    }
    proof {
        assert forall|t: Seq<Seq<u32>>| is_standard_of_shape(t, shape@) && #[trigger] agrees_below(t, t0, k)
            implies found_in(results@, r0.len() as int, t) by {
            lemma_shape_cell_count(t, shape@);
            assert(holds_value(t, k));
            let (a, b) = choose|a: int, b: int| is_cell(t, a, b) && #[trigger] t[a][b] == k;
            assert(completes_at(t, t0, shape@, k, a, b));
        }
    }
}

/// Generate all standard Young tableaux of a given shape using backtracking.
///
/// Returns all SYTs, each containing the numbers 1..=n exactly once. Each
/// tableau of the shape is listed once, in the order in which the search finds
/// them: the value 1, then 2, and so on, is placed in each possible cell in
/// reading order. A shape without cells gives the empty tableau alone.
pub fn generate_standard(shape: &[usize]) -> (syts: Vec<YoungTableau>)
    requires
        parts_sum(shape@) < u32::MAX,
    ensures
        parts_sum(shape@) == 0 ==> syts@.len() == 1 && syts@[0]@ == Seq::<Seq<u32>>::empty(),
        parts_sum(shape@) > 0 ==> forall|i: int| 0 <= i < syts@.len() ==> is_standard_of_shape(#[trigger] syts@[i]@, shape@),
        parts_sum(shape@) > 0 ==> forall|t: Seq<Seq<u32>>| #[trigger] is_standard_of_shape(t, shape@) ==> found_in(syts@, 0, t),
        forall|i: int, j: int| 0 <= i < j < syts@.len() ==> #[trigger] syts@[i]@ != #[trigger] syts@[j]@,
        parts_sum(shape@) > 0 ==> forall|i: int, j: int| 0 <= i < j < syts@.len() ==> generated_before(#[trigger] syts@[i]@, #[trigger] syts@[j]@, 1),
        weakly_decreasing(shape@) ==> syts@.len() == hook_count_spec(shape@),
{
    let mut n: usize = 0;
    let mut i: usize = 0;
    while i < shape.len()
        invariant
            i <= shape@.len(),
            n == parts_sum(shape@.take(i as int)),
            parts_sum(shape@) < u32::MAX,
        decreases shape@.len() - i,
    {
        proof {
            lemma_parts_sum_take(shape@, i as int);
            lemma_parts_sum_prefix_bound(shape@, i + 1);
        }
        n = n + shape[i];
        i += 1;
    }
    assert(shape@.take(i as int) =~= shape@);
    if n == 0 {
        let mut v: Vec<YoungTableau> = Vec::new();
        v.push(YoungTableau::empty());
        return v;
    }
    let mut results: Vec<YoungTableau> = Vec::new();
    let mut tableau = YoungTableau::from_shape(shape);
    proof {
        lemma_zero_filling(tableau@, shape@);
    }
    let ghost zeros = tableau@;
    backtrack(&mut tableau, shape, 1, n as u32, &mut results);
    proof {
        assert forall|t: Seq<Seq<u32>>| #[trigger] is_standard_of_shape(t, shape@) implies found_in(results@, 0, t) by {
            assert forall|r: int, c: int| is_cell(zeros, r, c) implies if #[trigger] zeros[r][c] == 0 { t[r][c] >= 1 } else { t[r][c] == zeros[r][c] } by {
                assert(zeros[r] == Seq::new(shape@[r] as nat, |j: int| 0u32));
                assert(is_cell(t, r, c));
            }
            assert(agrees_below(t, zeros, 1));
        }
        if weakly_decreasing(shape@) {
            lemma_hook_length_formula(shape@);
            let views = results@.map_values(|y: YoungTableau| y@);
            assert(views.no_duplicates()) by {
                assert forall|i: int, j: int| 0 <= i < views.len() && 0 <= j < views.len() && i != j implies views[i]
                    != views[j] by {
                    if i < j {
                        assert(results@[i]@ != results@[j]@);
                    } else {
                        assert(results@[j]@ != results@[i]@);
                    }
                }
            }
            views.unique_seq_to_set();
            assert(views.to_set() =~= standard_tableaux(shape@)) by {
                assert forall|t: Seq<Seq<u32>>| standard_tableaux(shape@).contains(t) implies views.to_set().contains(t) by {
                    assert(found_in(results@, 0, t));
                    let i = choose|i: int| 0 <= i < results@.len() && (#[trigger] results@[i])@ == t;
                    assert(views[i] == t);
                }
                assert forall|t: Seq<Seq<u32>>| views.to_set().contains(t) implies standard_tableaux(shape@).contains(t) by {
                    let i = choose|i: int| 0 <= i < views.len() && views[i] == t;
                    assert(is_standard_of_shape(results@[i]@, shape@));
                }
            }
        }
    }
    results
}

/// Count the number of standard Young tableaux of the given shape
/// using the hook length formula (verification method).
pub fn count_standard(shape: &[usize]) -> (count: u64)
    requires
        parts_sum(shape@) <= usize::MAX,
        factorial_spec(parts_sum(shape@)) <= u64::MAX,
        hooks_fit(shape@),
        hook_product_spec(shape@) <= u64::MAX,
    ensures
        count == hook_count_spec(shape@),
        weakly_decreasing(shape@) ==> count == standard_tableaux(shape@).len(),
{
    hook_length_count(shape)
}

/// Validate that all generated SYTs are indeed standard.
pub fn validate_all_standard(syts: &[YoungTableau]) -> (b: bool)
    requires
        forall|i: int| 0 <= i < syts@.len() ==> cell_count(#[trigger] syts@[i]@) < usize::MAX,
    ensures
        b == forall|i: int| 0 <= i < syts@.len() ==> is_standard_spec(#[trigger] syts@[i]@),
{
    let mut i: usize = 0;
    while i < syts.len()
        invariant
            i <= syts@.len(),
            forall|k: int| 0 <= k < syts@.len() ==> cell_count(#[trigger] syts@[k]@) < usize::MAX,
            forall|k: int| 0 <= k < i ==> is_standard_spec(#[trigger] syts@[k]@),
        decreases syts@.len() - i,
    {
        if !syts[i].is_standard() {
            return false;
        }
        i += 1;
    }
    true
}

/// Generate all standard Young tableaux of size n across all partitions.
pub fn all_standard_of_size(n: usize) -> (all: Vec<(Partition, Vec<YoungTableau>)>)
    requires
        n < u32::MAX,
    ensures
        all@.len() == partitions_upto(n as nat, n as nat).len(),
        forall|i: int| 0 <= i < all@.len() ==> (#[trigger] all@[i]).0@ == partitions_upto(n as nat, n as nat)[i],
        forall|i: int|
            0 <= i < all@.len() && n > 0 ==> forall|j: int|
                0 <= j < (#[trigger] all@[i]).1@.len() ==> is_standard_of_shape(#[trigger] all@[i].1@[j]@, all@[i].0@),
        forall|i: int| 0 <= i < all@.len() && n == 0 ==> (#[trigger] all@[i]).1@.len() == 1 && all@[i].1@[0]@ == Seq::<Seq<u32>>::empty(),
        forall|i: int|
            0 <= i < all@.len() && n > 0 ==> forall|t: Seq<Seq<u32>>|
                #[trigger] is_standard_of_shape(t, (#[trigger] all@[i]).0@) ==> found_in(all@[i].1@, 0, t),
        forall|i: int|
            0 <= i < all@.len() ==> forall|a: int, b: int|
                0 <= a < b < (#[trigger] all@[i]).1@.len() ==> #[trigger] all@[i].1@[a]@ != #[trigger] all@[i].1@[b]@,
        forall|i: int|
            0 <= i < all@.len() && n > 0 ==> forall|a: int, b: int|
                0 <= a < b < (#[trigger] all@[i]).1@.len() ==> generated_before(#[trigger] all@[i].1@[a]@, #[trigger] all@[i].1@[b]@, 1),
{
    let partitions = generate_partitions(n);
    let ghost ps = partitions_upto(n as nat, n as nat);
    proof {
        lemma_partitions_upto_sound(n as nat, n as nat);
    }
    let mut all: Vec<(Partition, Vec<YoungTableau>)> = Vec::new();
    let mut i: usize = 0;
    while i < partitions.len()
        invariant
            n < u32::MAX,
            ps == partitions_upto(n as nat, n as nat),
            partition_views(partitions@) == ps,
            forall|k: int| 0 <= k < ps.len() ==> is_partition_of(#[trigger] ps[k], n as nat, n as nat),
            i <= partitions@.len(),
            all@.len() == i,
            forall|k: int| 0 <= k < i ==> (#[trigger] all@[k]).0@ == ps[k],
            forall|k: int|
                0 <= k < i && n > 0 ==> forall|j: int|
                    0 <= j < (#[trigger] all@[k]).1@.len() ==> is_standard_of_shape(#[trigger] all@[k].1@[j]@, all@[k].0@),
            forall|k: int| 0 <= k < i && n == 0 ==> (#[trigger] all@[k]).1@.len() == 1 && all@[k].1@[0]@ == Seq::<Seq<u32>>::empty(),
            forall|k: int|
                0 <= k < i && n > 0 ==> forall|t: Seq<Seq<u32>>|
                    #[trigger] is_standard_of_shape(t, (#[trigger] all@[k]).0@) ==> found_in(all@[k].1@, 0, t),
            forall|k: int|
                0 <= k < i ==> forall|a: int, b: int|
                    0 <= a < b < (#[trigger] all@[k]).1@.len() ==> #[trigger] all@[k].1@[a]@ != #[trigger] all@[k].1@[b]@,
            forall|k: int|
                0 <= k < i && n > 0 ==> forall|a: int, b: int|
                    0 <= a < b < (#[trigger] all@[k]).1@.len() ==> generated_before(#[trigger] all@[k].1@[a]@, #[trigger] all@[k].1@[b]@, 1),
        decreases partitions@.len() - i,
    {
        let parts = partitions[i].0.clone();
        assert(parts@ =~= partitions@[i as int]@);
        assert(partitions@[i as int]@ == ps[i as int]);
        let p = Partition::new(parts);
        let syts = generate_standard(p.0.as_slice());
        all.push((p, syts));
        i += 1;
    }
    all
}

/// All partitions of `rem` whose parts are at most `bound`, in decreasing
/// lexicographic order: first those starting with the largest allowed part.
pub open spec fn partitions_upto(rem: nat, bound: nat) -> Seq<Seq<usize>>
    decreases rem, bound,
{
    if rem == 0 {
        seq![Seq::<usize>::empty()]
    } else if bound == 0 {
        Seq::empty()
    } else if bound > rem {
        partitions_upto(rem, rem)
    } else {
        with_prefix(seq![bound as usize], partitions_upto((rem - bound) as nat, bound)) + partitions_upto(
            rem,
            (bound - 1) as nat,
        )
    }
}

/// Each sequence of `qs` with `prefix` in front.
pub open spec fn with_prefix(prefix: Seq<usize>, qs: Seq<Seq<usize>>) -> Seq<Seq<usize>> {
    qs.map_values(|q: Seq<usize>| prefix + q)
}

/// The parts of each partition.
pub open spec fn partition_views(ps: Seq<Partition>) -> Seq<Seq<usize>> {
    ps.map_values(|p: Partition| p@)
}

/// Every listed sequence is a partition of `rem` with parts at most `bound`.
/// Every partition of `rem` with parts at most `bound` is listed.
pub proof fn lemma_partitions_upto_complete(rem: nat, bound: nat, q: Seq<usize>)
    requires
        is_partition_of(q, rem, bound),
    ensures
        partitions_upto(rem, bound).contains(q),
    decreases rem, bound,
{
    let ps = partitions_upto(rem, bound);
    if q.len() > 0 {
        let rest = q.drop_first();
        assert(seq![q[0]] + rest =~= q);
        lemma_parts_sum_prepend(q[0], rest);
    }
    if rem == 0 {
        if q.len() > 0 {
            assert(q[0] >= 1);
        }
        assert(q =~= Seq::<usize>::empty());
        assert(ps[0] == q);
    } else if bound == 0 {
        if q.len() > 0 {
            assert(1 <= q[0] <= bound);
        }
    } else if bound > rem {
        assert forall|i: int| 0 <= i < q.len() implies 1 <= #[trigger] q[i] <= rem by {
            if i > 0 {
                assert(q[i] <= q[0]);
            }
        }
        lemma_partitions_upto_complete(rem, rem, q);
    } else {
        let head = partitions_upto((rem - bound) as nat, bound);
        let left = with_prefix(seq![bound as usize], head);
        let right = partitions_upto(rem, (bound - 1) as nat);
        assert(ps == left + right);
        assert(q.len() > 0);
        let rest = q.drop_first();
        if q[0] == bound {
            assert(is_partition_of(rest, (rem - bound) as nat, bound)) by {
                assert forall|i: int, j: int| 0 <= i < j < rest.len() implies #[trigger] rest[j] <= #[trigger] rest[i] by {
                    assert(q[j + 1] <= q[i + 1]);
                }
                assert forall|i: int| 0 <= i < rest.len() implies 1 <= #[trigger] rest[i] <= bound by {
                    assert(q[i + 1] <= bound);
                }
            }
            lemma_partitions_upto_complete((rem - bound) as nat, bound, rest);
            let k = choose|k: int| 0 <= k < head.len() && head[k] == rest;
            assert(left[k] == seq![bound as usize] + rest);
            assert(ps[k] == q);
        } else {
            assert forall|i: int| 0 <= i < q.len() implies 1 <= #[trigger] q[i] <= bound - 1 by {
                if i > 0 {
                    assert(q[i] <= q[0]);
                }
            }
            lemma_partitions_upto_complete(rem, (bound - 1) as nat, q);
            let k = choose|k: int| 0 <= k < right.len() && right[k] == q;
            assert(ps[left.len() + k] == q);
        }
    }
}

/// No partition is listed twice.
pub proof fn lemma_partitions_upto_distinct(rem: nat, bound: nat)
    requires
        bound <= usize::MAX,
    ensures
        partitions_upto(rem, bound).no_duplicates(),
    decreases rem, bound,
{
    let ps = partitions_upto(rem, bound);
    if rem == 0 || bound == 0 {
    } else if bound > rem {
        lemma_partitions_upto_distinct(rem, rem);
    } else {
        let head = partitions_upto((rem - bound) as nat, bound);
        let left = with_prefix(seq![bound as usize], head);
        let right = partitions_upto(rem, (bound - 1) as nat);
        lemma_partitions_upto_distinct((rem - bound) as nat, bound);
        lemma_partitions_upto_distinct(rem, (bound - 1) as nat);
        lemma_partitions_upto_sound(rem, (bound - 1) as nat);
        assert forall|i: int, j: int| 0 <= i < ps.len() && 0 <= j < ps.len() && i != j implies ps[i] != ps[j] by {
            if i < left.len() && j < left.len() {
                assert(head[i] != head[j]);
                assert(ps[i] == seq![bound as usize] + head[i]);
                assert(ps[j] == seq![bound as usize] + head[j]);
                assert(ps[i].drop_first() =~= head[i]);
                assert(ps[j].drop_first() =~= head[j]);
            } else if i >= left.len() && j >= left.len() {
                assert(right[i - left.len()] != right[j - left.len()]);
            } else {
                let (a, b) = if i < left.len() { (i, j) } else { (j, i) };
                let pb = right[b - left.len()];
                assert(is_partition_of(pb, rem, (bound - 1) as nat));
                if pb.len() == 0 {
                    assert(parts_sum(pb) == 0);
                } else {
                    assert(pb[0] <= bound - 1);
                    assert(ps[a][0] == bound);
                }
            }
        }
    }
}

pub proof fn lemma_partitions_upto_sound(rem: nat, bound: nat)
    requires
        bound <= usize::MAX,
    ensures
        forall|k: int| 0 <= k < partitions_upto(rem, bound).len() ==> is_partition_of(
            #[trigger] partitions_upto(rem, bound)[k],
            rem,
            bound,
        ),
    decreases rem, bound,
{
    let ps = partitions_upto(rem, bound);
    if rem == 0 {
        assert(parts_sum(Seq::<usize>::empty()) == 0);
        assert(is_partition_of(ps[0], rem, bound));
    } else if bound == 0 {
    } else if bound > rem {
        lemma_partitions_upto_sound(rem, rem);
        assert forall|k: int| 0 <= k < ps.len() implies is_partition_of(#[trigger] ps[k], rem, bound) by {
            assert(is_partition_of(partitions_upto(rem, rem)[k], rem, rem));
        }
    } else {
        let head = partitions_upto((rem - bound) as nat, bound);
        lemma_partitions_upto_sound((rem - bound) as nat, bound);
        lemma_partitions_upto_sound(rem, (bound - 1) as nat);
        let left = with_prefix(seq![bound as usize], head);
        assert forall|k: int| 0 <= k < ps.len() implies is_partition_of(#[trigger] ps[k], rem, bound) by {
            if k < left.len() {
                let q = head[k];
                assert(is_partition_of(q, (rem - bound) as nat, bound));
                let p = seq![bound as usize] + q;
                assert(ps[k] == p);
                assert(p[0] == bound);
                lemma_parts_sum_prepend(bound as usize, q);
                assert forall|i: int, j: int| 0 <= i < j < p.len() implies #[trigger] p[j] <= #[trigger] p[i] by {
                    if i == 0 {
                        assert(p[j] == q[j - 1]);
                    } else {
                        assert(q[j - 1] <= q[i - 1]);
                    }
                }
                assert forall|i: int| 0 <= i < p.len() implies 1 <= #[trigger] p[i] <= bound by {
                    if i > 0 {
                        assert(p[i] == q[i - 1]);
                    }
                }
            } else {
                assert(ps[k] == partitions_upto(rem, (bound - 1) as nat)[k - left.len()]);
            }
        }
    }
}

fn partition_helper(remaining: usize, max_part: usize, current: &mut Vec<usize>, result: &mut Vec<Partition>)
    ensures
        final(current)@ == old(current)@,
        partition_views(final(result)@) == partition_views(old(result)@) + with_prefix(
            old(current)@,
            partitions_upto(remaining as nat, max_part as nat),
        ),
    decreases remaining,
{
    if remaining == 0 {
        let copy = current.clone();
        assert(copy@ =~= current@);
        let ghost r0 = result@;
        result.push(Partition::new(copy));
        proof {
            assert(current@ + Seq::<usize>::empty() =~= current@);
            assert(partition_views(result@) =~= partition_views(r0) + with_prefix(current@, partitions_upto(0, max_part as nat)));
        }
        return;
    }
    let start = if max_part < remaining { max_part } else { remaining };
    let ghost cur = current@;
    let ghost r0 = partition_views(result@);
    assert(partitions_upto(remaining as nat, max_part as nat) == partitions_upto(remaining as nat, start as nat));
    let mut part: usize = start;
    while part >= 1
        invariant
            1 <= remaining,
            part <= start <= remaining,
            current@ == cur,
            partition_views(result@) + with_prefix(cur, partitions_upto(remaining as nat, part as nat)) == r0 + with_prefix(
                cur,
                partitions_upto(remaining as nat, start as nat),
            ),
        decreases part,
    {
        let ghost before = partition_views(result@);
        current.push(part);
        partition_helper(remaining - part, part, current, result);
        current.pop();
        proof {
            assert(current@ =~= cur);
            let head = partitions_upto((remaining - part) as nat, part as nat);
            let tail = partitions_upto(remaining as nat, (part - 1) as nat);
            assert(partitions_upto(remaining as nat, part as nat) == with_prefix(seq![part], head) + tail);
            assert(with_prefix(cur.push(part), head) =~= with_prefix(cur, with_prefix(seq![part], head))) by {
                assert forall|k: int| 0 <= k < head.len() implies #[trigger] with_prefix(cur.push(part), head)[k] == with_prefix(cur, with_prefix(seq![part], head))[k] by {
                    assert(cur.push(part) + head[k] =~= cur + (seq![part] + head[k]));
                }
            }
            assert(with_prefix(cur, with_prefix(seq![part], head) + tail) =~= with_prefix(cur, with_prefix(seq![part], head)) + with_prefix(cur, tail));
            assert(partition_views(result@) + with_prefix(cur, tail) =~= before + with_prefix(cur, partitions_upto(remaining as nat, part as nat)));
        }
        part -= 1;
    }
    assert(partitions_upto(remaining as nat, 0) =~= Seq::<Seq<usize>>::empty());
    assert(with_prefix(cur, Seq::<Seq<usize>>::empty()) =~= Seq::<Seq<usize>>::empty());
    assert(partition_views(result@) + Seq::<Seq<usize>>::empty() =~= partition_views(result@));
}

/// Generate all integer partitions of n, in decreasing lexicographic order.
pub fn generate_partitions(n: usize) -> (ps: Vec<Partition>)
    ensures
        partition_views(ps@) == partitions_upto(n as nat, n as nat),
        forall|k: int| 0 <= k < ps@.len() ==> is_partition_of(#[trigger] ps@[k]@, n as nat, n as nat),
        forall|q: Seq<usize>| #[trigger] is_partition_of(q, n as nat, n as nat) ==> partition_views(ps@).contains(q),
        partition_views(ps@).no_duplicates(),
{
    proof {
        lemma_partitions_upto_sound(n as nat, n as nat);
        lemma_partitions_upto_distinct(n as nat, n as nat);
        assert forall|q: Seq<usize>| #[trigger] is_partition_of(q, n as nat, n as nat) implies partitions_upto(n as nat, n as nat).contains(q) by {
            lemma_partitions_upto_complete(n as nat, n as nat, q);
        }
    }
    if n == 0 {
        let mut v: Vec<Partition> = Vec::new();
        v.push(Partition::new(Vec::new()));
        assert(partition_views(v@) =~= partitions_upto(0, 0));
        assert(partition_views(v@)[0] == v@[0]@);
        return v;
    }
    let mut result: Vec<Partition> = Vec::new();
    let mut current: Vec<usize> = Vec::new();
    partition_helper(n, n, &mut current, &mut result);
    assert(with_prefix(Seq::<usize>::empty(), partitions_upto(n as nat, n as nat)) =~= partitions_upto(n as nat, n as nat)) by {
        assert forall|k: int| 0 <= k < partitions_upto(n as nat, n as nat).len() implies #[trigger] with_prefix(Seq::<usize>::empty(), partitions_upto(n as nat, n as nat))[k] == partitions_upto(n as nat, n as nat)[k] by {
            assert(Seq::<usize>::empty() + partitions_upto(n as nat, n as nat)[k] =~= partitions_upto(n as nat, n as nat)[k]);
        }
    }
    assert(partition_views(Seq::<Partition>::empty()) =~= Seq::<Seq<usize>>::empty());
    assert(Seq::<Seq<usize>>::empty() + partitions_upto(n as nat, n as nat) =~= partitions_upto(n as nat, n as nat));
    assert forall|k: int| 0 <= k < result@.len() implies is_partition_of(#[trigger] result@[k]@, n as nat, n as nat) by {
        assert(partition_views(result@)[k] == result@[k]@);
    }
    result
}

} // verus!
