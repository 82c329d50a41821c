//! Schur polynomials at `(1, 1, …, 1)`: counting semistandard Young tableaux
//! of a shape with entries from `{1, …, k}`.
use vstd::prelude::*;
use crate::tableau::{YoungTableau, is_cell, is_semistandard_spec};
use crate::insertion::copy_rows;

verus! {

// ---------------------------------------------------------------------------
// Specifications
// ---------------------------------------------------------------------------

/// Value `v` may go in cell `(r, c)` of a filling made in reading order:
/// not below its left neighbour, and above the entry over it (if any).
pub open spec fn fits(t: Seq<Seq<u32>>, r: int, c: int, v: int) -> bool {
    &&& c == 0 || t[r][c - 1] <= v
    &&& r == 0 || c >= t[r - 1].len() || t[r - 1][c] < v
}

/// Number of ways to complete a filling of `shape` with entries in `1..=k`,
/// rows weakly increasing and columns strictly increasing, whose cells before
/// `(r, c)` in reading order are filled as in `t`.
pub open spec fn fillings_from(shape: Seq<usize>, k: nat, t: Seq<Seq<u32>>, r: int, c: int) -> nat
    decreases shape.len() - r, shape[r] - c, k + 2,
{
    if r < 0 || r >= shape.len() || c < 0 {
        1
    } else if c >= shape[r] {
        fillings_from(shape, k, t, r + 1, 0)
    } else {
        fillings_with_values(shape, k, t, r, c, 1)
    }
}

/// The part of `fillings_from(shape, k, t, r, c)` with value at least `v` in cell `(r, c)`.
pub open spec fn fillings_with_values(shape: Seq<usize>, k: nat, t: Seq<Seq<u32>>, r: int, c: int, v: int) -> nat
    decreases shape.len() - r, shape[r] - c, k + 1 - v,
{
    if r < 0 || r >= shape.len() || c < 0 || c >= shape[r] || v < 1 || v > k {
        0
    } else {
        (if fits(t, r, c, v) {
            fillings_from(shape, k, t.update(r, t[r].update(c, v as u32)), r, c + 1)
        } else {
            0
        }) + fillings_with_values(shape, k, t, r, c, v + 1)
    }
}

/// Number of semistandard tableaux of `shape` with entries in `1..=k`.
pub open spec fn ssyt_count(shape: Seq<usize>, k: nat) -> nat {
    fillings_from(shape, k, Seq::new(shape.len(), |r: int| Seq::new(shape[r] as nat, |c: int| 0u32)), 0, 0)
}

/// `t` has the cells of `shape`; the cells before `(r, c)` in reading order
/// hold entries of at least 1 and the others are still 0.
pub open spec fn filled_before(shape: Seq<usize>, t: Seq<Seq<u32>>, r: int, c: int) -> bool {
    &&& t.len() == shape.len()
    &&& forall|i: int| 0 <= i < t.len() ==> #[trigger] t[i].len() == shape[i]
    &&& forall|i: int, j: int| 0 <= i < t.len() && 0 <= j < t[i].len() ==>
        (if i < r || (i == r && j < c) { 1 <= #[trigger] t[i][j] } else { t[i][j] == 0 })
}

/// `t` is a semistandard filling of `shape` with entries in `1..=k`.
pub open spec fn is_ssyt_of(t: Seq<Seq<u32>>, shape: Seq<usize>, k: nat) -> bool {
    &&& t.len() == shape.len()
    &&& forall|r: int| 0 <= r < t.len() ==> #[trigger] t[r].len() == shape[r]
    &&& forall|r: int, c: int| is_cell(t, r, c) ==> 1 <= #[trigger] t[r][c] <= k
    &&& is_semistandard_spec(t)
}

/// `t` has the cells of `p` and agrees with it on the cells before `(r, c)`
/// in reading order.
pub open spec fn agrees_before(t: Seq<Seq<u32>>, p: Seq<Seq<u32>>, r: int, c: int) -> bool {
    &&& t.len() == p.len()
    &&& forall|i: int| 0 <= i < t.len() ==> #[trigger] t[i].len() == p[i].len()
    &&& forall|i: int, j: int| is_cell(p, i, j) && (i < r || (i == r && j < c)) ==> #[trigger] t[i][j] == p[i][j]
}

/// Each cell before `(r, c)` in reading order is at least its left neighbour
/// and greater than the entry above it.
pub open spec fn fits_so_far(t: Seq<Seq<u32>>, r: int, c: int) -> bool {
    forall|i: int, j: int| is_cell(t, i, j) && (i < r || (i == r && j < c)) ==> fits(t, i, j, #[trigger] t[i][j] as int)
}

/// Some tableau of `ts` from position `from` on has the entries `t`.
pub open spec fn listed_in(ts: Seq<YoungTableau>, from: int, t: Seq<Seq<u32>>) -> bool {
    exists|i: int| from <= i < ts.len() && (#[trigger] ts[i])@ == t
}

// ---------------------------------------------------------------------------
// Lemmas
// ---------------------------------------------------------------------------

/// Values that do not fit contribute nothing.
proof fn lemma_skip_unfit(shape: Seq<usize>, k: nat, t: Seq<Seq<u32>>, r: int, c: int, v: int, m: int)
    requires
        0 <= r < shape.len(),
        0 <= c < shape[r],
        1 <= v <= m,
        forall|u: int| v <= u < m ==> !#[trigger] fits(t, r, c, u),
    ensures
        fillings_with_values(shape, k, t, r, c, v) == fillings_with_values(shape, k, t, r, c, m),
    decreases m - v,
{
    if v < m {
        assert(!fits(t, r, c, v));
        lemma_skip_unfit(shape, k, t, r, c, v + 1, m);
    }
}

/// Past the largest value nothing is left.
proof fn lemma_values_exhausted(shape: Seq<usize>, k: nat, t: Seq<Seq<u32>>, r: int, c: int, v: int)
    requires
        v > k,
    ensures
        fillings_with_values(shape, k, t, r, c, v) == 0,
{
}

/// Entries of a row in which each cell is at least its left neighbour never decrease.
proof fn lemma_row_weak_chain(t: Seq<Seq<u32>>, r: int, i: int, j: int)
    requires
        0 <= r < t.len(),
        0 <= i <= j < t[r].len(),
        forall|b: int| 0 < b < t[r].len() ==> #[trigger] t[r][b - 1] <= t[r][b],
    ensures
        t[r][i] <= t[r][j],
    decreases j - i,
{
    if i < j {
        assert(t[r][j - 1] <= t[r][j]);
        lemma_row_weak_chain(t, r, i, j - 1);
    }
}

/// A complete filling whose cells all fit is semistandard.
proof fn lemma_complete_ssyt(t: Seq<Seq<u32>>, shape: Seq<usize>, k: nat)
    requires
        filled_before(shape, t, shape.len() as int, 0),
        fits_so_far(t, shape.len() as int, 0),
        forall|i: int, j: int| is_cell(t, i, j) ==> #[trigger] t[i][j] <= k,
    ensures
        is_ssyt_of(t, shape, k),
{
    assert forall|r: int, i: int, j: int| 0 <= r < t.len() && 0 <= i < j < t[r].len() implies #[trigger] t[r][i] <= #[trigger] t[r][j] by {
        assert forall|b: int| 0 < b < t[r].len() implies #[trigger] t[r][b - 1] <= t[r][b] by {
            assert(fits(t, r, b, t[r][b] as int));
        }
        lemma_row_weak_chain(t, r, i, j);
    }
    assert forall|r: int, s: int, c: int|
        0 <= r && s == r + 1 && s < t.len() && 0 <= c < t[r].len() && c < t[s].len() implies #[trigger] t[r][c] < #[trigger] t[s][c] by {
        assert(fits(t, s, c, t[s][c] as int));
    }
    assert forall|r: int, c: int| is_cell(t, r, c) implies 1 <= #[trigger] t[r][c] <= k by {}
}

/// The value a semistandard tableau has in a cell fits the partial filling it agrees with.
proof fn lemma_ssyt_fits(t: Seq<Seq<u32>>, p: Seq<Seq<u32>>, shape: Seq<usize>, k: nat, r: int, c: int)
    requires
        is_ssyt_of(t, shape, k),
        agrees_before(t, p, r, c),
        is_cell(p, r, c),
    ensures
        fits(p, r, c, t[r][c] as int),
{
    if c > 0 {
        assert(t[r][c - 1] <= t[r][c]);
        assert(p[r][c - 1] == t[r][c - 1]);
    }
    if r > 0 && c < p[r - 1].len() {
        assert(t[r - 1][c] < t[r][c]);
        assert(p[r - 1][c] == t[r - 1][c]);
    }
}

// ---------------------------------------------------------------------------
// Executable functions
// ---------------------------------------------------------------------------

/// Check the local constraints around cell `(row, col)` after it was set.
/// Zeros stand for unfilled cells and are ignored.
fn is_valid_after_set(tableau: &YoungTableau, row: usize, col: usize) -> (ok: bool)
    ensures
        ok == {
            let t = tableau@;
            let val = t[row as int][col as int];
            !is_cell(t, row as int, col as int) || val == 0 || (
                (col == 0 || !is_cell(t, row as int, col - 1) || t[row as int][col - 1] == 0
                    || t[row as int][col - 1] <= val)
                && (row == 0 || !is_cell(t, row - 1, col as int) || t[row - 1][col as int] == 0
                    || t[row - 1][col as int] < val)
                && (!is_cell(t, row as int, col + 1) || t[row as int][col + 1] == 0
                    || val <= t[row as int][col + 1])
                && (!is_cell(t, row + 1, col as int) || t[row + 1][col as int] == 0
                    || val < t[row + 1][col as int])
            )
        },
{
    let val = match tableau.get(row, col) {
        Some(v) => {
            if v > 0 {
                v
            } else {
                return true;
            }
        },
        None => {
            return true;
        },
    };
    if col > 0 {
        if let Some(left) = tableau.get(row, col - 1) {
            if left > 0 && val < left {
                return false;
            }
        }
    }
    if row > 0 {
        if let Some(above) = tableau.get(row - 1, col) {
            if above > 0 && val <= above {
                return false;
            }
        }
    }
    proof {
        assert(tableau@.len() == tableau.rows@.len());
        assert(tableau.rows@.len() == tableau.rows.len());
        if row < tableau.rows@.len() {
            assert(tableau@[row as int].len() == tableau.rows@[row as int]@.len());
            assert(tableau.rows@[row as int]@.len() == tableau.rows@[row as int].len());
        }
    }
    if col < usize::MAX {
        if let Some(right) = tableau.get(row, col + 1) {
            if right > 0 && val > right {
                return false;
            }
        }
    }
    if row < usize::MAX {
        if let Some(below) = tableau.get(row + 1, col) {
            if below > 0 && val >= below {
                return false;
            }
        }
    }
    true
}

/// Count the completions of a partial filling, cell by cell in reading order.
fn count_fillings(tableau: &mut YoungTableau, shape: &[usize], row: usize, col: usize, max_entry: u32) -> (n: u64)
    requires
        row <= shape@.len(),
        row < shape@.len() ==> col <= shape@[row as int],
        row == shape@.len() ==> col == 0,
        filled_before(shape@, old(tableau)@, row as int, col as int),
        fillings_from(shape@, max_entry as nat, old(tableau)@, row as int, col as int) <= u64::MAX,
        forall|i: int, j: int| is_cell(old(tableau)@, i, j) && (i < row || (i == row && j < col))
            ==> #[trigger] old(tableau)@[i][j] <= max_entry,
    ensures
        final(tableau)@ == old(tableau)@,
        n == fillings_from(shape@, max_entry as nat, old(tableau)@, row as int, col as int),
    decreases shape@.len() - row, (if row < shape@.len() { shape@[row as int] - col } else { 0 }),
{
    if row >= shape.len() {
        return 1;
    }
    if col >= shape[row] {
        return count_fillings(tableau, shape, row + 1, 0, max_entry);
    }
    let ghost t0 = tableau@;
    let ghost k = max_entry as nat;
    let mut min_val: u64 = if col == 0 {
        1
    } else {
        match tableau.get(row, col - 1) {
            Some(v) => v as u64,
            None => 1,
        }
    };
    if row > 0 {
        let above: u64 = match tableau.get(row - 1, col) {
            Some(v) => v as u64,
            None => 0,
        };
        if above != 0 && above + 1 > min_val {
            min_val = above + 1;
        }
    }
    proof {
        assert forall|u: int| 1 <= u < min_val implies !#[trigger] fits(t0, row as int, col as int, u) by {
            if col > 0 && u < t0[row as int][col - 1] {
            } else {
                assert(row > 0 && (col as int) < t0[row - 1].len() && u <= t0[row - 1][col as int]);
            }
        }
        lemma_skip_unfit(shape@, k, t0, row as int, col as int, 1, min_val as int);
    }
    let mut total: u64 = 0;
    let mut val: u64 = min_val;
    while val <= max_entry as u64
        invariant
            tableau@ == t0,
            row < shape@.len(),
            col < shape@[row as int],
            1 <= min_val <= val,
            val <= max_entry as u64 + 1,
            k == max_entry as nat,
            filled_before(shape@, t0, row as int, col as int),
            forall|i: int, j: int| is_cell(t0, i, j) && (i < row || (i == row && j < col))
                ==> #[trigger] t0[i][j] <= max_entry,
            fillings_from(shape@, k, t0, row as int, col as int) <= u64::MAX,
            total + fillings_with_values(shape@, k, t0, row as int, col as int, val as int)
                == fillings_from(shape@, k, t0, row as int, col as int),
        decreases max_entry as u64 + 1 - val,
    {
        let v32: u32 = val as u32;
        tableau.set(row, col, v32);
        let ghost t1 = tableau@;
        assert(t1 == t0.update(row as int, t0[row as int].update(col as int, v32)));
        let ok = is_valid_after_set(tableau, row, col);
        proof {
            assert(t1[row as int][col as int] == v32);
            if col > 0 {
                assert(t1[row as int][col - 1] == t0[row as int][col - 1]);
            }
            if row > 0 && (col as int) < t0[row - 1].len() {
                assert(t1[row - 1][col as int] == t0[row - 1][col as int]);
            }
            if is_cell(t1, row as int, col + 1) {
                assert(t1[row as int][col + 1] == t0[row as int][col + 1]);
            }
            if is_cell(t1, row + 1, col as int) {
                assert(t1[row + 1][col as int] == t0[row + 1][col as int]);
            }
            assert(ok == fits(t0, row as int, col as int, val as int));
        }
        if ok {
            proof {
                assert forall|i: int, j: int| 0 <= i < t1.len() && 0 <= j < t1[i].len() implies
                    (if i < row || (i == row && j < col + 1) { 1 <= #[trigger] t1[i][j] } else { t1[i][j] == 0 }) by {
                    if i == row && j == col {
                    } else {
                        assert(t1[i][j] == t0[i][j]);
                    }
                }
                assert forall|i: int, j: int| is_cell(t1, i, j) && (i < row || (i == row && j < col + 1))
                    implies #[trigger] t1[i][j] <= max_entry by {
                    if i == row && j == col {
                    } else {
                        assert(t1[i][j] == t0[i][j]);
                    }
                }
            }
            let sub = count_fillings(tableau, shape, row, col + 1, max_entry);
            total = total + sub;
        }
        tableau.set(row, col, 0);
        proof {
            assert(t0[row as int][col as int] == 0);
            assert(tableau@[row as int] =~= t0[row as int]);
            assert(tableau@ =~= t0);
        }
        val = val + 1;
    }
    proof {
        lemma_values_exhausted(shape@, k, t0, row as int, col as int, val as int);
    }
    total
}

/// Append to `results` every completion of the partial filling, cell by cell
/// in reading order, each value tried in increasing order.
fn collect_fillings(
    tableau: &mut YoungTableau,
    shape: &[usize],
    row: usize,
    col: usize,
    max_entry: u32,
    results: &mut Vec<YoungTableau>,
)
    requires
        row <= shape@.len(),
        row < shape@.len() ==> col <= shape@[row as int],
        row == shape@.len() ==> col == 0,
        filled_before(shape@, old(tableau)@, row as int, col as int),
        fits_so_far(old(tableau)@, row as int, col as int),
        forall|i: int, j: int| is_cell(old(tableau)@, i, j) && (i < row || (i == row && j < col))
            ==> #[trigger] old(tableau)@[i][j] <= max_entry,
    ensures
        final(tableau)@ == old(tableau)@,
        final(results)@.len() == old(results)@.len() + fillings_from(shape@, max_entry as nat, old(tableau)@, row as int, col as int),
        forall|i: int| 0 <= i < old(results)@.len() ==> #[trigger] final(results)@[i] == old(results)@[i],
        forall|i: int| old(results)@.len() <= i < final(results)@.len() ==> is_ssyt_of(#[trigger] final(results)@[i]@, shape@, max_entry as nat)
            && agrees_before(final(results)@[i]@, old(tableau)@, row as int, col as int),
        forall|i: int, j: int| old(results)@.len() <= i < j < final(results)@.len() ==> #[trigger] final(results)@[i]@ != #[trigger] final(results)@[j]@,
        forall|t: Seq<Seq<u32>>| is_ssyt_of(t, shape@, max_entry as nat) && #[trigger] agrees_before(t, old(tableau)@, row as int, col as int)
            ==> listed_in(final(results)@, old(results)@.len() as int, t),
    decreases shape@.len() - row, (if row < shape@.len() { shape@[row as int] - col } else { 0 }),
{
    let ghost t0 = tableau@;
    let ghost r0 = results@;
    if row >= shape.len() {
        proof {
            lemma_complete_ssyt(t0, shape@, max_entry as nat);
        }
        let copy = YoungTableau::from_rows(copy_rows(&tableau.rows));
        results.push(copy);
        proof {
            assert(results@[r0.len() as int]@ == t0);
            assert(agrees_before(t0, t0, row as int, col as int));
            assert forall|t: Seq<Seq<u32>>| is_ssyt_of(t, shape@, max_entry as nat) && #[trigger] agrees_before(t, t0, row as int, col as int)
                implies listed_in(results@, r0.len() as int, t) by {
                assert forall|i: int| 0 <= i < t.len() implies #[trigger] t[i] =~= t0[i] by {
                    assert forall|j: int| 0 <= j < t[i].len() implies t[i][j] == t0[i][j] by {
                        assert(is_cell(t0, i, j));
                    }
                }
                assert(t =~= t0);
                assert(results@[r0.len() as int]@ == t);
            }
        }
        return;
    }
    if col >= shape[row] {
        collect_fillings(tableau, shape, row + 1, 0, max_entry, results);
        proof {
            assert forall|t: Seq<Seq<u32>>| #[trigger] agrees_before(t, t0, row as int, col as int)
                <==> agrees_before(t, t0, row + 1, 0) by {
                if agrees_before(t, t0, row as int, col as int) {
                    assert forall|i: int, j: int| is_cell(t0, i, j) && (i < row + 1 || (i == row + 1 && j < 0)) implies #[trigger] t[i][j] == t0[i][j] by {
                        if i == row {
                            assert(t0[i].len() == shape@[i]);
                        }
                    }
                }
            }
        }
        return;
    }
    let ghost k = max_entry as nat;
    let mut min_val: u64 = if col == 0 {
        1
    } else {
        match tableau.get(row, col - 1) {
            Some(v) => v as u64,
            None => 1,
        }
    };
    if row > 0 {
        let above: u64 = match tableau.get(row - 1, col) {
            Some(v) => v as u64,
            None => 0,
        };
        if above != 0 && above + 1 > min_val {
            min_val = above + 1;
        }
    }
    proof {
        assert forall|u: int| 1 <= u < min_val implies !#[trigger] fits(t0, row as int, col as int, u) by {
            if col > 0 && u < t0[row as int][col - 1] {
            } else {
                assert(row > 0 && (col as int) < t0[row - 1].len() && u <= t0[row - 1][col as int]);
            }
        }
        lemma_skip_unfit(shape@, k, t0, row as int, col as int, 1, min_val as int);
        assert(t0[row as int][col as int] == 0);
        assert forall|t: Seq<Seq<u32>>| is_ssyt_of(t, shape@, k) && #[trigger] agrees_before(t, t0, row as int, col as int)
            && t[row as int][col as int] < min_val implies listed_in(results@, r0.len() as int, t) by {
            assert(is_cell(t, row as int, col as int));
            lemma_ssyt_fits(t, t0, shape@, k, row as int, col as int);
        }
    }
    let mut val: u64 = min_val;
    while val <= max_entry as u64
        invariant
            tableau@ == t0,
            row < shape@.len(),
            col < shape@[row as int],
            1 <= min_val <= val,
            val <= max_entry as u64 + 1,
            k == max_entry as nat,
            filled_before(shape@, t0, row as int, col as int),
            fits_so_far(t0, row as int, col as int),
            t0[row as int][col as int] == 0,
            forall|u: int| 1 <= u < min_val ==> !#[trigger] fits(t0, row as int, col as int, u),
            forall|i: int, j: int| is_cell(t0, i, j) && (i < row || (i == row && j < col))
                ==> #[trigger] t0[i][j] <= max_entry,
            r0.len() <= results@.len(),
            results@.len() - r0.len() + fillings_with_values(shape@, k, t0, row as int, col as int, val as int)
                == fillings_from(shape@, k, t0, row as int, col as int),
            forall|i: int| 0 <= i < r0.len() ==> #[trigger] results@[i] == r0[i],
            forall|i: int| r0.len() <= i < results@.len() ==> is_ssyt_of(#[trigger] results@[i]@, shape@, k)
                && agrees_before(results@[i]@, t0, row as int, col as int)
                && results@[i]@[row as int][col as int] < val,
            forall|i: int, j: int| r0.len() <= i < j < results@.len() ==> #[trigger] results@[i]@ != #[trigger] results@[j]@,
            forall|t: Seq<Seq<u32>>| is_ssyt_of(t, shape@, k) && #[trigger] agrees_before(t, t0, row as int, col as int)
                && t[row as int][col as int] < val ==> listed_in(results@, r0.len() as int, t),
        decreases max_entry as u64 + 1 - val,
    {
        let v32: u32 = val as u32;
        tableau.set(row, col, v32);
        let ghost t1 = tableau@;
        assert(t1 == t0.update(row as int, t0[row as int].update(col as int, v32)));
        let ok = is_valid_after_set(tableau, row, col);
        proof {
            assert(t1[row as int][col as int] == v32);
            if col > 0 {
                assert(t1[row as int][col - 1] == t0[row as int][col - 1]);
            }
            if row > 0 && (col as int) < t0[row - 1].len() {
                assert(t1[row - 1][col as int] == t0[row - 1][col as int]);
            }
            if is_cell(t1, row as int, col + 1) {
                assert(t1[row as int][col + 1] == t0[row as int][col + 1]);
            }
            if is_cell(t1, row + 1, col as int) {
                assert(t1[row + 1][col as int] == t0[row + 1][col as int]);
            }
            assert(ok == fits(t0, row as int, col as int, val as int));
        }
        let ghost mid = results@;
        if ok {
            proof {
                assert forall|i: int, j: int| 0 <= i < t1.len() && 0 <= j < t1[i].len() implies
                    (if i < row || (i == row && j < col + 1) { 1 <= #[trigger] t1[i][j] } else { t1[i][j] == 0 }) by {
                    if i == row && j == col {
                    } else {
                        assert(t1[i][j] == t0[i][j]);
                    }
                }
                assert forall|i: int, j: int| is_cell(t1, i, j) && (i < row || (i == row && j < col + 1))
                    implies #[trigger] t1[i][j] <= max_entry by {
                    if i == row && j == col {
                    } else {
                        assert(t1[i][j] == t0[i][j]);
                    }
                }
                assert forall|i: int, j: int| is_cell(t1, i, j) && (i < row || (i == row && j < col + 1))
                    implies fits(t1, i, j, #[trigger] t1[i][j] as int) by {
                    if i == row && j == col {
                        assert(fits(t0, i, j, val as int));
                        if j > 0 {
                            assert(t1[i][j - 1] == t0[i][j - 1]);
                        }
                        if i > 0 && j < t1[i - 1].len() {
                            assert(t1[i - 1][j] == t0[i - 1][j]);
                        }
                    } else {
                        assert(t1[i][j] == t0[i][j]);
                        assert(fits(t0, i, j, t0[i][j] as int));
                        if j > 0 {
                            assert(t1[i][j - 1] == t0[i][j - 1]);
                        }
                        if i > 0 && j < t1[i - 1].len() {
                            assert(t1[i - 1][j] == t0[i - 1][j]);
                        }
                    }
                }
            }
            collect_fillings(tableau, shape, row, col + 1, max_entry, results);
        }
        tableau.set(row, col, 0);
        proof {
            assert(tableau@[row as int] =~= t0[row as int]);
            assert(tableau@ =~= t0);
            if ok {
                assert forall|i: int| 0 <= i < r0.len() implies #[trigger] results@[i] == r0[i] by {
                    assert(results@[i] == mid[i]);
                }
                assert forall|i: int| mid.len() <= i < results@.len() implies
                    agrees_before(#[trigger] results@[i]@, t0, row as int, col as int)
                        && results@[i]@[row as int][col as int] == val by {
                    let ti = results@[i]@;
                    assert(agrees_before(ti, t1, row as int, col + 1));
                    assert(is_cell(t1, row as int, col as int));
                    assert(ti[row as int][col as int] == t1[row as int][col as int]);
                    assert forall|a: int, b: int| is_cell(t0, a, b) && (a < row || (a == row && b < col)) implies #[trigger] ti[a][b] == t0[a][b] by {
                        assert(t1[a][b] == t0[a][b]);
                    }
                }
                assert forall|i: int| r0.len() <= i < results@.len() implies is_ssyt_of(#[trigger] results@[i]@, shape@, k)
                    && agrees_before(results@[i]@, t0, row as int, col as int)
                    && results@[i]@[row as int][col as int] < val + 1 by {
                    if i < mid.len() {
                        assert(results@[i] == mid[i]);
                    }
                }
                assert forall|i: int, j: int| r0.len() <= i < j < results@.len() implies #[trigger] results@[i]@ != #[trigger] results@[j]@ by {
                    if j < mid.len() {
                        assert(results@[i] == mid[i] && results@[j] == mid[j]);
                    } else if i < mid.len() {
                        assert(results@[i] == mid[i]);
                        assert(results@[i]@[row as int][col as int] < val);
                        assert(results@[j]@[row as int][col as int] == val);
                    }
                }
                assert forall|t: Seq<Seq<u32>>| is_ssyt_of(t, shape@, k) && #[trigger] agrees_before(t, t0, row as int, col as int)
                    && t[row as int][col as int] < val + 1 implies listed_in(results@, r0.len() as int, t) by {
                    if t[row as int][col as int] == val {
                        assert forall|a: int, b: int| is_cell(t1, a, b) && (a < row || (a == row && b < col + 1)) implies #[trigger] t[a][b] == t1[a][b] by {
                            if !(a == row && b == col) {
                                assert(t1[a][b] == t0[a][b]);
                            }
                        }
                        assert(agrees_before(t, t1, row as int, col + 1));
                        let i = choose|i: int| mid.len() <= i < results@.len() && (#[trigger] results@[i])@ == t;
                    } else {
                        let i = choose|i: int| r0.len() <= i < mid.len() && (#[trigger] mid[i])@ == t;
                        assert(results@[i] == mid[i]);
                    }
                }
            } else {
                assert forall|t: Seq<Seq<u32>>| is_ssyt_of(t, shape@, k) && #[trigger] agrees_before(t, t0, row as int, col as int)
                    && t[row as int][col as int] < val + 1 implies listed_in(results@, r0.len() as int, t) by {
                    if t[row as int][col as int] == val {
                        lemma_ssyt_fits(t, t0, shape@, k, row as int, col as int);
                    }
                }
            }
        }
        val = val + 1;
    }
    proof {
        lemma_values_exhausted(shape@, k, t0, row as int, col as int, val as int);
        assert forall|t: Seq<Seq<u32>>| is_ssyt_of(t, shape@, k) && #[trigger] agrees_before(t, t0, row as int, col as int)
            implies listed_in(results@, r0.len() as int, t) by {
            assert(is_cell(t, row as int, col as int));
            assert(t[row as int][col as int] <= k);
        }
    }
}

/// All semistandard Young tableaux of `shape` with entries from `{1, …, max_entry}`,
/// each once: the fillings whose rows weakly increase and whose columns
/// strictly increase, found cell by cell in reading order with the values of
/// each cell tried in increasing order.
pub fn semistandard_tableaux(shape: &[usize], max_entry: u32) -> (ts: Vec<YoungTableau>)
    ensures
        forall|i: int| 0 <= i < ts@.len() ==> is_ssyt_of(#[trigger] ts@[i]@, shape@, max_entry as nat),
        forall|i: int, j: int| 0 <= i < j < ts@.len() ==> #[trigger] ts@[i]@ != #[trigger] ts@[j]@,
        forall|t: Seq<Seq<u32>>| #[trigger] is_ssyt_of(t, shape@, max_entry as nat) ==> listed_in(ts@, 0, t),
        ts@.len() == ssyt_count(shape@, max_entry as nat),
{
    let mut tableau = YoungTableau::from_shape(shape);
    let ghost zero = Seq::new(shape@.len(), |r: int| Seq::new(shape@[r] as nat, |c: int| 0u32));
    assert(tableau@ =~= zero);
    let mut results: Vec<YoungTableau> = Vec::new();
    collect_fillings(&mut tableau, shape, 0, 0, max_entry, &mut results);
    proof {
        assert forall|t: Seq<Seq<u32>>| #[trigger] is_ssyt_of(t, shape@, max_entry as nat) implies listed_in(results@, 0, t) by {
            assert(agrees_before(t, zero, 0, 0));
        }
    }
    results
}

/// Evaluate the Schur polynomial `s_λ` at `(1, 1, …, 1)` with `k` ones: the
/// number of semistandard Young tableaux of shape `λ` with entries from `{1, …, k}`.
pub fn schur_at_ones(shape: &[usize], k: usize) -> (n: u64)
    requires
        k <= u32::MAX,
        ssyt_count(shape@, k as nat) <= u64::MAX,
    ensures
        n == ssyt_count(shape@, k as nat),
{
    if shape.len() == 0 {
        return 1;
    }
    let mut tableau = YoungTableau::from_shape(shape);
    let ghost zero = Seq::new(shape@.len(), |r: int| Seq::new(shape@[r] as nat, |c: int| 0u32));
    assert(tableau@ =~= zero);
    count_fillings(&mut tableau, shape, 0, 0, k as u32)
}

} // verus!
