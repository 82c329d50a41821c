//! Hook length formula and hook length computations for Young tableaux.
use vstd::prelude::*;
use crate::tableau::{
    Partition, rows_view, count_greater, parts_sum, conjugate_partition_spec, conjugate_counts,
    lemma_count_greater_take, lemma_count_greater_bound, lemma_parts_sum_take,
    lemma_parts_sum_prefix_bound,
};
use crate::tableau::{weakly_decreasing, lemma_count_greater_prefix, lemma_conjugate_involution};
use crate::hook_formula::{standard_tableaux, lemma_factorial_fits, lemma_hook_length_formula};

verus! {

// ---------------------------------------------------------------------------
// Specifications
// ---------------------------------------------------------------------------

/// Hook length of the cell `(row, col)`: the cells to its right, the cells
/// below it (in rows longer than `col`), and the cell itself; 0 outside the shape.
pub open spec fn hook_spec(shape: Seq<usize>, row: int, col: int) -> nat {
    if 0 <= row < shape.len() && 0 <= col < shape[row] {
        ((shape[row] - col - 1) + count_greater(shape.skip(row + 1), col) + 1) as nat
    } else {
        0
    }
}

/// Every hook length of the shape fits in a `u32`.
pub open spec fn hooks_fit(shape: Seq<usize>) -> bool {
    forall|r: int, c: int| 0 <= r < shape.len() && 0 <= c < shape[r] ==> #[trigger] hook_spec(shape, r, c) <= u32::MAX
}

/// Table of hook lengths, one row per part.
pub open spec fn hook_table(shape: Seq<usize>) -> Seq<Seq<u32>> {
    Seq::new(shape.len(), |r: int| Seq::new(shape[r] as nat, |c: int| hook_spec(shape, r, c) as u32))
}

/// Product of the hook lengths of the first `k` cells of row `r`.
pub open spec fn row_hook_product(shape: Seq<usize>, r: int, k: int) -> nat
    decreases k,
{
    if k <= 0 {
        1
    } else {
        row_hook_product(shape, r, k - 1) * hook_spec(shape, r, k - 1)
    }
}

/// Product of the hook lengths of the cells in the first `m` rows.
pub open spec fn rows_hook_product(shape: Seq<usize>, m: int) -> nat
    decreases m,
{
    if m <= 0 {
        1
    } else {
        rows_hook_product(shape, m - 1) * row_hook_product(shape, m - 1, shape[m - 1] as int)
    }
}

/// Product of all hook lengths of the shape.
pub open spec fn hook_product_spec(shape: Seq<usize>) -> nat {
    rows_hook_product(shape, shape.len() as int)
}

/// `n!`
pub open spec fn factorial_spec(n: nat) -> nat
    decreases n,
{
    if n == 0 {
        1
    } else {
        n * factorial_spec((n - 1) as nat)
    }
}

/// The hook length formula: `n! / ∏ hook(c)` for `n > 0` cells, 1 for none.
pub open spec fn hook_count_spec(shape: Seq<usize>) -> nat {
    if parts_sum(shape) == 0 {
        1
    } else {
        factorial_spec(parts_sum(shape)) / hook_product_spec(shape)
    }
}

// ---------------------------------------------------------------------------
// Lemmas
// ---------------------------------------------------------------------------

/// In a weakly decreasing sequence, the parts after the first `a` that exceed
/// `j` are those exceeding `j` less the first `a`, when all of these exceed `j`.
proof fn lemma_count_greater_skip(s: Seq<usize>, a: int, j: int)
    requires
        weakly_decreasing(s),
        0 <= a <= s.len(),
        a <= count_greater(s, j),
    ensures
        count_greater(s.skip(a), j) == count_greater(s, j) - a,
{
    let t = s.skip(a);
    assert(weakly_decreasing(t)) by {
        assert forall|x: int, y: int| 0 <= x < y < t.len() implies #[trigger] t[y] <= #[trigger] t[x] by {
            assert(s[a + y] <= s[a + x]);
        }
    }
    lemma_count_greater_prefix(s, j);
    lemma_count_greater_prefix(t, j);
    let m = count_greater(t, j) as int;
    let n = count_greater(s, j) as int;
    if m < n - a {
        assert(t[m] == s[a + m]);
        assert(s[a + m] > j);
    }
    if m > n - a {
        assert(t[n - a] == s[n]);
        assert(t[n - a] > j);
    }
}

/// The hook length of a cell of a partition, in terms of its row and column lengths.
pub proof fn lemma_hook_arm_leg(s: Seq<usize>, i: int, j: int)
    requires
        weakly_decreasing(s),
        0 <= i < s.len(),
        0 <= j < s[i],
    ensures
        i < count_greater(s, j),
        hook_spec(s, i, j) == s[i] + count_greater(s, j) - i - j - 1,
{
    lemma_count_greater_prefix(s, j);
    lemma_count_greater_skip(s, i + 1, j);
}

/// The hook lengths of the conjugate partition are the hook lengths of the
/// partition, transposed: the cell `(i, j)` of the partition and the cell
/// `(j, i)` of its conjugate have the same hook.
pub proof fn lemma_conjugate_hooks(s: Seq<usize>)
    requires
        weakly_decreasing(s),
        forall|i: int| 0 <= i < s.len() ==> #[trigger] s[i] >= 1,
        s.len() <= usize::MAX,
    ensures
        forall|i: int, j: int| #![trigger s[i], conjugate_partition_spec(s)[j]]
            0 <= i < s.len() && 0 <= j < s[i] ==> j < conjugate_partition_spec(s).len() && i < conjugate_partition_spec(s)[j],
        forall|i: int, j: int| 0 <= i < s.len() && 0 <= j < s[i] ==> #[trigger] hook_spec(s, i, j)
            == hook_spec(conjugate_partition_spec(s), j, i),
{
    let c = conjugate_partition_spec(s);
    lemma_conjugate_involution(s);
    assert forall|i: int, j: int| #![trigger s[i], conjugate_partition_spec(s)[j]] #![trigger hook_spec(conjugate_partition_spec(s), j, i)]
        0 <= i < s.len() && 0 <= j < s[i] implies j < conjugate_partition_spec(s).len()
        && i < conjugate_partition_spec(s)[j]
        && hook_spec(s, i, j) == hook_spec(conjugate_partition_spec(s), j, i) by {
        assert(s[i] <= s[0]);
        lemma_count_greater_bound(s, j);
        assert(c[j] == count_greater(s, j));
        lemma_hook_arm_leg(s, i, j);
        lemma_hook_arm_leg(c, j, i);
        assert(conjugate_partition_spec(c) == s);
        assert(c.len() > 0);
        lemma_count_greater_bound(c, i);
        assert(conjugate_partition_spec(c)[i] == count_greater(c, i));
    }
    assert forall|i: int, j: int| 0 <= i < s.len() && 0 <= j < s[i] implies #[trigger] hook_spec(s, i, j)
        == hook_spec(conjugate_partition_spec(s), j, i) by {
        assert(hook_spec(conjugate_partition_spec(s), j, i) == hook_spec(s, i, j));
    }
}

proof fn lemma_factorial_positive_mono(i: nat, n: nat)
    requires
        i <= n,
    ensures
        1 <= factorial_spec(i) <= factorial_spec(n),
    decreases n,
{
    if n > 0 {
        if i < n {
            lemma_factorial_positive_mono(i, (n - 1) as nat);
        } else {
            lemma_factorial_positive_mono(0, (n - 1) as nat);
        }
        let f = factorial_spec((n - 1) as nat);
        assert(f <= n * f) by (nonlinear_arith)
            requires
                n >= 1,
                f >= 1,
        ;
    }
}

proof fn lemma_row_hook_product_mono(shape: Seq<usize>, r: int, k: int, l: int)
    requires
        0 <= r < shape.len(),
        0 <= k <= l <= shape[r],
    ensures
        1 <= row_hook_product(shape, r, k) <= row_hook_product(shape, r, l),
    decreases l,
{
    if l > 0 {
        if k < l {
            lemma_row_hook_product_mono(shape, r, k, l - 1);
        } else {
            lemma_row_hook_product_mono(shape, r, 0, l - 1);
        }
        let p = row_hook_product(shape, r, l - 1);
        let h = hook_spec(shape, r, l - 1);
        assert(h >= 1);
        assert(p <= p * h) by (nonlinear_arith)
            requires
                h >= 1,
                p >= 1,
        ;
    }
}

proof fn lemma_rows_hook_product_mono(shape: Seq<usize>, m: int, l: int)
    requires
        0 <= m <= l <= shape.len(),
    ensures
        1 <= rows_hook_product(shape, m) <= rows_hook_product(shape, l),
    decreases l,
{
    if l > 0 {
        if m < l {
            lemma_rows_hook_product_mono(shape, m, l - 1);
        } else {
            lemma_rows_hook_product_mono(shape, 0, l - 1);
        }
        lemma_row_hook_product_mono(shape, l - 1, 0, shape[l - 1] as int);
        let p = rows_hook_product(shape, l - 1);
        let q = row_hook_product(shape, l - 1, shape[l - 1] as int);
        assert(p <= p * q) by (nonlinear_arith)
            requires
                q >= 1,
                p >= 1,
        ;
    }
}

/// A partial product (all rows before `m`, then `k` cells of row `m`) is at
/// most the full product.
proof fn lemma_partial_hook_product_bound(shape: Seq<usize>, m: int, k: int)
    requires
        0 <= m < shape.len(),
        0 <= k <= shape[m],
    ensures
        1 <= rows_hook_product(shape, m) * row_hook_product(shape, m, k) <= hook_product_spec(shape),
{
    lemma_rows_hook_product_mono(shape, m + 1, shape.len() as int);
    lemma_rows_hook_product_mono(shape, 0, m);
    lemma_row_hook_product_mono(shape, m, k, shape[m] as int);
    let p = rows_hook_product(shape, m);
    let a = row_hook_product(shape, m, k);
    let b = row_hook_product(shape, m, shape[m] as int);
    assert(1 <= p * a <= p * b) by (nonlinear_arith)
        requires
            p >= 1,
            1 <= a <= b,
    ;
}

// ---------------------------------------------------------------------------
// Operations
// ---------------------------------------------------------------------------

/// Compute the hook length at cell (row, col) in a tableau of the given shape.
///
/// The hook length is the number of cells to the right in the same row,
/// plus the number of cells below in the same column, plus 1 (the cell itself).
pub fn hook_length(shape: &[usize], row: usize, col: usize) -> (h: u32)
    requires
        hook_spec(shape@, row as int, col as int) <= u32::MAX,
    ensures
        h == hook_spec(shape@, row as int, col as int),
{
    if row >= shape.len() || col >= shape[row] {
        return 0;
    }
    let right = shape[row] - col - 1;
    let ghost rest = shape@.skip(row + 1);
    let mut below: usize = 0;
    let mut i: usize = row + 1;
    while i < shape.len()
        invariant
            row < shape@.len(),
            rest == shape@.skip(row + 1),
            row + 1 <= i <= shape@.len(),
            below == count_greater(rest.take(i - row - 1), col as int),
        decreases shape@.len() - i,
    {
        proof {
            lemma_count_greater_take(rest, i - row - 1, col as int);
            lemma_count_greater_bound(rest.take(i - row - 1), col as int);
        }
        if shape[i] > col {
            below = below + 1;
        }
        i += 1;
    }
    assert(rest.take(i - row - 1) =~= rest);
    (right as u32) + (below as u32) + 1
}

/// Compute all hook lengths for a given shape.
///
/// Returns a 2D vector where `result[row][col]` is the hook length at that cell.
pub fn all_hook_lengths(shape: &[usize]) -> (hooks: Vec<Vec<u32>>)
    requires
        hooks_fit(shape@),
    ensures
        rows_view(hooks@) == hook_table(shape@),
{
    let mut hooks: Vec<Vec<u32>> = Vec::new();
    let mut row: usize = 0;
    while row < shape.len()
        invariant
            hooks_fit(shape@),
            row <= shape@.len(),
            rows_view(hooks@) =~= hook_table(shape@).take(row as int),
        decreases shape@.len() - row,
    {
        let len = shape[row];
        let mut r: Vec<u32> = Vec::new();
        let mut col: usize = 0;
        while col < len
            invariant
                hooks_fit(shape@),
                row < shape@.len(),
                len == shape@[row as int],
                col <= len,
                r@ =~= hook_table(shape@)[row as int].take(col as int),
            decreases len - col,
        {
            assert(hook_spec(shape@, row as int, col as int) <= u32::MAX);
            r.push(hook_length(shape, row, col));
            col += 1;
        }
        assert(hook_table(shape@)[row as int].take(col as int) =~= hook_table(shape@)[row as int]);
        assert(r@ == hook_table(shape@)[row as int]);
        let ghost old_hooks = hooks@;
        hooks.push(r);
        assert(rows_view(hooks@) =~= rows_view(old_hooks).push(r@));
        row += 1;
    }
    assert(hook_table(shape@).take(row as int) =~= hook_table(shape@));
    hooks
}

/// Compute n!.
pub fn factorial(n: u64) -> (f: u64)
    requires
        factorial_spec(n as nat) <= u64::MAX,
    ensures
        f == factorial_spec(n as nat),
{
    let mut f: u64 = 1;
    let mut i: u64 = 0;
    while i < n
        invariant
            i <= n,
            factorial_spec(n as nat) <= u64::MAX,
            f == factorial_spec(i as nat),
        decreases n - i,
    {
        proof {
            lemma_factorial_positive_mono((i + 1) as nat, n as nat);
            let ff = factorial_spec(i as nat);
            assert(factorial_spec((i + 1) as nat) == (i + 1) * ff);
            assert(f * (i + 1) == (i + 1) * ff) by (nonlinear_arith)
                requires
                    f == ff,
            ;
        }
        f = f * (i + 1);
        i += 1;
    }
    f
}

/// Product of the hook lengths in a hook table, row by row.
fn product_of_hooks(shape: &[usize], hooks: &Vec<Vec<u32>>) -> (p: u64)
    requires
        hooks_fit(shape@),
        rows_view(hooks@) == hook_table(shape@),
        hook_product_spec(shape@) <= u64::MAX,
    ensures
        p == hook_product_spec(shape@),
{
    let ghost t = rows_view(hooks@);
    assert(hooks@.len() == t.len());
    let mut p: u64 = 1;
    let mut r: usize = 0;
    while r < hooks.len()
        invariant
            hooks@.len() == shape@.len(),
            hooks_fit(shape@),
            t == rows_view(hooks@),
            t == hook_table(shape@),
            r <= shape@.len(),
            hook_product_spec(shape@) <= u64::MAX,
            p == rows_hook_product(shape@, r as int),
        decreases shape@.len() - r,
    {
        let row = &hooks[r];
        assert(row@ == t[r as int]);
        assert(r < shape@.len());
        assert(row_hook_product(shape@, r as int, 0) == 1);
        assert(p == rows_hook_product(shape@, r as int) * row_hook_product(shape@, r as int, 0));
        let mut c: usize = 0;
        while c < row.len()
            invariant
                hooks_fit(shape@),
                t == hook_table(shape@),
                r < shape@.len(),
                row@ == t[r as int],
                c <= row@.len(),
                hook_product_spec(shape@) <= u64::MAX,
                p == rows_hook_product(shape@, r as int) * row_hook_product(shape@, r as int, c as int),
            decreases row@.len() - c,
        {
            proof {
                lemma_partial_hook_product_bound(shape@, r as int, c + 1);
            }
            assert(row@[c as int] == t[r as int][c as int]);
            assert(hook_spec(shape@, r as int, c as int) <= u32::MAX);
            assert(row@[c as int] == hook_spec(shape@, r as int, c as int));
            let ghost a = rows_hook_product(shape@, r as int);
            let ghost b = row_hook_product(shape@, r as int, c as int);
            let ghost h = hook_spec(shape@, r as int, c as int);
            assert(a * (b * h) == (a * b) * h) by (nonlinear_arith);
            p = p * (row[c] as u64);
            c += 1;
        }
        assert(c == shape@[r as int]);
        r += 1;
    }
    p
}

/// Compute the number of standard Young tableaux of a given shape
/// using the hook length formula:
///
/// `f^λ = n! / ∏ hook(c)`
///
/// where the product is over all cells c of the partition.
pub fn hook_length_count(shape: &[usize]) -> (count: u64)
    requires
        parts_sum(shape@) <= usize::MAX,
        factorial_spec(parts_sum(shape@)) <= u64::MAX,
        hooks_fit(shape@),
        hook_product_spec(shape@) <= u64::MAX,
    ensures
        count == hook_count_spec(shape@),
        weakly_decreasing(shape@) ==> count == standard_tableaux(shape@).len(),
{
    proof {
        if weakly_decreasing(shape@) {
            lemma_factorial_fits(parts_sum(shape@));
            lemma_hook_length_formula(shape@);
        }
    }
    let mut n: usize = 0;
    let mut i: usize = 0;
    while i < shape.len()
        invariant
            i <= shape@.len(),
            n == parts_sum(shape@.take(i as int)),
            parts_sum(shape@) <= usize::MAX,
        decreases shape@.len() - i,
    {
        proof {
            lemma_parts_sum_take(shape@, i as int);
            lemma_parts_sum_prefix_bound(shape@, i + 1);
        }
        n = n + shape[i];
        i += 1;
    }
    assert(shape@.take(i as int) =~= shape@);
    if n == 0 {
        return 1;
    }
    let n_fact = factorial(n as u64);
    let hooks = all_hook_lengths(shape);
    let hooks_product = product_of_hooks(shape, &hooks);
    proof {
        lemma_rows_hook_product_mono(shape@, 0, shape@.len() as int);
    }
    n_fact / hooks_product
}

/// Compute the hook length formula for a partition.
pub fn syt_count(partition: &Partition) -> (count: u64)
    requires
        parts_sum(partition@) <= usize::MAX,
        factorial_spec(parts_sum(partition@)) <= u64::MAX,
        hooks_fit(partition@),
        hook_product_spec(partition@) <= u64::MAX,
    ensures
        count == hook_count_spec(partition@),
        weakly_decreasing(partition@) ==> count == standard_tableaux(partition@).len(),
{
    hook_length_count(partition.0.as_slice())
}

/// Compute the product of all hook lengths.
pub fn hook_product(shape: &[usize]) -> (p: u64)
    requires
        hooks_fit(shape@),
        hook_product_spec(shape@) <= u64::MAX,
    ensures
        p == hook_product_spec(shape@),
{
    let hooks = all_hook_lengths(shape);
    product_of_hooks(shape, &hooks)
}

/// Compute the hook lengths of the conjugate partition shape.
pub fn conjugate_hook_lengths(shape: &[usize]) -> (hooks: Vec<Vec<u32>>)
    requires
        hooks_fit(conjugate_partition_spec(shape@)),
    ensures
        rows_view(hooks@) == hook_table(conjugate_partition_spec(shape@)),
{
    let conj: Vec<usize> = if shape.len() == 0 {
        Vec::new()
    } else {
        conjugate_counts(shape, shape[0])
    };
    assert(conj@ =~= conjugate_partition_spec(shape@));
    all_hook_lengths(conj.as_slice())
}

/// Compute the dimension of the irreducible representation of S_n
/// corresponding to the given partition. This is the same as syt_count.
pub fn representation_dimension(partition: &Partition) -> (d: u64)
    requires
        parts_sum(partition@) <= usize::MAX,
        factorial_spec(parts_sum(partition@)) <= u64::MAX,
        hooks_fit(partition@),
        hook_product_spec(partition@) <= u64::MAX,
    ensures
        d == hook_count_spec(partition@),
        weakly_decreasing(partition@) ==> d == standard_tableaux(partition@).len(),
{
    syt_count(partition)
}

} // verus!
