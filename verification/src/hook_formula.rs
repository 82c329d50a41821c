//! The hook length formula: the standard tableaux of a partition shape with
//! `n` cells number `n!` divided by the product of its hook lengths.
//!
//! The count of standard tableaux obeys the corner recursion (the cell
//! holding `n` is a corner). The hook quotient obeys it too: the sum over
//! the corners `c` of `H(λ) / H(λ - c)` is `n`, shown here with the weights
//! of the hook walk of Greene, Nijenhuis and Wilf, kept as integers.
use vstd::prelude::*;
use crate::hook::{hook_spec, lemma_hook_arm_leg, row_hook_product, rows_hook_product, hook_product_spec};
use crate::tableau::{count_greater, weakly_decreasing, lemma_count_greater_prefix, parts_sum};
use crate::tableau::{cell_count, is_cell, is_standard_spec, holds_value};
use crate::standard::is_standard_of_shape;
use crate::hook::{factorial_spec, hook_count_spec};
use vstd::relations::injective_on;
use vstd::set_lib::{lemma_map_size, lemma_set_disjoint_lens};

verus! {

// ---------------------------------------------------------------------------
// Finite sums and products
// ---------------------------------------------------------------------------

/// `f(lo) + f(lo + 1) + ... + f(hi - 1)`.
pub open spec fn sum_range(lo: int, hi: int, f: spec_fn(int) -> int) -> int
    decreases hi - lo,
{
    if hi <= lo {
        0
    } else {
        sum_range(lo, hi - 1, f) + f(hi - 1)
    }
}

/// `f(lo) * f(lo + 1) * ... * f(hi - 1)`.
pub open spec fn prod_range(lo: int, hi: int, f: spec_fn(int) -> int) -> int
    decreases hi - lo,
{
    if hi <= lo {
        1
    } else {
        prod_range(lo, hi - 1, f) * f(hi - 1)
    }
}

/// Sums of functions that agree on the range are equal.
pub proof fn lemma_sum_ext(lo: int, hi: int, f: spec_fn(int) -> int, g: spec_fn(int) -> int)
    requires
        forall|i: int| lo <= i < hi ==> #[trigger] f(i) == g(i),
    ensures
        sum_range(lo, hi, f) == sum_range(lo, hi, g),
    decreases hi - lo,
{
    if hi > lo {
        lemma_sum_ext(lo, hi - 1, f, g);
    }
}

/// Products of functions that agree on the range are equal.
pub proof fn lemma_prod_ext(lo: int, hi: int, f: spec_fn(int) -> int, g: spec_fn(int) -> int)
    requires
        forall|i: int| lo <= i < hi ==> #[trigger] f(i) == g(i),
    ensures
        prod_range(lo, hi, f) == prod_range(lo, hi, g),
    decreases hi - lo,
{
    if hi > lo {
        lemma_prod_ext(lo, hi - 1, f, g);
    }
}

/// A sum splits at any point of its range.
pub proof fn lemma_sum_split(lo: int, mid: int, hi: int, f: spec_fn(int) -> int)
    requires
        lo <= mid <= hi,
    ensures
        sum_range(lo, hi, f) == sum_range(lo, mid, f) + sum_range(mid, hi, f),
    decreases hi - mid,
{
    if hi > mid {
        lemma_sum_split(lo, mid, hi - 1, f);
    }
}

/// A product splits at any point of its range.
pub proof fn lemma_prod_split(lo: int, mid: int, hi: int, f: spec_fn(int) -> int)
    requires
        lo <= mid <= hi,
    ensures
        prod_range(lo, hi, f) == prod_range(lo, mid, f) * prod_range(mid, hi, f),
    decreases hi - mid,
{
    if hi > mid {
        lemma_prod_split(lo, mid, hi - 1, f);
        let a = prod_range(lo, mid, f);
        let b = prod_range(mid, hi - 1, f);
        let c = f(hi - 1);
        assert(a * (b * c) == (a * b) * c) by (nonlinear_arith);
    }
}

/// A sum of zeros is zero.
pub proof fn lemma_sum_zero(lo: int, hi: int, f: spec_fn(int) -> int)
    requires
        forall|i: int| lo <= i < hi ==> #[trigger] f(i) == 0,
    ensures
        sum_range(lo, hi, f) == 0,
    decreases hi - lo,
{
    if hi > lo {
        lemma_sum_zero(lo, hi - 1, f);
    }
}

/// A sum of a constant is the constant times the length of the range.
pub proof fn lemma_sum_const(lo: int, hi: int, f: spec_fn(int) -> int, c: int)
    requires
        lo <= hi,
        forall|i: int| lo <= i < hi ==> #[trigger] f(i) == c,
    ensures
        sum_range(lo, hi, f) == (hi - lo) * c,
    decreases hi - lo,
{
    if hi > lo {
        lemma_sum_const(lo, hi - 1, f, c);
        assert((hi - 1 - lo) * c + c == (hi - lo) * c) by (nonlinear_arith);
    } else {
        assert((hi - lo) * c == 0) by (nonlinear_arith)
            requires
                hi == lo,
        ;
    }
}

/// A factor comes out of a sum.
pub proof fn lemma_sum_scale(lo: int, hi: int, f: spec_fn(int) -> int, g: spec_fn(int) -> int, c: int)
    requires
        forall|i: int| lo <= i < hi ==> #[trigger] g(i) == c * f(i),
    ensures
        sum_range(lo, hi, g) == c * sum_range(lo, hi, f),
    decreases hi - lo,
{
    if hi > lo {
        lemma_sum_scale(lo, hi - 1, f, g, c);
        let s = sum_range(lo, hi - 1, f);
        assert(c * s + c * f(hi - 1) == c * (s + f(hi - 1))) by (nonlinear_arith);
    }
}

/// The sum of a pointwise sum is the sum of the sums.
pub proof fn lemma_sum_add(lo: int, hi: int, f: spec_fn(int) -> int, g: spec_fn(int) -> int, h: spec_fn(int) -> int)
    requires
        forall|i: int| lo <= i < hi ==> #[trigger] h(i) == f(i) + g(i),
    ensures
        sum_range(lo, hi, h) == sum_range(lo, hi, f) + sum_range(lo, hi, g),
    decreases hi - lo,
{
    if hi > lo {
        lemma_sum_add(lo, hi - 1, f, g, h);
    }
}

/// A sum whose terms vanish but at `a` is its term at `a`.
pub proof fn lemma_sum_single(lo: int, hi: int, f: spec_fn(int) -> int, a: int)
    requires
        lo <= a < hi,
        forall|i: int| lo <= i < hi && i != a ==> #[trigger] f(i) == 0,
    ensures
        sum_range(lo, hi, f) == f(a),
{
    lemma_sum_split(lo, a, hi, f);
    lemma_sum_split(a, a + 1, hi, f);
    lemma_sum_zero(lo, a, f);
    lemma_sum_zero(a + 1, hi, f);
    assert(sum_range(a, a + 1, f) == f(a)) by {
        assert(sum_range(a, a, f) == 0);
    }
}

/// Row sums of `f`: for each `i`, the sum of `f(i, j)` over `lo <= j < hi`.
pub open spec fn row_sums(f: spec_fn(int, int) -> int, lo: int, hi: int) -> spec_fn(int) -> int {
    |i: int| sum_range(lo, hi, |j: int| f(i, j))
}

/// Column sums of `f`: for each `j`, the sum of `f(i, j)` over `lo <= i < hi`.
pub open spec fn col_sums(f: spec_fn(int, int) -> int, lo: int, hi: int) -> spec_fn(int) -> int {
    |j: int| sum_range(lo, hi, |i: int| f(i, j))
}

/// Double sums over a rectangle can be taken in either order.
pub proof fn lemma_sum_swap(lo1: int, hi1: int, lo2: int, hi2: int, f: spec_fn(int, int) -> int)
    ensures
        sum_range(lo1, hi1, row_sums(f, lo2, hi2)) == sum_range(lo2, hi2, col_sums(f, lo1, hi1)),
    decreases hi1 - lo1,
{
    if hi1 > lo1 {
        lemma_sum_swap(lo1, hi1 - 1, lo2, hi2, f);
        let left = col_sums(f, lo1, hi1 - 1);
        let last = |j: int| f(hi1 - 1, j);
        let whole = col_sums(f, lo1, hi1);
        assert forall|j: int| lo2 <= j < hi2 implies #[trigger] whole(j) == left(j) + last(j) by {}
        lemma_sum_add(lo2, hi2, left, last, whole);
        lemma_sum_ext(lo2, hi2, last, |j: int| f(hi1 - 1, j));
        assert(row_sums(f, lo2, hi2)(hi1 - 1) == sum_range(lo2, hi2, |j: int| f(hi1 - 1, j)));
        lemma_sum_ext(lo2, hi2, |j: int| f(hi1 - 1, j), last);
    } else {
        lemma_sum_zero(lo2, hi2, col_sums(f, lo1, hi1));
    }
}

/// A product of factors at least one is at least one.
pub proof fn lemma_prod_pos(lo: int, hi: int, f: spec_fn(int) -> int)
    requires
        forall|i: int| lo <= i < hi ==> #[trigger] f(i) >= 1,
    ensures
        prod_range(lo, hi, f) >= 1,
    decreases hi - lo,
{
    if hi > lo {
        lemma_prod_pos(lo, hi - 1, f);
        let p = prod_range(lo, hi - 1, f);
        assert(p * f(hi - 1) >= 1) by (nonlinear_arith)
            requires
                p >= 1,
                f(hi - 1) >= 1,
        ;
    }
}

/// The product of a pointwise product is the product of the products.
pub proof fn lemma_prod_mul(lo: int, hi: int, f: spec_fn(int) -> int, g: spec_fn(int) -> int, h: spec_fn(int) -> int)
    requires
        forall|i: int| lo <= i < hi ==> #[trigger] h(i) == f(i) * g(i),
    ensures
        prod_range(lo, hi, h) == prod_range(lo, hi, f) * prod_range(lo, hi, g),
    decreases hi - lo,
{
    if hi > lo {
        lemma_prod_mul(lo, hi - 1, f, g, h);
        let a = prod_range(lo, hi - 1, f);
        let b = prod_range(lo, hi - 1, g);
        let x = f(hi - 1);
        let y = g(hi - 1);
        assert((a * b) * (x * y) == (a * x) * (b * y)) by (nonlinear_arith);
    }
}

/// `f` with its value at `a` replaced by one.
pub open spec fn except_at(f: spec_fn(int) -> int, a: int) -> spec_fn(int) -> int {
    |i: int| if i == a { 1 } else { f(i) }
}

/// A product is its factor at `a` times the product with that factor
/// replaced by one.
pub proof fn lemma_prod_except(lo: int, hi: int, f: spec_fn(int) -> int, a: int)
    requires
        lo <= a < hi,
    ensures
        prod_range(lo, hi, f) == f(a) * prod_range(lo, hi, except_at(f, a)),
{
    let g = except_at(f, a);
    lemma_prod_split(lo, a, hi, f);
    lemma_prod_split(a, a + 1, hi, f);
    lemma_prod_split(lo, a, hi, g);
    lemma_prod_split(a, a + 1, hi, g);
    lemma_prod_ext(lo, a, f, g);
    lemma_prod_ext(a + 1, hi, f, g);
    assert(prod_range(a, a + 1, f) == f(a)) by {
        assert(prod_range(a, a, f) == 1);
    }
    assert(prod_range(a, a + 1, g) == 1) by {
        assert(prod_range(a, a, g) == 1);
    }
    let x = prod_range(lo, a, f);
    let y = prod_range(a + 1, hi, f);
    assert(x * (f(a) * y) == f(a) * (x * (1 * y))) by (nonlinear_arith);
}

/// The first factor comes out of a product.
pub proof fn lemma_prod_first(lo: int, hi: int, f: spec_fn(int) -> int)
    requires
        lo < hi,
    ensures
        prod_range(lo, hi, f) == f(lo) * prod_range(lo + 1, hi, f),
{
    lemma_prod_split(lo, lo + 1, hi, f);
    assert(prod_range(lo, lo + 1, f) == f(lo)) by {
        assert(prod_range(lo, lo, f) == 1);
    }
}

// ---------------------------------------------------------------------------
// Hook walk weights along one line
// ---------------------------------------------------------------------------

/// `x + 1`, pointwise.
pub open spec fn plus_one(x: spec_fn(int) -> int) -> spec_fn(int) -> int {
    |i: int| x(i) + 1
}

/// Weight of starting position `p` on a line of `m` steps towards a corner
/// at `m`: `x(0) ... x(p - 1) * (x(p + 1) + 1) ... (x(m - 1) + 1)` before
/// the corner, `x(0) ... x(m - 1)` at it, 0 past it.
pub open spec fn walk_weight(x: spec_fn(int) -> int, m: int, p: int) -> int {
    if 0 <= p < m {
        prod_range(0, p, x) * prod_range(p + 1, m, plus_one(x))
    } else if p == m {
        prod_range(0, m, x)
    } else {
        0
    }
}

/// The weights of the positions of a line, as a function.
pub open spec fn weights(x: spec_fn(int) -> int, m: int) -> spec_fn(int) -> int {
    |q: int| walk_weight(x, m, q)
}

/// The weights after a position before the corner add up to `x(p)` times
/// its own weight.
pub proof fn lemma_walk_weight_tail(x: spec_fn(int) -> int, m: int, p: int)
    requires
        0 <= p < m,
    ensures
        sum_range(p + 1, m + 1, weights(x, m)) == x(p) * walk_weight(x, m, p),
    decreases m - p,
{
    let w = weights(x, m);
    if p == m - 1 {
        assert(sum_range(m, m + 1, w) == w(m)) by {
            assert(sum_range(m, m, w) == 0);
        }
        assert(prod_range(m, m, plus_one(x)) == 1);
        assert(prod_range(0, m, x) == prod_range(0, m - 1, x) * x(m - 1));
        let a = prod_range(0, m - 1, x);
        assert(a * x(m - 1) == x(m - 1) * (a * 1)) by (nonlinear_arith);
    } else {
        lemma_walk_weight_tail(x, m, p + 1);
        lemma_sum_split(p + 1, p + 2, m + 1, w);
        assert(sum_range(p + 1, p + 2, w) == w(p + 1)) by {
            assert(sum_range(p + 1, p + 1, w) == 0);
        }
        lemma_prod_first(p + 1, m, plus_one(x));
        assert(prod_range(0, p + 1, x) == prod_range(0, p, x) * x(p));
        let a = prod_range(0, p, x);
        let r = prod_range(p + 2, m, plus_one(x));
        let xp = x(p);
        let y = x(p + 1);
        assert(a * xp * r + y * (a * xp * r) == xp * (a * ((y + 1) * r))) by (nonlinear_arith);
    }
}

/// All the weights of a line add up to `(x(0) + 1) ... (x(m - 1) + 1)`.
pub proof fn lemma_walk_weight_total(x: spec_fn(int) -> int, m: int)
    requires
        0 <= m,
    ensures
        sum_range(0, m + 1, weights(x, m)) == prod_range(0, m, plus_one(x)),
{
    let w = weights(x, m);
    if m == 0 {
        assert(sum_range(0, 1, w) == w(0)) by {
            assert(sum_range(0, 0, w) == 0);
        }
    } else {
        lemma_walk_weight_tail(x, m, 0);
        lemma_sum_split(0, 1, m + 1, w);
        assert(sum_range(0, 1, w) == w(0)) by {
            assert(sum_range(0, 0, w) == 0);
        }
        lemma_prod_first(0, m, plus_one(x));
        let r = prod_range(1, m, plus_one(x));
        let x0 = x(0);
        assert(1 * r + x0 * (1 * r) == (x0 + 1) * r) by (nonlinear_arith);
    }
}

// ---------------------------------------------------------------------------
// Corners and the hook walk towards them
// ---------------------------------------------------------------------------

/// Row `a` ends in a corner: it has a cell, and the row below is shorter.
pub open spec fn is_corner_row(s: Seq<usize>, a: int) -> bool {
    &&& 0 <= a < s.len()
    &&& s[a] >= 1
    &&& (a + 1 == s.len() || s[a + 1] < s[a])
}

/// For the corner ending row `a`: the hook lengths less one of the cells above
/// it in its column, from the top.
pub open spec fn column_steps(s: Seq<usize>, a: int) -> spec_fn(int) -> int {
    |i: int| hook_spec(s, i, s[a] - 1) - 1
}

/// For the corner ending row `a`: the hook lengths less one of the cells to
/// its left in its row, from the left.
pub open spec fn row_steps(s: Seq<usize>, a: int) -> spec_fn(int) -> int {
    |j: int| hook_spec(s, a, j) - 1
}

/// Weight (times the corner's denominator) of the hook walk from `(p, q)`
/// ending at the corner of row `a`.
pub open spec fn walk_to_corner(s: Seq<usize>, a: int, p: int, q: int) -> int {
    walk_weight(column_steps(s, a), a, p) * walk_weight(row_steps(s, a), s[a] - 1, q)
}

/// `∏ (h - 1)` over the cells above and left of the corner of row `a`.
pub open spec fn corner_denominator(s: Seq<usize>, a: int) -> int {
    prod_range(0, a, column_steps(s, a)) * prod_range(0, s[a] - 1, row_steps(s, a))
}

/// `∏ h` over the cells above and left of the corner of row `a`.
pub open spec fn corner_numerator(s: Seq<usize>, a: int) -> int {
    prod_range(0, a, plus_one(column_steps(s, a))) * prod_range(0, s[a] - 1, plus_one(row_steps(s, a)))
}

/// The corner denominators, 1 for rows without a corner.
pub open spec fn denominators(s: Seq<usize>) -> spec_fn(int) -> int {
    |a: int| if is_corner_row(s, a) { corner_denominator(s, a) } else { 1 }
}

/// The product of all corner denominators.
pub open spec fn common_denominator(s: Seq<usize>) -> int {
    prod_range(0, s.len() as int, denominators(s))
}

/// Share of the walk from `(p, q)` that ends at the corner of row `a`, over
/// the common denominator; 0 for rows without a corner.
pub open spec fn walk_share(s: Seq<usize>, a: int, p: int, q: int) -> int {
    if is_corner_row(s, a) {
        walk_to_corner(s, a, p, q) * prod_range(0, s.len() as int, except_at(denominators(s), a))
    } else {
        0
    }
}

/// Facts about the corner of row `a`: the rows through `a` reach past its
/// column and those below do not; the hook of a cell above and left of the
/// corner splits into its column and row steps; all steps are at least one.
pub proof fn lemma_corner_facts(s: Seq<usize>, a: int)
    requires
        weakly_decreasing(s),
        is_corner_row(s, a),
    ensures
        count_greater(s, s[a] - 1) == a + 1,
        forall|i: int| 0 <= i <= a ==> #[trigger] s[i] >= s[a],
        forall|i: int| a < i < s.len() ==> #[trigger] s[i] < s[a],
        forall|i: int, j: int| 0 <= i < a && 0 <= j < s[a] - 1 ==> hook_spec(s, i, j) - 1
            == #[trigger] column_steps(s, a)(i) + #[trigger] row_steps(s, a)(j),
        forall|i: int| 0 <= i < a ==> #[trigger] column_steps(s, a)(i) >= 1,
        forall|j: int| 0 <= j < s[a] - 1 ==> #[trigger] row_steps(s, a)(j) >= 1,
        hook_spec(s, a, s[a] - 1) == 1,
{
    let b: int = s[a] - 1;
    lemma_count_greater_prefix(s, b);
    assert forall|i: int| 0 <= i <= a implies #[trigger] s[i] >= s[a] by {
        if i < a {
            assert(s[a] <= s[i]);
        }
    }
    assert forall|i: int| a < i < s.len() implies #[trigger] s[i] < s[a] by {
        assert(s[i] <= s[a + 1]);
    }
    let c: int = count_greater(s, b) as int;
    if c < a + 1 {
        assert(s[c] > b);
    }
    if c > a + 1 {
        assert(s[a + 1] > b);
    }
    lemma_hook_arm_leg(s, a, b);
    assert forall|i: int, j: int| 0 <= i < a && 0 <= j < s[a] - 1 implies hook_spec(s, i, j) - 1
        == #[trigger] column_steps(s, a)(i) + #[trigger] row_steps(s, a)(j) by {
        lemma_hook_arm_leg(s, i, j);
        lemma_hook_arm_leg(s, i, b);
        lemma_hook_arm_leg(s, a, j);
    }
    assert forall|i: int| 0 <= i < a implies #[trigger] column_steps(s, a)(i) >= 1 by {
        lemma_hook_arm_leg(s, i, b);
    }
    assert forall|j: int| 0 <= j < s[a] - 1 implies #[trigger] row_steps(s, a)(j) >= 1 by {
        lemma_hook_arm_leg(s, a, j);
        lemma_count_greater_prefix(s, j);
    }
}

/// The sums of walk weights along the arm and along the leg of a cell.
pub open spec fn along_row(s: Seq<usize>, a: int, p: int) -> spec_fn(int) -> int {
    |q: int| walk_to_corner(s, a, p, q)
}

/// Walk weights down a column, as a function of the row.
pub open spec fn along_col(s: Seq<usize>, a: int, q: int) -> spec_fn(int) -> int {
    |p: int| walk_to_corner(s, a, p, q)
}

/// The hook walk recursion: from a cell, the walk steps to one of the
/// `h - 1` other cells of its hook.
pub proof fn lemma_walk_recursion(s: Seq<usize>, a: int, p: int, q: int)
    requires
        weakly_decreasing(s),
        is_corner_row(s, a),
        0 <= p < s.len(),
        0 <= q < s[p],
    ensures
        (hook_spec(s, p, q) - 1) * walk_to_corner(s, a, p, q)
            == sum_range(q + 1, s[p] as int, along_row(s, a, p)) + sum_range(p + 1, count_greater(s, q) as int, along_col(s, a, q)),
{
    lemma_corner_facts(s, a);
    lemma_hook_arm_leg(s, p, q);
    let x = column_steps(s, a);
    let y = row_steps(s, a);
    let b: int = s[a] - 1;
    let wa = walk_weight(x, a, p);
    let wb = walk_weight(y, b, q);
    let cq = count_greater(s, q) as int;
    let sp = s[p] as int;
    let h = hook_spec(s, p, q);
    lemma_sum_scale(q + 1, sp, weights(y, b), along_row(s, a, p), wa);
    assert forall|i: int| p + 1 <= i < cq implies #[trigger] along_col(s, a, q)(i) == wb * weights(x, a)(i) by {
        let v = walk_weight(x, a, i);
        assert(v * wb == wb * v) by (nonlinear_arith);
    }
    lemma_sum_scale(p + 1, cq, weights(x, a), along_col(s, a, q), wb);
    let rs = sum_range(q + 1, sp, weights(y, b));
    let cs = sum_range(p + 1, cq, weights(x, a));
    if p > a {
        assert forall|i: int| p + 1 <= i < cq implies #[trigger] weights(x, a)(i) == 0 by {}
        lemma_sum_zero(p + 1, cq, weights(x, a));
        assert(wa == 0);
        assert(wa * rs == 0);
        assert(wb * 0 == 0);
        assert((h - 1) * 0 == 0);
    } else if q > b {
        assert forall|i: int| q + 1 <= i < sp implies #[trigger] weights(y, b)(i) == 0 by {}
        lemma_sum_zero(q + 1, sp, weights(y, b));
        assert(wb == 0);
        assert(wb * cs == 0);
        assert(wa * 0 == 0);
        assert(wa * 0 == 0 && (h - 1) * (wa * 0) == 0);
    } else {
        // the arm reaches past the corner's column and the leg past its row
        assert(sp >= b + 1);
        lemma_count_greater_prefix(s, q);
        assert(s[a] > q);
        assert(a < cq);
        lemma_sum_split(q + 1, b + 1, sp, weights(y, b));
        assert forall|i: int| b + 1 <= i < sp implies #[trigger] weights(y, b)(i) == 0 by {}
        lemma_sum_zero(b + 1, sp, weights(y, b));
        lemma_sum_split(p + 1, a + 1, cq, weights(x, a));
        assert forall|i: int| a + 1 <= i < cq implies #[trigger] weights(x, a)(i) == 0 by {}
        lemma_sum_zero(a + 1, cq, weights(x, a));
        let yq: int = if q < b { y(q) } else { 0 };
        let xp: int = if p < a { x(p) } else { 0 };
        if q < b {
            lemma_walk_weight_tail(y, b, q);
        } else {
            assert(sum_range(b + 1, b + 1, weights(y, b)) == 0);
        }
        if p < a {
            lemma_walk_weight_tail(x, a, p);
        } else {
            assert(sum_range(a + 1, a + 1, weights(x, a)) == 0);
        }
        assert(rs == yq * wb);
        assert(cs == xp * wa);
        assert(h - 1 == xp + yq) by {
            if p < a && q < b {
            } else if p == a && q == b {
            } else if p == a {
                assert(y(q) == h - 1);
            } else {
                assert(x(p) == h - 1);
            }
        }
        assert((xp + yq) * (wa * wb) == wa * (yq * wb) + wb * (xp * wa)) by (nonlinear_arith);
    }
}

/// The shares of the walk from `(p, q)`, as a function of the corner row.
pub open spec fn shares_at(s: Seq<usize>, p: int, q: int) -> spec_fn(int) -> int {
    |a: int| walk_share(s, a, p, q)
}

/// Shares towards one corner along a row, as a function of the column.
pub open spec fn share_row(s: Seq<usize>, a: int, p: int) -> spec_fn(int) -> int {
    |q: int| walk_share(s, a, p, q)
}

/// Shares towards one corner down a column, as a function of the row.
pub open spec fn share_col(s: Seq<usize>, a: int, q: int) -> spec_fn(int) -> int {
    |p: int| walk_share(s, a, p, q)
}

/// The walk recursion, for the shares towards any row's corner.
proof fn lemma_share_recursion(s: Seq<usize>, a: int, p: int, q: int)
    requires
        weakly_decreasing(s),
        0 <= a < s.len(),
        0 <= p < s.len(),
        0 <= q < s[p],
    ensures
        (hook_spec(s, p, q) - 1) * walk_share(s, a, p, q)
            == sum_range(q + 1, s[p] as int, share_row(s, a, p)) + sum_range(p + 1, count_greater(s, q) as int, share_col(s, a, q)),
{
    let cq = count_greater(s, q) as int;
    let sp = s[p] as int;
    if is_corner_row(s, a) {
        let e = prod_range(0, s.len() as int, except_at(denominators(s), a));
        lemma_walk_recursion(s, a, p, q);
        assert forall|j: int| q + 1 <= j < sp implies #[trigger] share_row(s, a, p)(j) == e * along_row(s, a, p)(j) by {
            let v = walk_to_corner(s, a, p, j);
            assert(v * e == e * v) by (nonlinear_arith);
        }
        lemma_sum_scale(q + 1, sp, along_row(s, a, p), share_row(s, a, p), e);
        assert forall|i: int| p + 1 <= i < cq implies #[trigger] share_col(s, a, q)(i) == e * along_col(s, a, q)(i) by {
            let v = walk_to_corner(s, a, i, q);
            assert(v * e == e * v) by (nonlinear_arith);
        }
        lemma_sum_scale(p + 1, cq, along_col(s, a, q), share_col(s, a, q), e);
        let h1 = hook_spec(s, p, q) - 1;
        let w = walk_to_corner(s, a, p, q);
        let r = sum_range(q + 1, sp, along_row(s, a, p));
        let c = sum_range(p + 1, cq, along_col(s, a, q));
        assert(h1 * (w * e) == e * r + e * c) by (nonlinear_arith)
            requires
                h1 * w == r + c,
        ;
    } else {
        lemma_sum_zero(q + 1, sp, share_row(s, a, p));
        lemma_sum_zero(p + 1, cq, share_col(s, a, q));
        let h1 = hook_spec(s, p, q) - 1;
        assert(h1 * 0 == 0) by (nonlinear_arith);
    }
}

/// The shares of the walk from any cell, over all corners, make up the
/// common denominator: the walk ends at some corner.
pub proof fn lemma_walk_ends_somewhere(s: Seq<usize>, p: int, q: int)
    requires
        weakly_decreasing(s),
        0 <= p < s.len(),
        0 <= q < s[p],
    ensures
        sum_range(0, s.len() as int, shares_at(s, p, q)) == common_denominator(s),
    decreases (s.len() - p) + (s[0] - q),
{
    let k = s.len() as int;
    let cq = count_greater(s, q) as int;
    let sp = s[p] as int;
    let h = hook_spec(s, p, q);
    let d = common_denominator(s);
    lemma_hook_arm_leg(s, p, q);
    lemma_count_greater_prefix(s, q);
    if p > 0 {
        assert(s[p] <= s[0]);
    }
    if h == 1 {
        // the cell is the corner of its row; the other corners get nothing
        assert(is_corner_row(s, p)) by {
            if p + 1 < k {
                assert(!(p + 1 < cq));
            }
        }
        assert forall|a: int| 0 <= a < k && a != p implies #[trigger] shares_at(s, p, q)(a) == 0 by {
            if is_corner_row(s, a) {
                if a < p {
                    assert(walk_weight(column_steps(s, a), a, p) == 0);
                } else {
                    assert(s[a] <= s[p + 1]);
                    assert(walk_weight(row_steps(s, a), s[a] - 1, q) == 0);
                }
                let u = walk_weight(column_steps(s, a), a, p);
                let v = walk_weight(row_steps(s, a), s[a] - 1, q);
                let e = prod_range(0, k, except_at(denominators(s), a));
                assert(u == 0 || v == 0 ==> u * v * e == 0) by (nonlinear_arith);
            }
        }
        lemma_sum_single(0, k, shares_at(s, p, q), p);
        lemma_prod_except(0, k, denominators(s), p);
    } else {
        let h1: int = h - 1;
        // each share follows the walk recursion
        let g = |a: int| h1 * shares_at(s, p, q)(a);
        let rr = |a: int| sum_range(q + 1, sp, share_row(s, a, p));
        let cc = |a: int| sum_range(p + 1, cq, share_col(s, a, q));
        assert forall|a: int| 0 <= a < k implies #[trigger] g(a) == rr(a) + cc(a) by {
            lemma_share_recursion(s, a, p, q);
        }
        lemma_sum_scale(0, k, shares_at(s, p, q), g, h1);
        lemma_sum_add(0, k, rr, cc, g);
        // along the arm
        let f2 = |a: int, j: int| walk_share(s, a, p, j);
        assert forall|a: int| 0 <= a < k implies #[trigger] rr(a) == row_sums(f2, q + 1, sp)(a) by {
            lemma_sum_ext(q + 1, sp, share_row(s, a, p), |j: int| f2(a, j));
        }
        lemma_sum_ext(0, k, rr, row_sums(f2, q + 1, sp));
        lemma_sum_swap(0, k, q + 1, sp, f2);
        assert forall|j: int| q + 1 <= j < sp implies #[trigger] col_sums(f2, 0, k)(j) == d by {
            lemma_walk_ends_somewhere(s, p, j);
            lemma_sum_ext(0, k, shares_at(s, p, j), |i: int| f2(i, j));
        }
        lemma_sum_const(q + 1, sp, col_sums(f2, 0, k), d);
        // down the leg
        let f3 = |a: int, i: int| walk_share(s, a, i, q);
        assert forall|a: int| 0 <= a < k implies #[trigger] cc(a) == row_sums(f3, p + 1, cq)(a) by {
            lemma_sum_ext(p + 1, cq, share_col(s, a, q), |i: int| f3(a, i));
        }
        lemma_sum_ext(0, k, cc, row_sums(f3, p + 1, cq));
        lemma_sum_swap(0, k, p + 1, cq, f3);
        assert forall|i: int| p + 1 <= i < cq implies #[trigger] col_sums(f3, 0, k)(i) == d by {
            assert(s[i] > q);
            lemma_walk_ends_somewhere(s, i, q);
            lemma_sum_ext(0, k, shares_at(s, i, q), |a: int| f3(a, i));
        }
        lemma_sum_const(p + 1, cq, col_sums(f3, 0, k), d);
        let total = sum_range(0, k, shares_at(s, p, q));
        assert(total == d) by (nonlinear_arith)
            requires
                h1 * total == (sp - (q + 1)) * d + (cq - (p + 1)) * d,
                h1 == sp + cq - p - q - 2,
                h1 >= 1,
        ;
    }
}

/// For each row, the sum of `f` over the cells of that row.
pub open spec fn row_totals(s: Seq<usize>, f: spec_fn(int, int) -> int) -> spec_fn(int) -> int {
    |p: int| sum_range(0, s[p] as int, |q: int| f(p, q))
}

/// The sum of `f` over all cells of the shape.
pub open spec fn over_cells(s: Seq<usize>, f: spec_fn(int, int) -> int) -> int {
    sum_range(0, s.len() as int, row_totals(s, f))
}

/// The shares towards the corner of row `a`, over the cells.
pub open spec fn shares_to(s: Seq<usize>, a: int) -> spec_fn(int, int) -> int {
    |p: int, q: int| walk_share(s, a, p, q)
}

/// Each corner's numerator, over the common denominator; 0 for rows without a corner.
pub open spec fn quotient_terms(s: Seq<usize>) -> spec_fn(int) -> int {
    |a: int| if is_corner_row(s, a) {
        corner_numerator(s, a) * prod_range(0, s.len() as int, except_at(denominators(s), a))
    } else {
        0
    }
}

/// The number of cells is the sum of the parts.
pub proof fn lemma_parts_sum_range(s: Seq<usize>)
    ensures
        parts_sum(s) == sum_range(0, s.len() as int, |p: int| s[p] as int),
    decreases s.len(),
{
    if s.len() > 0 {
        let d = s.drop_last();
        lemma_parts_sum_range(d);
        lemma_sum_ext(0, d.len() as int, |p: int| d[p] as int, |p: int| s[p] as int);
    }
}

/// Summed over all starting cells, the shares towards a corner give its
/// numerator over the common denominator.
proof fn lemma_shares_to_corner(s: Seq<usize>, a: int)
    requires
        weakly_decreasing(s),
        is_corner_row(s, a),
    ensures
        over_cells(s, shares_to(s, a)) == quotient_terms(s)(a),
{
    lemma_corner_facts(s, a);
    let k = s.len() as int;
    let x = column_steps(s, a);
    let y = row_steps(s, a);
    let b: int = s[a] - 1;
    let e = prod_range(0, k, except_at(denominators(s), a));
    let xx = prod_range(0, a, plus_one(x));
    let yy = prod_range(0, b, plus_one(y));
    lemma_walk_weight_total(x, a);
    lemma_walk_weight_total(y, b);
    let rt = row_totals(s, shares_to(s, a));
    assert forall|p: int| 0 <= p < k implies #[trigger] rt(p) == (e * yy) * weights(x, a)(p) by {
        let sp = s[p] as int;
        let wa = walk_weight(x, a, p);
        let f = |q: int| shares_to(s, a)(p, q);
        if p > a {
            assert forall|q: int| 0 <= q < sp implies #[trigger] f(q) == 0 by {
                assert(wa == 0);
                let v = walk_weight(y, b, q);
                assert(0 * v * e == 0) by (nonlinear_arith);
            }
            lemma_sum_zero(0, sp, f);
            assert((e * yy) * 0 == 0) by (nonlinear_arith);
        } else {
            assert(sp >= b + 1);
            assert forall|q: int| 0 <= q < sp implies #[trigger] f(q) == (wa * e) * weights(y, b)(q) by {
                let v = walk_weight(y, b, q);
                assert(wa * v * e == (wa * e) * v) by (nonlinear_arith);
            }
            lemma_sum_scale(0, sp, weights(y, b), f, wa * e);
            lemma_sum_split(0, b + 1, sp, weights(y, b));
            assert forall|q: int| b + 1 <= q < sp implies #[trigger] weights(y, b)(q) == 0 by {}
            lemma_sum_zero(b + 1, sp, weights(y, b));
            assert((wa * e) * yy == (e * yy) * wa) by (nonlinear_arith);
        }
    }
    lemma_sum_scale(0, k, weights(x, a), rt, e * yy);
    lemma_sum_split(0, a + 1, k, weights(x, a));
    assert forall|p: int| a + 1 <= p < k implies #[trigger] weights(x, a)(p) == 0 by {}
    lemma_sum_zero(a + 1, k, weights(x, a));
    assert((e * yy) * xx == (xx * yy) * e) by (nonlinear_arith);
}

/// The hook quotients of the corners add up to the number of cells: the sum
/// over the corners `c` of `∏ h / ∏ (h - 1)`, over the cells above and left
/// of `c`, is `n`. Over the common denominator `D` of these fractions: the
/// numerators, each times `D` over its own denominator, add up to `n * D`.
pub proof fn lemma_hook_quotients_sum(s: Seq<usize>)
    requires
        weakly_decreasing(s),
    ensures
        sum_range(0, s.len() as int, quotient_terms(s)) == parts_sum(s) * common_denominator(s),
{
    let k = s.len() as int;
    let d = common_denominator(s);
    // each corner's term is the sum of its shares over the cells
    let g = |a: int| over_cells(s, shares_to(s, a));
    assert forall|a: int| 0 <= a < k implies #[trigger] quotient_terms(s)(a) == g(a) by {
        if is_corner_row(s, a) {
            lemma_shares_to_corner(s, a);
        } else {
            assert forall|p: int| 0 <= p < k implies #[trigger] row_totals(s, shares_to(s, a))(p) == 0 by {
                lemma_sum_zero(0, s[p] as int, |q: int| shares_to(s, a)(p, q));
            }
            lemma_sum_zero(0, k, row_totals(s, shares_to(s, a)));
        }
    }
    lemma_sum_ext(0, k, quotient_terms(s), g);
    // swap the corner and the row
    let f2 = |a: int, p: int| row_totals(s, shares_to(s, a))(p);
    assert forall|a: int| 0 <= a < k implies #[trigger] g(a) == row_sums(f2, 0, k)(a) by {
        lemma_sum_ext(0, k, row_totals(s, shares_to(s, a)), |p: int| f2(a, p));
    }
    lemma_sum_ext(0, k, g, row_sums(f2, 0, k));
    lemma_sum_swap(0, k, 0, k, f2);
    // for each row, swap the corner and the column
    assert forall|p: int| 0 <= p < k implies #[trigger] col_sums(f2, 0, k)(p) == (s[p] as int) * d by {
        let sp = s[p] as int;
        let f3 = |a: int, q: int| walk_share(s, a, p, q);
        assert forall|a: int| 0 <= a < k implies #[trigger] f2(a, p) == row_sums(f3, 0, sp)(a) by {
            lemma_sum_ext(0, sp, |q: int| shares_to(s, a)(p, q), |j: int| f3(a, j));
        }
        lemma_sum_ext(0, k, |a: int| f2(a, p), row_sums(f3, 0, sp));
        lemma_sum_swap(0, k, 0, sp, f3);
        assert forall|q: int| 0 <= q < sp implies #[trigger] col_sums(f3, 0, k)(q) == d by {
            lemma_walk_ends_somewhere(s, p, q);
            lemma_sum_ext(0, k, shares_at(s, p, q), |a: int| f3(a, q));
        }
        lemma_sum_const(0, sp, col_sums(f3, 0, k), d);
    }
    let sz = |p: int| s[p] as int;
    assert forall|p: int| 0 <= p < k implies #[trigger] col_sums(f2, 0, k)(p) == d * sz(p) by {
        let v = s[p] as int;
        assert(v * d == d * v) by (nonlinear_arith);
    }
    lemma_sum_scale(0, k, sz, col_sums(f2, 0, k), d);
    lemma_parts_sum_range(s);
    lemma_sum_ext(0, k, sz, |p: int| s[p] as int);
    let n = parts_sum(s) as int;
    assert(d * n == n * d) by (nonlinear_arith);
}

// ---------------------------------------------------------------------------
// Removing a corner
// ---------------------------------------------------------------------------

/// The shape with the corner of row `a` removed (the row may become empty).
pub open spec fn without_corner(s: Seq<usize>, a: int) -> Seq<usize> {
    s.update(a, (s[a] - 1) as usize)
}

/// The hook lengths of row `r`, as a function of the column.
pub open spec fn row_hooks(s: Seq<usize>, r: int) -> spec_fn(int) -> int {
    |c: int| hook_spec(s, r, c) as int
}

/// The products of the hook lengths of each row.
pub open spec fn row_products(s: Seq<usize>) -> spec_fn(int) -> int {
    |r: int| prod_range(0, s[r] as int, row_hooks(s, r))
}

/// A product of ones is one.
pub proof fn lemma_prod_ones(lo: int, hi: int, f: spec_fn(int) -> int)
    requires
        forall|i: int| lo <= i < hi ==> #[trigger] f(i) == 1,
    ensures
        prod_range(lo, hi, f) == 1,
    decreases hi - lo,
{
    if hi > lo {
        lemma_prod_ones(lo, hi - 1, f);
    }
}

/// The product of all hook lengths, row by row.
pub proof fn lemma_hook_product_rows(s: Seq<usize>)
    ensures
        hook_product_spec(s) == prod_range(0, s.len() as int, row_products(s)),
{
    lemma_rows_product_range(s, s.len() as int);
}

proof fn lemma_row_product_range(s: Seq<usize>, r: int, m: int)
    requires
        0 <= m,
    ensures
        row_hook_product(s, r, m) == prod_range(0, m, row_hooks(s, r)),
    decreases m,
{
    if m > 0 {
        lemma_row_product_range(s, r, m - 1);
    }
}

proof fn lemma_rows_product_range(s: Seq<usize>, m: int)
    requires
        0 <= m <= s.len(),
    ensures
        rows_hook_product(s, m) == prod_range(0, m, row_products(s)),
    decreases m,
{
    if m > 0 {
        lemma_rows_product_range(s, m - 1);
        lemma_row_product_range(s, m - 1, s[m - 1] as int);
    }
}

/// Removing a corner keeps the shape a partition, and changes the column
/// lengths only in the corner's column, by one.
pub proof fn lemma_without_corner_columns(s: Seq<usize>, a: int)
    requires
        weakly_decreasing(s),
        is_corner_row(s, a),
    ensures
        weakly_decreasing(without_corner(s, a)),
        count_greater(without_corner(s, a), s[a] - 1) == a,
        forall|j: int| j != s[a] - 1 ==> #[trigger] count_greater(without_corner(s, a), j) == count_greater(s, j),
{
    let t = without_corner(s, a);
    let b: int = s[a] - 1;
    lemma_corner_facts(s, a);
    assert(weakly_decreasing(t)) by {
        assert forall|i: int, j: int| 0 <= i < j < t.len() implies #[trigger] t[j] <= #[trigger] t[i] by {
            assert(s[j] <= s[i]);
            if j == a + 1 {
                assert(s[a + 1] < s[a]);
            }
            if i == a && j > a {
                assert(s[j] < s[a]);
            }
        }
    }
    lemma_count_greater_prefix(t, b);
    let ct: int = count_greater(t, b) as int;
    if ct > a {
        assert(t[a] > b);
    }
    if ct < a {
        assert(t[ct] == s[ct]);
        assert(s[ct] >= s[a]);
    }
    assert forall|j: int| j != s[a] - 1 implies #[trigger] count_greater(t, j) == count_greater(s, j) by {
        lemma_count_greater_prefix(t, j);
        lemma_count_greater_prefix(s, j);
        let c1: int = count_greater(s, j) as int;
        let c2: int = count_greater(t, j) as int;
        if c1 < c2 {
            assert(t[c1] > j);
            assert(s[c1] <= j);
        }
        if c2 < c1 {
            assert(s[c2] > j);
            assert(t[c2] <= j);
        }
    }
}

/// Removing the corner of row `a` divides the hook product by the corner's
/// numerator and multiplies it by its denominator: the hooks above and left
/// of the corner each lose one, and the corner's hook of one goes.
pub proof fn lemma_hook_product_without_corner(s: Seq<usize>, a: int)
    requires
        weakly_decreasing(s),
        is_corner_row(s, a),
    ensures
        hook_product_spec(s) * corner_denominator(s, a) == hook_product_spec(without_corner(s, a)) * corner_numerator(s, a),
{
    let t = without_corner(s, a);
    let k = s.len() as int;
    let b: int = s[a] - 1;
    let x = column_steps(s, a);
    let y = row_steps(s, a);
    lemma_corner_facts(s, a);
    lemma_without_corner_columns(s, a);
    lemma_hook_product_rows(s);
    lemma_hook_product_rows(t);
    // hooks of the smaller shape
    assert forall|i: int, j: int| 0 <= i < k && 0 <= j < t[i] implies #[trigger] hook_spec(t, i, j) == hook_spec(s, i, j)
        - (if j == b { 1int } else { 0int }) - (if i == a { 1int } else { 0int }) by {
        lemma_hook_arm_leg(t, i, j);
        lemma_hook_arm_leg(s, i, j);
    }
    let ps = row_products(s);
    let pt = row_products(t);
    let py = prod_range(0, b, y);
    let py1 = prod_range(0, b, plus_one(y));
    let fs = |i: int| if i < a { x(i) } else if i == a { py } else { 1 };
    let ft = |i: int| if i < a { x(i) + 1 } else if i == a { py1 } else { 1 };
    let gs = |i: int| ps(i) * fs(i);
    let gt = |i: int| pt(i) * ft(i);
    assert forall|i: int| 0 <= i < k implies #[trigger] gs(i) == gt(i) by {
        let si = s[i] as int;
        if i < a {
            assert(si >= b + 1);
            lemma_prod_except(0, si, row_hooks(s, i), b);
            lemma_prod_except(0, si, row_hooks(t, i), b);
            lemma_prod_ext(0, si, except_at(row_hooks(s, i), b), except_at(row_hooks(t, i), b));
            lemma_hook_arm_leg(s, i, b);
            assert(row_hooks(s, i)(b) == x(i) + 1);
            assert(row_hooks(t, i)(b) == x(i));
            let r = prod_range(0, si, except_at(row_hooks(s, i), b));
            let xi = x(i);
            assert(((xi + 1) * r) * xi == (xi * r) * (xi + 1)) by (nonlinear_arith);
        } else if i == a {
            lemma_prod_split(0, b, b + 1, row_hooks(s, a));
            assert(prod_range(b, b + 1, row_hooks(s, a)) == 1) by {
                assert(prod_range(b, b, row_hooks(s, a)) == 1);
            }
            lemma_prod_ext(0, b, row_hooks(s, a), plus_one(y));
            lemma_prod_ext(0, b, row_hooks(t, a), y);
            assert((py1 * 1) * py == py * py1) by (nonlinear_arith);
        } else {
            assert(s[i] < s[a]);
            lemma_prod_ext(0, si, row_hooks(s, i), row_hooks(t, i));
        }
    }
    lemma_prod_ext(0, k, gs, gt);
    lemma_prod_mul(0, k, ps, fs, gs);
    lemma_prod_mul(0, k, pt, ft, gt);
    // the extra factors are the denominator and the numerator
    lemma_prod_split(0, a, k, fs);
    lemma_prod_split(a, a + 1, k, fs);
    lemma_prod_split(0, a, k, ft);
    lemma_prod_split(a, a + 1, k, ft);
    lemma_prod_ext(0, a, fs, x);
    lemma_prod_ext(0, a, ft, plus_one(x));
    lemma_prod_ones(a + 1, k, fs);
    lemma_prod_ones(a + 1, k, ft);
    assert(prod_range(a, a + 1, fs) == py) by {
        assert(prod_range(a, a, fs) == 1);
    }
    assert(prod_range(a, a + 1, ft) == py1) by {
        assert(prod_range(a, a, ft) == 1);
    }
    let px = prod_range(0, a, x);
    let px1 = prod_range(0, a, plus_one(x));
    assert(px * (py * 1) == px * py) by (nonlinear_arith);
    assert(px1 * (py1 * 1) == px1 * py1) by (nonlinear_arith);
}

// ---------------------------------------------------------------------------
// Standard tableaux: the cell holding the largest entry
// ---------------------------------------------------------------------------

/// The standard tableaux of a shape.
pub open spec fn standard_tableaux(s: Seq<usize>) -> Set<Seq<Seq<u32>>> {
    Set::new(|t: Seq<Seq<u32>>| is_standard_of_shape(t, s))
}

/// `t` without the last cell of row `a`.
pub open spec fn without_last(t: Seq<Seq<u32>>, a: int) -> Seq<Seq<u32>> {
    t.update(a, t[a].drop_last())
}

/// `t` with `v` appended to row `a`.
pub open spec fn with_appended(t: Seq<Seq<u32>>, a: int, v: u32) -> Seq<Seq<u32>> {
    t.update(a, t[a].push(v))
}

/// A tableau with the row lengths of a shape has as many cells as the shape.
pub proof fn lemma_cells_of_shape(t: Seq<Seq<u32>>, s: Seq<usize>)
    requires
        t.len() == s.len(),
        forall|r: int| 0 <= r < t.len() ==> #[trigger] t[r].len() == s[r],
    ensures
        cell_count(t) == parts_sum(s),
    decreases t.len(),
{
    if t.len() > 0 {
        lemma_cells_of_shape(t.drop_last(), s.drop_last());
    }
}

/// Removing a cell of row `a` takes one from the number of cells.
pub proof fn lemma_parts_sum_decrement(s: Seq<usize>, a: int)
    requires
        0 <= a < s.len(),
        s[a] >= 1,
    ensures
        parts_sum(s.update(a, (s[a] - 1) as usize)) + 1 == parts_sum(s),
    decreases s.len(),
{
    let u = s.update(a, (s[a] - 1) as usize);
    if a == s.len() - 1 {
        assert(u.drop_last() =~= s.drop_last());
    } else {
        lemma_parts_sum_decrement(s.drop_last(), a);
        assert(u.drop_last() =~= s.drop_last().update(a, (s[a] - 1) as usize));
    }
}

/// Removing the largest entry `n` from the end of a row of a standard tableau
/// of a partition shape: the row ends in a corner of the shape, and what is
/// left is a standard tableau of the shape without that corner.
pub proof fn lemma_remove_largest(s: Seq<usize>, t: Seq<Seq<u32>>, a: int)
    requires
        weakly_decreasing(s),
        is_standard_of_shape(t, s),
        parts_sum(s) >= 1,
        0 <= a < s.len(),
        t[a].len() >= 1,
        t[a].last() == parts_sum(s),
    ensures
        is_corner_row(s, a),
        is_standard_of_shape(without_last(t, a), without_corner(s, a)),
        with_appended(without_last(t, a), a, parts_sum(s) as u32) == t,
{
    let n = parts_sum(s) as int;
    let k = s.len() as int;
    let u = without_last(t, a);
    let s2 = without_corner(s, a);
    let c: int = t[a].len() - 1;
    lemma_cells_of_shape(t, s);
    lemma_parts_sum_decrement(s, a);
    assert(is_cell(t, a, c));
    if a + 1 < k && s[a + 1] >= s[a] {
        assert(is_cell(t, a + 1, c));
        assert(t[a][c] < t[a + 1][c]);
    }
    if a + 1 < k {
        assert(s[a + 1] <= s[a]);
    }
    assert(u.len() == s2.len());
    assert forall|r: int| 0 <= r < u.len() implies #[trigger] u[r].len() == s2[r] by {}
    lemma_cells_of_shape(u, s2);
    assert forall|r: int, i: int| is_cell(u, r, i) implies #[trigger] u[r][i] == t[r][i] && is_cell(t, r, i)
        && (r != a || i != c) by {}
    assert(is_standard_spec(u)) by {
        assert forall|r: int, i: int, j: int|
            0 <= r < u.len() && 0 <= i < j < u[r].len() implies #[trigger] u[r][i] < #[trigger] u[r][j] by {
            assert(t[r][i] < t[r][j]);
        }
        assert forall|r: int, r2: int, i: int|
            0 <= r && r2 == r + 1 && r2 < u.len() && 0 <= i < u[r].len() && i < u[r2].len() implies #[trigger] u[r][i]
            < #[trigger] u[r2][i] by {
            assert(t[r][i] < t[r2][i]);
        }
        assert forall|r: int, i: int| is_cell(u, r, i) implies 1 <= #[trigger] u[r][i] <= cell_count(u) by {
            assert(is_cell(t, r, i));
            assert(t[r][i] != t[a][c]);
        }
        assert forall|r1: int, c1: int, r2: int, c2: int|
            is_cell(u, r1, c1) && is_cell(u, r2, c2) && (r1 != r2 || c1 != c2) implies #[trigger] u[r1][c1]
            != #[trigger] u[r2][c2] by {
            assert(t[r1][c1] != t[r2][c2]);
        }
        assert forall|v: int| 1 <= v <= cell_count(u) implies holds_value(u, v) by {
            assert(holds_value(t, v));
            let (r, i) = choose|r: int, i: int| is_cell(t, r, i) && #[trigger] t[r][i] == v;
            assert(is_cell(u, r, i));
            assert(u[r][i] == v);
        }
    }
    assert(u[a].push(n as u32) =~= t[a]);
    assert(with_appended(u, a, n as u32) =~= t);
}

/// Appending `n` at the corner of row `a` to a standard tableau of the shape
/// without that corner gives a standard tableau of the shape.
pub proof fn lemma_append_largest(s: Seq<usize>, u: Seq<Seq<u32>>, a: int)
    requires
        weakly_decreasing(s),
        is_corner_row(s, a),
        parts_sum(s) <= u32::MAX,
        is_standard_of_shape(u, without_corner(s, a)),
    ensures
        is_standard_of_shape(with_appended(u, a, parts_sum(s) as u32), s),
        without_last(with_appended(u, a, parts_sum(s) as u32), a) == u,
{
    let n = parts_sum(s) as int;
    let k = s.len() as int;
    let s2 = without_corner(s, a);
    let w = with_appended(u, a, n as u32);
    let c: int = s[a] - 1;
    lemma_cells_of_shape(u, s2);
    lemma_parts_sum_decrement(s, a);
    lemma_corner_facts(s, a);
    assert forall|r: int| 0 <= r < w.len() implies #[trigger] w[r].len() == s[r] by {}
    lemma_cells_of_shape(w, s);
    assert forall|r: int, i: int| is_cell(w, r, i) implies #[trigger] w[r][i] == (if r == a && i == c { n as u32 } else {
        u[r][i]
    }) && (r == a && i == c || is_cell(u, r, i)) by {}
    assert forall|r: int, i: int| is_cell(u, r, i) implies 1 <= #[trigger] u[r][i] < n by {}
    assert(is_standard_spec(w)) by {
        assert forall|r: int, i: int, j: int|
            0 <= r < w.len() && 0 <= i < j < w[r].len() implies #[trigger] w[r][i] < #[trigger] w[r][j] by {
            if r == a && j == c {
                assert(is_cell(u, r, i));
            } else {
                assert(u[r][i] < u[r][j]);
            }
        }
        assert forall|r: int, r2: int, i: int|
            0 <= r && r2 == r + 1 && r2 < w.len() && 0 <= i < w[r].len() && i < w[r2].len() implies #[trigger] w[r][i]
            < #[trigger] w[r2][i] by {
            if r2 == a && i == c {
                assert(s[r] >= s[a]);
                assert(is_cell(u, r, i));
            } else if r == a && i == c {
                assert(s[r2] < s[a]);
            } else {
                assert(u[r][i] < u[r2][i]);
            }
        }
        assert forall|r: int, i: int| is_cell(w, r, i) implies 1 <= #[trigger] w[r][i] <= cell_count(w) by {}
        assert forall|r1: int, c1: int, r2: int, c2: int|
            is_cell(w, r1, c1) && is_cell(w, r2, c2) && (r1 != r2 || c1 != c2) implies #[trigger] w[r1][c1]
            != #[trigger] w[r2][c2] by {
            if !(r1 == a && c1 == c) && !(r2 == a && c2 == c) {
                assert(u[r1][c1] != u[r2][c2]);
            }
        }
        assert forall|v: int| 1 <= v <= cell_count(w) implies holds_value(w, v) by {
            if v == n {
                assert(is_cell(w, a, c) && w[a][c] == v);
            } else {
                assert(holds_value(u, v));
                let (r, i) = choose|r: int, i: int| is_cell(u, r, i) && #[trigger] u[r][i] == v;
                assert(is_cell(w, r, i) && w[r][i] == v);
            }
        }
    }
    assert(w[a].drop_last() =~= u[a]);
    assert(without_last(w, a) =~= u);
}

/// A standard tableau with at least one cell ends some row with its largest
/// entry, and only one.
pub proof fn lemma_largest_ends_a_row(s: Seq<usize>, t: Seq<Seq<u32>>)
    requires
        is_standard_of_shape(t, s),
        parts_sum(s) >= 1,
    ensures
        exists|a: int| 0 <= a < s.len() && t[a].len() >= 1 && #[trigger] t[a].last() == parts_sum(s),
        forall|a: int, b: int|
            0 <= a < s.len() && 0 <= b < s.len() && t[a].len() >= 1 && t[b].len() >= 1 && #[trigger] t[a].last()
                == parts_sum(s) && #[trigger] t[b].last() == parts_sum(s) ==> a == b,
{
    let n = parts_sum(s) as int;
    lemma_cells_of_shape(t, s);
    assert(holds_value(t, n));
    let (r, c) = choose|r: int, c: int| is_cell(t, r, c) && #[trigger] t[r][c] == n;
    if c + 1 < t[r].len() {
        assert(t[r][c] < t[r][c + 1]);
        assert(is_cell(t, r, c + 1));
    }
    assert(t[r].last() == n);
    assert forall|a: int, b: int|
        0 <= a < s.len() && 0 <= b < s.len() && t[a].len() >= 1 && t[b].len() >= 1 && #[trigger] t[a].last() == n
            && #[trigger] t[b].last() == n implies a == b by {
        assert(is_cell(t, a, t[a].len() - 1));
        assert(is_cell(t, b, t[b].len() - 1));
    }
}

// ---------------------------------------------------------------------------
// The corner recursion for standard tableaux
// ---------------------------------------------------------------------------

/// Appending `v` to row `a`, as a function.
pub open spec fn appender(a: int, v: u32) -> spec_fn(Seq<Seq<u32>>) -> Seq<Seq<u32>> {
    |u: Seq<Seq<u32>>| with_appended(u, a, v)
}

/// The standard tableaux of the shape whose largest entry ends row `a`.
pub open spec fn corner_piece(s: Seq<usize>, a: int) -> Set<Seq<Seq<u32>>> {
    standard_tableaux(without_corner(s, a)).map(appender(a, parts_sum(s) as u32))
}

/// The standard tableaux of the shape whose largest entry ends one of the
/// first `m` rows.
pub open spec fn pieces(s: Seq<usize>, m: int) -> Set<Seq<Seq<u32>>>
    decreases m,
{
    if m <= 0 {
        Set::empty()
    } else {
        pieces(s, m - 1) + (if is_corner_row(s, m - 1) { corner_piece(s, m - 1) } else { Set::empty() })
    }
}

/// For each row ending in a corner, the number of standard tableaux of the
/// shape without that corner; 0 for other rows.
pub open spec fn piece_sizes(s: Seq<usize>) -> spec_fn(int) -> int {
    |a: int| if is_corner_row(s, a) { standard_tableaux(without_corner(s, a)).len() as int } else { 0 }
}

/// The tableaux of the piece of row `a` are the standard tableaux of the
/// shape whose largest entry ends row `a`, and there are as many as standard
/// tableaux of the shape without that corner.
proof fn lemma_corner_piece(s: Seq<usize>, a: int)
    requires
        weakly_decreasing(s),
        is_corner_row(s, a),
        1 <= parts_sum(s) <= u32::MAX,
        standard_tableaux(without_corner(s, a)).finite(),
    ensures
        corner_piece(s, a).finite(),
        corner_piece(s, a).len() == standard_tableaux(without_corner(s, a)).len(),
        forall|t: Seq<Seq<u32>>| #[trigger] corner_piece(s, a).contains(t) <==> (is_standard_of_shape(t, s) && t[a].len()
            >= 1 && t[a].last() == parts_sum(s)),
{
    let n = parts_sum(s);
    let small = standard_tableaux(without_corner(s, a));
    let f = appender(a, n as u32);
    assert(injective_on(f, small)) by {
        assert forall|u1: Seq<Seq<u32>>, u2: Seq<Seq<u32>>|
            small.contains(u1) && small.contains(u2) && #[trigger] f(u1) == #[trigger] f(u2) implies u1 == u2 by {
            lemma_append_largest(s, u1, a);
            lemma_append_largest(s, u2, a);
        }
    }
    lemma_map_size(small, corner_piece(s, a), f);
    assert forall|t: Seq<Seq<u32>>| #[trigger] corner_piece(s, a).contains(t) <==> (is_standard_of_shape(t, s)
        && t[a].len() >= 1 && t[a].last() == n) by {
        if corner_piece(s, a).contains(t) {
            let u = choose|u: Seq<Seq<u32>>| small.contains(u) && t == f(u);
            lemma_append_largest(s, u, a);
            assert(t[a] == u[a].push(n as u32));
        }
        if is_standard_of_shape(t, s) && t[a].len() >= 1 && t[a].last() == n {
            lemma_remove_largest(s, t, a);
            let u = without_last(t, a);
            assert(small.contains(u) && t == f(u));
        }
    }
}

/// The first `m` pieces are disjoint; together they hold the standard
/// tableaux whose largest entry ends one of the first `m` rows.
proof fn lemma_pieces(s: Seq<usize>, m: int)
    requires
        weakly_decreasing(s),
        1 <= parts_sum(s) <= u32::MAX,
        0 <= m <= s.len(),
        forall|a: int| #[trigger] is_corner_row(s, a) ==> standard_tableaux(without_corner(s, a)).finite(),
    ensures
        pieces(s, m).finite(),
        pieces(s, m).len() == sum_range(0, m, piece_sizes(s)),
        forall|t: Seq<Seq<u32>>| #[trigger] pieces(s, m).contains(t) <==> (is_standard_of_shape(t, s) && exists|a: int|
            0 <= a < m && t[a].len() >= 1 && #[trigger] t[a].last() == parts_sum(s)),
    decreases m,
{
    let n = parts_sum(s);
    if m > 0 {
        lemma_pieces(s, m - 1);
        let prev = pieces(s, m - 1);
        let a = m - 1;
        let last = if is_corner_row(s, a) { corner_piece(s, a) } else { Set::empty() };
        if is_corner_row(s, a) {
            lemma_corner_piece(s, a);
        }
        assert(prev.disjoint(last)) by {
            assert forall|t: Seq<Seq<u32>>| prev.contains(t) implies !last.contains(t) by {
                if last.contains(t) {
                    let b = choose|b: int| 0 <= b < m - 1 && t[b].len() >= 1 && #[trigger] t[b].last() == n;
                    lemma_largest_ends_a_row(s, t);
                }
            }
        }
        lemma_set_disjoint_lens(prev, last);
        assert forall|t: Seq<Seq<u32>>| #[trigger] pieces(s, m).contains(t) <==> (is_standard_of_shape(t, s)
            && exists|b: int| 0 <= b < m && t[b].len() >= 1 && #[trigger] t[b].last() == n) by {
            if is_standard_of_shape(t, s) && t[a].len() >= 1 && t[a].last() == n {
                lemma_remove_largest(s, t, a);
            }
            if is_standard_of_shape(t, s) && exists|b: int| 0 <= b < m && t[b].len() >= 1 && #[trigger] t[b].last() == n {
                let b = choose|b: int| 0 <= b < m && t[b].len() >= 1 && #[trigger] t[b].last() == n;
                if b == a {
                    lemma_remove_largest(s, t, a);
                    assert(last.contains(t));
                } else {
                    assert(prev.contains(t));
                }
            }
        }
    } else {
        assert(sum_range(0, m, piece_sizes(s)) == 0);
    }
}

/// The standard tableaux of a shape with `n >= 1` cells, by the corner
/// holding `n`: their number is the sum over the corners of the numbers for
/// the shape without the corner.
pub proof fn lemma_corner_recursion(s: Seq<usize>)
    requires
        weakly_decreasing(s),
        1 <= parts_sum(s) <= u32::MAX,
        forall|a: int| #[trigger] is_corner_row(s, a) ==> standard_tableaux(without_corner(s, a)).finite(),
    ensures
        standard_tableaux(s).finite(),
        standard_tableaux(s).len() == sum_range(0, s.len() as int, piece_sizes(s)),
{
    let k = s.len() as int;
    lemma_pieces(s, k);
    assert(pieces(s, k) =~= standard_tableaux(s)) by {
        assert forall|t: Seq<Seq<u32>>| standard_tableaux(s).contains(t) implies pieces(s, k).contains(t) by {
            lemma_largest_ends_a_row(s, t);
        }
    }
}

// ---------------------------------------------------------------------------
// The hook length formula
// ---------------------------------------------------------------------------

/// The common denominator is positive.
proof fn lemma_common_denominator_pos(s: Seq<usize>)
    requires
        weakly_decreasing(s),
    ensures
        common_denominator(s) >= 1,
{
    assert forall|a: int| 0 <= a < s.len() implies #[trigger] denominators(s)(a) >= 1 by {
        if is_corner_row(s, a) {
            lemma_corner_facts(s, a);
            lemma_prod_pos(0, a, column_steps(s, a));
            lemma_prod_pos(0, s[a] - 1, row_steps(s, a));
            let x = prod_range(0, a, column_steps(s, a));
            let y = prod_range(0, s[a] - 1, row_steps(s, a));
            assert(x >= 1 && y >= 1 ==> x * y >= 1) by (nonlinear_arith);
        }
    }
    lemma_prod_pos(0, s.len() as int, denominators(s));
}

/// A shape with no cells has only zero parts.
proof fn lemma_parts_sum_zero(s: Seq<usize>)
    requires
        parts_sum(s) == 0,
    ensures
        forall|i: int| 0 <= i < s.len() ==> #[trigger] s[i] == 0,
    decreases s.len(),
{
    if s.len() > 0 {
        lemma_parts_sum_zero(s.drop_last());
        assert forall|i: int| 0 <= i < s.len() implies #[trigger] s[i] == 0 by {
            if i < s.len() - 1 {
                assert(s[i] == s.drop_last()[i]);
            }
        }
    }
}

/// The standard tableaux of a partition shape with `n` cells number `n!`
/// divided by the product of its hook lengths: their number times the hook
/// product is `n!`.
pub proof fn lemma_standard_count(s: Seq<usize>)
    requires
        weakly_decreasing(s),
        parts_sum(s) <= u32::MAX,
    ensures
        standard_tableaux(s).finite(),
        standard_tableaux(s).len() * hook_product_spec(s) == factorial_spec(parts_sum(s)),
    decreases parts_sum(s),
{
    let k = s.len() as int;
    let n = parts_sum(s);
    lemma_hook_product_rows(s);
    if n == 0 {
        lemma_parts_sum_zero(s);
        let t0 = Seq::new(s.len(), |i: int| Seq::<u32>::empty());
        assert forall|r: int| 0 <= r < t0.len() implies #[trigger] t0[r].len() == s[r] by {}
        lemma_cells_of_shape(t0, s);
        assert(is_standard_of_shape(t0, s));
        assert(standard_tableaux(s) =~= set![t0]) by {
            assert forall|t: Seq<Seq<u32>>| standard_tableaux(s).contains(t) implies t == t0 by {
                assert forall|r: int| 0 <= r < t.len() implies #[trigger] t[r] == t0[r] by {
                    assert(t[r].len() == 0);
                    assert(t[r] =~= Seq::<u32>::empty());
                }
                assert(t =~= t0);
            }
        }
        assert forall|r: int| 0 <= r < k implies #[trigger] row_products(s)(r) == 1 by {}
        lemma_prod_ones(0, k, row_products(s));
        assert(set![t0].len() == 1);
    } else {
        // the shapes without a corner
        assert forall|a: int| #[trigger] is_corner_row(s, a) implies standard_tableaux(without_corner(s, a)).finite()
            && standard_tableaux(without_corner(s, a)).len() * hook_product_spec(without_corner(s, a))
            == factorial_spec((n - 1) as nat) by {
            lemma_without_corner_columns(s, a);
            lemma_parts_sum_decrement(s, a);
            lemma_standard_count(without_corner(s, a));
        }
        lemma_corner_recursion(s);
        let h = hook_product_spec(s) as int;
        let d = common_denominator(s);
        let f = factorial_spec((n - 1) as nat) as int;
        let hd = h * d;
        // each corner: its count times h * d is (n - 1)! times its quotient term
        let lhs = |a: int| hd * piece_sizes(s)(a);
        let rhs = |a: int| f * quotient_terms(s)(a);
        assert forall|a: int| 0 <= a < k implies #[trigger] lhs(a) == rhs(a) by {
            if is_corner_row(s, a) {
                let t = without_corner(s, a);
                lemma_hook_product_without_corner(s, a);
                lemma_prod_except(0, k, denominators(s), a);
                let c = standard_tableaux(t).len() as int;
                let ht = hook_product_spec(t) as int;
                let da = corner_denominator(s, a);
                let ua = corner_numerator(s, a);
                let e = prod_range(0, k, except_at(denominators(s), a));
                assert(hd * c == f * (ua * e)) by (nonlinear_arith)
                    requires
                        hd == h * d,
                        d == da * e,
                        h * da == ht * ua,
                        c * ht == f,
                ;
            } else {
                assert(hd * 0 == 0 && f * 0 == 0) by (nonlinear_arith);
            }
        }
        lemma_sum_scale(0, k, piece_sizes(s), lhs, hd);
        lemma_sum_scale(0, k, quotient_terms(s), rhs, f);
        lemma_sum_ext(0, k, lhs, rhs);
        lemma_hook_quotients_sum(s);
        lemma_common_denominator_pos(s);
        let len = standard_tableaux(s).len() as int;
        let ni = n as int;
        assert(len * h == ni * f) by (nonlinear_arith)
            requires
                hd == h * d,
                hd * len == f * (ni * d),
                d >= 1,
        ;
    }
}

/// The hook length formula: the number of standard tableaux of a partition
/// shape is `hook_count_spec`, that is `n!` over the product of the hook
/// lengths (1 for the empty shape).
pub proof fn lemma_hook_length_formula(s: Seq<usize>)
    requires
        weakly_decreasing(s),
        parts_sum(s) <= u32::MAX,
    ensures
        standard_tableaux(s).finite(),
        standard_tableaux(s).len() == hook_count_spec(s),
        standard_tableaux(s).len() * hook_product_spec(s) == factorial_spec(parts_sum(s)),
{
    lemma_standard_count(s);
    let n = parts_sum(s);
    let len = standard_tableaux(s).len() as int;
    let h = hook_product_spec(s) as int;
    let f = factorial_spec(n) as int;
    lemma_factorial_pos(n);
    if n == 0 {
        lemma_hook_product_rows(s);
        lemma_parts_sum_zero(s);
        assert forall|r: int| 0 <= r < s.len() implies #[trigger] row_products(s)(r) == 1 by {}
        lemma_prod_ones(0, s.len() as int, row_products(s));
    } else {
        assert(h >= 1) by (nonlinear_arith)
            requires
                len * h == f,
                f >= 1,
                h >= 0,
                len >= 0,
        ;
        assert(f / h == len) by (nonlinear_arith)
            requires
                len * h == f,
                h >= 1,
        ;
    }
}

/// `n!` is positive.
pub proof fn lemma_factorial_pos(n: nat)
    ensures
        factorial_spec(n) >= 1,
    decreases n,
{
    if n > 0 {
        lemma_factorial_pos((n - 1) as nat);
        let f = factorial_spec((n - 1) as nat);
        assert(n * f >= 1) by (nonlinear_arith)
            requires
                n >= 1,
                f >= 1,
        ;
    }
}

/// `n!` grows with `n`.
proof fn lemma_factorial_grows(m: nat, n: nat)
    requires
        m <= n,
    ensures
        factorial_spec(m) <= factorial_spec(n),
    decreases n - m,
{
    if m < n {
        lemma_factorial_grows(m, (n - 1) as nat);
        lemma_factorial_pos((n - 1) as nat);
        let f = factorial_spec((n - 1) as nat);
        assert(n * f >= f) by (nonlinear_arith)
            requires
                n >= 1,
                f >= 1,
        ;
    }
}

/// A factorial that fits in a `u64` is that of at most 20.
pub proof fn lemma_factorial_fits(n: nat)
    requires
        factorial_spec(n) <= u64::MAX,
    ensures
        n <= 20,
{
    if n > 20 {
        lemma_factorial_grows(21, n);
        assert(factorial_spec(21) == 51090942171709440000) by {
            reveal_with_fuel(factorial_spec, 22);
        }
    }
}

} // verus!
