//! Elementary Knuth moves, reading words, and Schensted's theorem for
//! decreasing subsequences: the insertion tableau of a word has as many rows
//! as the word's longest strictly decreasing subsequence.
use vstd::prelude::*;
use crate::insertion::{bump_index, lemma_bump_index, insert_from, insertion_spec};
use crate::insertion_proofs::{sorted_row, rows_nonempty, lemma_insertion_tableau_props};
use crate::schensted::lemma_insert_from_keeps_rows;
use crate::tableau::{rows_weakly_increasing, columns_strictly_increasing};

verus! {

// ---------------------------------------------------------------------------
// Decreasing subsequences
// ---------------------------------------------------------------------------

/// `idx` lists increasing positions of `s` whose values strictly decrease.
pub open spec fn is_decreasing_subsequence(s: Seq<u32>, idx: Seq<int>) -> bool {
    &&& forall|i: int| 0 <= i < idx.len() ==> 0 <= #[trigger] idx[i] < s.len()
    &&& forall|i: int, j: int| 0 <= i < j < idx.len() ==> #[trigger] idx[i] < #[trigger] idx[j]
    &&& forall|i: int, j: int| 0 <= i < j < idx.len() ==> s[#[trigger] idx[i]] > s[#[trigger] idx[j]]
}

/// `s` has a strictly decreasing subsequence of length `n`.
pub open spec fn has_decreasing(s: Seq<u32>, n: int) -> bool {
    exists|idx: Seq<int>| #[trigger] is_decreasing_subsequence(s, idx) && idx.len() == n
}

/// `a` and `b` have strictly decreasing subsequences of exactly the same lengths.
pub open spec fn same_decreasing_lengths(a: Seq<u32>, b: Seq<u32>) -> bool {
    forall|n: int|
        #![trigger has_decreasing(a, n)]
        #![trigger has_decreasing(b, n)]
        has_decreasing(a, n) == has_decreasing(b, n)
}

/// Whatever letters surround them, `u` and `v` give words with decreasing
/// subsequences of the same lengths.
pub open spec fn decreasing_equivalent(u: Seq<u32>, v: Seq<u32>) -> bool {
    forall|c: Seq<u32>, d: Seq<u32>| #[trigger] same_decreasing_lengths(c + u + d, c + v + d)
}

// ---------------------------------------------------------------------------
// Elementary Knuth moves
// ---------------------------------------------------------------------------

/// `u` with the letters at positions `a` and `a + 1` exchanged.
pub open spec fn swap_adjacent(u: Seq<u32>, a: int) -> Seq<u32> {
    u.update(a, u[a + 1]).update(a + 1, u[a])
}

/// Where the exchange of positions `a` and `a + 1` sends position `p`.
pub open spec fn swapped_position(p: int, a: int) -> int {
    if p == a {
        a + 1
    } else if p == a + 1 {
        a
    } else {
        p
    }
}

/// The first elementary Knuth move at `i`: letters `x z y` with `x <= y < z`
/// become `z x y`.
pub open spec fn first_move_at(u: Seq<u32>, v: Seq<u32>, i: int) -> bool {
    &&& 0 <= i
    &&& i + 2 < u.len()
    &&& u[i] <= u[i + 2]
    &&& u[i + 2] < u[i + 1]
    &&& v == swap_adjacent(u, i)
}

/// The second elementary Knuth move at `i`: letters `y x z` with `x < y <= z`
/// become `y z x`.
pub open spec fn second_move_at(u: Seq<u32>, v: Seq<u32>, i: int) -> bool {
    &&& 0 <= i
    &&& i + 2 < u.len()
    &&& u[i + 1] < u[i]
    &&& u[i] <= u[i + 2]
    &&& v == swap_adjacent(u, i + 1)
}

// ---------------------------------------------------------------------------
// Moves keep the lengths of decreasing subsequences
// ---------------------------------------------------------------------------

/// Exchanging two adjacent letters keeps a decreasing subsequence that does
/// not use both of them.
proof fn lemma_swap_keeps_decreasing(u: Seq<u32>, a: int, idx: Seq<int>)
    requires
        0 <= a,
        a + 1 < u.len(),
        is_decreasing_subsequence(u, idx),
        forall|i: int, j: int|
            0 <= i < idx.len() && 0 <= j < idx.len() && #[trigger] idx[i] == a ==> #[trigger] idx[j] != a + 1,
    ensures
        is_decreasing_subsequence(swap_adjacent(u, a), idx.map_values(|p: int| swapped_position(p, a))),
{
    let v = swap_adjacent(u, a);
    let jdx = idx.map_values(|p: int| swapped_position(p, a));
    assert forall|i: int| 0 <= i < jdx.len() implies 0 <= #[trigger] jdx[i] < v.len() && v[jdx[i]]
        == u[idx[i]] by {}
    assert forall|i: int, j: int| 0 <= i < j < jdx.len() implies #[trigger] jdx[i] < #[trigger] jdx[j] by {
        assert(idx[i] < idx[j]);
    }
    assert forall|i: int, j: int| 0 <= i < j < jdx.len() implies v[#[trigger] jdx[i]] > v[#[trigger] jdx[j]] by {
        assert(u[idx[i]] > u[idx[j]]);
        assert(v[jdx[i]] == u[idx[i]]);
        assert(v[jdx[j]] == u[idx[j]]);
    }
}

/// A strictly increasing list of positions that holds `a` and `a + 1` holds
/// them side by side.
proof fn lemma_adjacent_entries(idx: Seq<int>, p: int, q: int, a: int)
    requires
        forall|i: int, j: int| 0 <= i < j < idx.len() ==> #[trigger] idx[i] < #[trigger] idx[j],
        0 <= p < idx.len(),
        0 <= q < idx.len(),
        idx[p] == a,
        idx[q] == a + 1,
    ensures
        q == p + 1,
{
    if q < p {
        assert(idx[q] < idx[p]);
    }
    if q > p + 1 {
        assert(idx[p] < idx[p + 1]);
        assert(idx[p + 1] < idx[q]);
    }
}

/// The first move keeps a decreasing subsequence of the word it starts from.
proof fn lemma_first_move_forward(u: Seq<u32>, v: Seq<u32>, i: int, idx: Seq<int>)
    requires
        first_move_at(u, v, i),
        is_decreasing_subsequence(u, idx),
    ensures
        has_decreasing(v, idx.len() as int),
{
    assert forall|p: int, q: int|
        0 <= p < idx.len() && 0 <= q < idx.len() && #[trigger] idx[p] == i implies #[trigger] idx[q] != i + 1 by {
        if idx[q] == i + 1 {
            lemma_adjacent_entries(idx, p, q, i);
            assert(u[idx[p]] > u[idx[q]]);
        }
    }
    lemma_swap_keeps_decreasing(u, i, idx);
    let jdx = idx.map_values(|p: int| swapped_position(p, i));
    assert(is_decreasing_subsequence(v, jdx) && jdx.len() == idx.len());
}

/// The first move, undone, keeps a decreasing subsequence.
proof fn lemma_first_move_backward(u: Seq<u32>, v: Seq<u32>, i: int, idx: Seq<int>)
    requires
        first_move_at(u, v, i),
        is_decreasing_subsequence(v, idx),
    ensures
        has_decreasing(u, idx.len() as int),
{
    assert(swap_adjacent(v, i) =~= u);
    if exists|p: int, q: int| 0 <= p < idx.len() && 0 <= q < idx.len() && #[trigger] idx[p] == i && #[trigger] idx[q] == i + 1 {
        let (p, q) = choose|p: int, q: int|
            0 <= p < idx.len() && 0 <= q < idx.len() && #[trigger] idx[p] == i && #[trigger] idx[q] == i + 1;
        lemma_adjacent_entries(idx, p, q, i);
        // v holds `z x y` at `i..i+3`; the subsequence takes `z x`, and `z y` serves in `u`.
        let jdx = idx.update(p, i + 1).update(q, i + 2);
        if q + 1 < idx.len() {
            assert(idx[q] < idx[q + 1]);
            if idx[q + 1] == i + 2 {
                assert(v[idx[q]] > v[idx[q + 1]]);
            }
            assert(idx[q + 1] > i + 2);
        }
        if p > 0 {
            assert(idx[p - 1] < idx[p]);
        }
        assert forall|k: int| 0 <= k < jdx.len() implies 0 <= #[trigger] jdx[k] < u.len() && u[jdx[k]] == (if k
            == q {
            u[i + 2]
        } else {
            v[idx[k]]
        }) by {
            if k < p {
                assert(idx[k] < idx[p]);
            } else if k > q {
                assert(idx[q] < idx[k]);
            }
        }
        assert forall|k: int, l: int| 0 <= k < l < jdx.len() implies #[trigger] jdx[k] < #[trigger] jdx[l] by {
            assert(idx[k] < idx[l]);
            if l > q {
                assert(idx[q] < idx[l]);
                if q + 1 < l {
                    assert(idx[q + 1] < idx[l]);
                }
            }
        }
        assert forall|k: int, l: int| 0 <= k < l < jdx.len() implies u[#[trigger] jdx[k]] > u[#[trigger] jdx[l]] by {
            assert(v[idx[k]] > v[idx[l]]);
            if l > q {
                assert(v[idx[q]] > v[idx[l]]);
            }
            if l == q && k < p {
                assert(v[idx[k]] > v[idx[p]]);
            }
        }
        assert(is_decreasing_subsequence(u, jdx));
    } else {
        lemma_swap_keeps_decreasing(v, i, idx);
        let jdx = idx.map_values(|p: int| swapped_position(p, i));
        assert(is_decreasing_subsequence(u, jdx) && jdx.len() == idx.len());
    }
}

/// The second move keeps a decreasing subsequence of the word it starts from.
proof fn lemma_second_move_forward(u: Seq<u32>, v: Seq<u32>, i: int, idx: Seq<int>)
    requires
        second_move_at(u, v, i),
        is_decreasing_subsequence(u, idx),
    ensures
        has_decreasing(v, idx.len() as int),
{
    assert forall|p: int, q: int|
        0 <= p < idx.len() && 0 <= q < idx.len() && #[trigger] idx[p] == i + 1 implies #[trigger] idx[q] != i + 2 by {
        if idx[q] == i + 2 {
            lemma_adjacent_entries(idx, p, q, i + 1);
            assert(u[idx[p]] > u[idx[q]]);
        }
    }
    lemma_swap_keeps_decreasing(u, i + 1, idx);
    let jdx = idx.map_values(|p: int| swapped_position(p, i + 1));
    assert(is_decreasing_subsequence(v, jdx) && jdx.len() == idx.len());
}

/// The second move, undone, keeps a decreasing subsequence.
proof fn lemma_second_move_backward(u: Seq<u32>, v: Seq<u32>, i: int, idx: Seq<int>)
    requires
        second_move_at(u, v, i),
        is_decreasing_subsequence(v, idx),
    ensures
        has_decreasing(u, idx.len() as int),
{
    assert(swap_adjacent(v, i + 1) =~= u);
    if exists|p: int, q: int|
        0 <= p < idx.len() && 0 <= q < idx.len() && #[trigger] idx[p] == i + 1 && #[trigger] idx[q] == i + 2 {
        let (p, q) = choose|p: int, q: int|
            0 <= p < idx.len() && 0 <= q < idx.len() && #[trigger] idx[p] == i + 1 && #[trigger] idx[q] == i + 2;
        lemma_adjacent_entries(idx, p, q, i + 1);
        // v holds `y z x` at `i..i+3`; the subsequence takes `z x`, and `y x` serves in `u`.
        let jdx = idx.update(p, i).update(q, i + 1);
        if p > 0 {
            assert(idx[p - 1] < idx[p]);
            if idx[p - 1] == i {
                assert(v[idx[p - 1]] > v[idx[p]]);
            }
            assert(idx[p - 1] < i);
        }
        if q + 1 < idx.len() {
            assert(idx[q] < idx[q + 1]);
        }
        assert forall|k: int| 0 <= k < jdx.len() implies 0 <= #[trigger] jdx[k] < u.len() && u[jdx[k]] == (if k
            == p {
            u[i]
        } else {
            v[idx[k]]
        }) by {
            if k < p {
                assert(idx[k] < idx[p]);
                if k < p - 1 {
                    assert(idx[k] < idx[p - 1]);
                }
            } else if k > q {
                assert(idx[q] < idx[k]);
            }
        }
        assert forall|k: int, l: int| 0 <= k < l < jdx.len() implies #[trigger] jdx[k] < #[trigger] jdx[l] by {
            assert(idx[k] < idx[l]);
            if k < p {
                assert(idx[k] < idx[p]);
                if k < p - 1 {
                    assert(idx[k] < idx[p - 1]);
                }
            }
        }
        assert forall|k: int, l: int| 0 <= k < l < jdx.len() implies u[#[trigger] jdx[k]] > u[#[trigger] jdx[l]] by {
            assert(v[idx[k]] > v[idx[l]]);
            if k < p {
                assert(v[idx[k]] > v[idx[p]]);
            }
            if k == p && l > q {
                assert(v[idx[q]] > v[idx[l]]);
            }
        }
        assert(is_decreasing_subsequence(u, jdx));
    } else {
        lemma_swap_keeps_decreasing(v, i + 1, idx);
        let jdx = idx.map_values(|p: int| swapped_position(p, i + 1));
        assert(is_decreasing_subsequence(u, jdx) && jdx.len() == idx.len());
    }
}


/// Either elementary move keeps the lengths of decreasing subsequences.
proof fn lemma_move_same_lengths(u: Seq<u32>, v: Seq<u32>, i: int)
    requires
        first_move_at(u, v, i) || second_move_at(u, v, i),
    ensures
        same_decreasing_lengths(u, v),
{
    assert forall|n: int| has_decreasing(u, n) implies has_decreasing(v, n) by {
        let idx = choose|idx: Seq<int>| #[trigger] is_decreasing_subsequence(u, idx) && idx.len() == n;
        if first_move_at(u, v, i) {
            lemma_first_move_forward(u, v, i, idx);
        } else {
            lemma_second_move_forward(u, v, i, idx);
        }
    }
    assert forall|n: int| has_decreasing(v, n) implies has_decreasing(u, n) by {
        let idx = choose|idx: Seq<int>| #[trigger] is_decreasing_subsequence(v, idx) && idx.len() == n;
        if first_move_at(u, v, i) {
            lemma_first_move_backward(u, v, i, idx);
        } else {
            lemma_second_move_backward(u, v, i, idx);
        }
    }
}

/// An elementary Knuth move stays one when letters are added on both sides.
proof fn lemma_move_frame(u: Seq<u32>, v: Seq<u32>, i: int, c: Seq<u32>, d: Seq<u32>)
    requires
        first_move_at(u, v, i) || second_move_at(u, v, i),
    ensures
        first_move_at(u, v, i) ==> first_move_at(c + u + d, c + v + d, c.len() + i),
        second_move_at(u, v, i) ==> second_move_at(c + u + d, c + v + d, c.len() + i),
{
    let j: int = c.len() + i;
    let cu = c + u + d;
    let cv = c + v + d;
    assert(cu[j] == u[i]);
    assert(cu[j + 1] == u[i + 1]);
    assert(cu[j + 2] == u[i + 2]);
    if first_move_at(u, v, i) {
        assert(cv =~= swap_adjacent(cu, j));
    }
    if second_move_at(u, v, i) {
        assert(cv =~= swap_adjacent(cu, j + 1));
    }
}

/// An elementary Knuth move relates words that are decreasing-equivalent.
pub proof fn lemma_move_equivalent(u: Seq<u32>, v: Seq<u32>, i: int)
    requires
        first_move_at(u, v, i) || second_move_at(u, v, i),
    ensures
        decreasing_equivalent(u, v),
{
    assert forall|c: Seq<u32>, d: Seq<u32>| #[trigger] same_decreasing_lengths(c + u + d, c + v + d) by {
        lemma_move_frame(u, v, i, c, d);
        lemma_move_same_lengths(c + u + d, c + v + d, c.len() + i);
    }
}

/// Decreasing equivalence is symmetric.
pub proof fn lemma_equivalent_symm(u: Seq<u32>, v: Seq<u32>)
    requires
        decreasing_equivalent(u, v),
    ensures
        decreasing_equivalent(v, u),
{
    assert forall|c: Seq<u32>, d: Seq<u32>| #[trigger] same_decreasing_lengths(c + v + d, c + u + d) by {
        assert(same_decreasing_lengths(c + u + d, c + v + d));
    }
}

/// Decreasing equivalence is transitive.
pub proof fn lemma_equivalent_trans(u: Seq<u32>, v: Seq<u32>, w: Seq<u32>)
    requires
        decreasing_equivalent(u, v),
        decreasing_equivalent(v, w),
    ensures
        decreasing_equivalent(u, w),
{
    assert forall|c: Seq<u32>, d: Seq<u32>| #[trigger] same_decreasing_lengths(c + u + d, c + w + d) by {
        assert(same_decreasing_lengths(c + u + d, c + v + d));
        assert(same_decreasing_lengths(c + v + d, c + w + d));
        assert forall|n: int| #[trigger] has_decreasing(c + u + d, n) == has_decreasing(c + w + d, n) by {
            assert(has_decreasing(c + u + d, n) == has_decreasing(c + v + d, n));
        }
    }
}

/// Equivalent words have decreasing subsequences of the same lengths.
pub proof fn lemma_equivalent_same_lengths(u: Seq<u32>, v: Seq<u32>)
    requires
        decreasing_equivalent(u, v),
    ensures
        same_decreasing_lengths(u, v),
{
    let e = Seq::<u32>::empty();
    assert(same_decreasing_lengths(e + u + e, e + v + e));
    assert(e + u + e =~= u);
    assert(e + v + e =~= v);
}

// ---------------------------------------------------------------------------
// Knuth equivalence
// ---------------------------------------------------------------------------

/// One elementary Knuth move, made either way, turns `u` into `v`.
pub open spec fn knuth_step(u: Seq<u32>, v: Seq<u32>) -> bool {
    exists|i: int|
        #![trigger first_move_at(u, v, i)]
        #![trigger first_move_at(v, u, i)]
        #![trigger second_move_at(u, v, i)]
        #![trigger second_move_at(v, u, i)]
        first_move_at(u, v, i) || first_move_at(v, u, i) || second_move_at(u, v, i) || second_move_at(v, u, i)
}

/// `k` elementary Knuth moves turn `u` into `v`.
pub open spec fn knuth_chain(u: Seq<u32>, v: Seq<u32>, k: nat) -> bool
    decreases k,
{
    if k == 0 {
        u == v
    } else {
        exists|w: Seq<u32>| #[trigger] knuth_step(u, w) && knuth_chain(w, v, (k - 1) as nat)
    }
}

/// Knuth equivalence: some sequence of elementary Knuth moves turns `u` into `v`.
pub open spec fn knuth_equivalent(u: Seq<u32>, v: Seq<u32>) -> bool {
    exists|k: nat| #[trigger] knuth_chain(u, v, k)
}

/// Every word is Knuth equivalent to itself.
pub proof fn lemma_knuth_refl(u: Seq<u32>)
    ensures
        knuth_equivalent(u, u),
{
    assert(knuth_chain(u, u, 0));
}

/// An elementary move makes Knuth equivalent words.
proof fn lemma_knuth_step_equivalent(u: Seq<u32>, v: Seq<u32>)
    requires
        knuth_step(u, v),
    ensures
        knuth_equivalent(u, v),
        knuth_chain(u, v, 1),
{
    assert(knuth_chain(v, v, 0));
    assert(knuth_chain(u, v, 1));
}

/// Either elementary move, made either way, makes Knuth equivalent words.
pub proof fn lemma_knuth_move(u: Seq<u32>, v: Seq<u32>, i: int)
    requires
        first_move_at(u, v, i) || second_move_at(u, v, i),
    ensures
        knuth_equivalent(u, v),
        knuth_equivalent(v, u),
{
    assert(first_move_at(u, v, i) || first_move_at(v, u, i) || second_move_at(u, v, i) || second_move_at(v, u, i));
    assert(knuth_step(u, v));
    assert(knuth_step(v, u));
    lemma_knuth_step_equivalent(u, v);
    lemma_knuth_step_equivalent(v, u);
}

/// Chains of moves compose.
proof fn lemma_knuth_chain_trans(u: Seq<u32>, v: Seq<u32>, w: Seq<u32>, k1: nat, k2: nat)
    requires
        knuth_chain(u, v, k1),
        knuth_chain(v, w, k2),
    ensures
        knuth_chain(u, w, k1 + k2),
    decreases k1,
{
    if k1 > 0 {
        let m = choose|m: Seq<u32>| #[trigger] knuth_step(u, m) && knuth_chain(m, v, (k1 - 1) as nat);
        lemma_knuth_chain_trans(m, v, w, (k1 - 1) as nat, k2);
        assert(((k1 + k2) - 1) as nat == (k1 - 1) as nat + k2);
        assert(knuth_step(u, m) && knuth_chain(m, w, ((k1 + k2) - 1) as nat));
    }
}

/// Knuth equivalence is transitive.
pub proof fn lemma_knuth_trans(u: Seq<u32>, v: Seq<u32>, w: Seq<u32>)
    requires
        knuth_equivalent(u, v),
        knuth_equivalent(v, w),
    ensures
        knuth_equivalent(u, w),
{
    let k1 = choose|k: nat| #[trigger] knuth_chain(u, v, k);
    let k2 = choose|k: nat| #[trigger] knuth_chain(v, w, k);
    lemma_knuth_chain_trans(u, v, w, k1, k2);
}

/// A chain of moves can be walked back.
proof fn lemma_knuth_chain_symm(u: Seq<u32>, v: Seq<u32>, k: nat)
    requires
        knuth_chain(u, v, k),
    ensures
        knuth_chain(v, u, k),
    decreases k,
{
    if k > 0 {
        let m = choose|m: Seq<u32>| #[trigger] knuth_step(u, m) && knuth_chain(m, v, (k - 1) as nat);
        lemma_knuth_chain_symm(m, v, (k - 1) as nat);
        let i = choose|i: int|
            #![trigger first_move_at(u, m, i)]
            #![trigger first_move_at(m, u, i)]
            #![trigger second_move_at(u, m, i)]
            #![trigger second_move_at(m, u, i)]
            first_move_at(u, m, i) || first_move_at(m, u, i) || second_move_at(u, m, i) || second_move_at(m, u, i);
        assert(knuth_step(m, u));
        lemma_knuth_step_equivalent(m, u);
        lemma_knuth_chain_trans(v, m, u, (k - 1) as nat, 1);
    }
}

/// Knuth equivalence is symmetric.
pub proof fn lemma_knuth_symm(u: Seq<u32>, v: Seq<u32>)
    requires
        knuth_equivalent(u, v),
    ensures
        knuth_equivalent(v, u),
{
    let k = choose|k: nat| #[trigger] knuth_chain(u, v, k);
    lemma_knuth_chain_symm(u, v, k);
}

/// A chain of moves stays one when letters are added on both sides.
proof fn lemma_knuth_chain_frame(u: Seq<u32>, v: Seq<u32>, c: Seq<u32>, d: Seq<u32>, k: nat)
    requires
        knuth_chain(u, v, k),
    ensures
        knuth_chain(c + u + d, c + v + d, k),
    decreases k,
{
    if k > 0 {
        let m = choose|m: Seq<u32>| #[trigger] knuth_step(u, m) && knuth_chain(m, v, (k - 1) as nat);
        lemma_knuth_chain_frame(m, v, c, d, (k - 1) as nat);
        let i = choose|i: int|
            #![trigger first_move_at(u, m, i)]
            #![trigger first_move_at(m, u, i)]
            #![trigger second_move_at(u, m, i)]
            #![trigger second_move_at(m, u, i)]
            first_move_at(u, m, i) || first_move_at(m, u, i) || second_move_at(u, m, i) || second_move_at(m, u, i);
        let j: int = c.len() + i;
        if first_move_at(u, m, i) || second_move_at(u, m, i) {
            lemma_move_frame(u, m, i, c, d);
        } else {
            lemma_move_frame(m, u, i, c, d);
        }
        assert(first_move_at(c + u + d, c + m + d, j) || first_move_at(c + m + d, c + u + d, j)
            || second_move_at(c + u + d, c + m + d, j) || second_move_at(c + m + d, c + u + d, j));
        assert(knuth_step(c + u + d, c + m + d));
    }
}

/// Knuth equivalence survives letters added on both sides.
pub proof fn lemma_knuth_frame(u: Seq<u32>, v: Seq<u32>, c: Seq<u32>, d: Seq<u32>)
    requires
        knuth_equivalent(u, v),
    ensures
        knuth_equivalent(c + u + d, c + v + d),
{
    let k = choose|k: nat| #[trigger] knuth_chain(u, v, k);
    lemma_knuth_chain_frame(u, v, c, d, k);
}

/// A chain of moves keeps the lengths of decreasing subsequences, whatever
/// surrounds it.
proof fn lemma_knuth_chain_decreasing(u: Seq<u32>, v: Seq<u32>, k: nat)
    requires
        knuth_chain(u, v, k),
    ensures
        decreasing_equivalent(u, v),
    decreases k,
{
    if k > 0 {
        let m = choose|m: Seq<u32>| #[trigger] knuth_step(u, m) && knuth_chain(m, v, (k - 1) as nat);
        lemma_knuth_chain_decreasing(m, v, (k - 1) as nat);
        let i = choose|i: int|
            #![trigger first_move_at(u, m, i)]
            #![trigger first_move_at(m, u, i)]
            #![trigger second_move_at(u, m, i)]
            #![trigger second_move_at(m, u, i)]
            first_move_at(u, m, i) || first_move_at(m, u, i) || second_move_at(u, m, i) || second_move_at(m, u, i);
        if first_move_at(u, m, i) || second_move_at(u, m, i) {
            lemma_move_equivalent(u, m, i);
        } else {
            lemma_move_equivalent(m, u, i);
            lemma_equivalent_symm(m, u);
        }
        lemma_equivalent_trans(u, m, v);
    }
}

/// Knuth equivalent words have decreasing subsequences of the same lengths,
/// whatever surrounds them.
pub proof fn lemma_knuth_implies_decreasing(u: Seq<u32>, v: Seq<u32>)
    requires
        knuth_equivalent(u, v),
    ensures
        decreasing_equivalent(u, v),
{
    let k = choose|k: nat| #[trigger] knuth_chain(u, v, k);
    lemma_knuth_chain_decreasing(u, v, k);
}

// ---------------------------------------------------------------------------
// Inserting a letter into a row
// ---------------------------------------------------------------------------

/// The row with the letter `x` standing just before position `m`.
spec fn letter_before(row: Seq<u32>, x: u32, m: int) -> Seq<u32> {
    row.take(m).push(x) + row.skip(m)
}

/// The row with its bumped entry `y = row[p]` moved to just before position
/// `m`, and `x` in the place that `y` left, where `p` is the bump position.
spec fn bumped_before(row: Seq<u32>, x: u32, m: int) -> Seq<u32> {
    let p = bump_index(row, x);
    row.take(m) + seq![row[p]] + row.subrange(m, p) + seq![x] + row.skip(p + 1)
}

/// Moving `x` left over the entries greater than it, one second move at a time.
proof fn lemma_row_first_phase(row: Seq<u32>, x: u32, m: int)
    requires
        sorted_row(row),
        bump_index(row, x) + 1 <= m <= row.len(),
    ensures
        knuth_equivalent(row.push(x), letter_before(row, x, m)),
    decreases row.len() - m,
{
    lemma_bump_index(row, x);
    let p = bump_index(row, x);
    if m == row.len() {
        assert(letter_before(row, x, m) =~= row.push(x));
        lemma_knuth_refl(row.push(x));
    } else {
        lemma_row_first_phase(row, x, m + 1);
        let a = letter_before(row, x, m);
        let b = letter_before(row, x, m + 1);
        if m - 1 > p {
            assert(row[p] <= row[m - 1]);
        }
        assert(a[m - 1] == row[m - 1]);
        assert(a[m] == x);
        assert(a[m + 1] == row[m]);
        assert(row[m - 1] <= row[m]);
        assert(b =~= swap_adjacent(a, m));
        assert(second_move_at(a, b, m - 1));
        lemma_knuth_move(a, b, m - 1);
        lemma_knuth_symm(a, b);
        lemma_knuth_trans(row.push(x), b, a);
    }
}

/// Moving the bumped entry left to the front, one first move at a time.
proof fn lemma_row_second_phase(row: Seq<u32>, x: u32, m: int)
    requires
        sorted_row(row),
        bump_index(row, x) < row.len(),
        0 <= m <= bump_index(row, x),
    ensures
        knuth_equivalent(row.push(x), bumped_before(row, x, m)),
    decreases bump_index(row, x) - m,
{
    lemma_bump_index(row, x);
    let p = bump_index(row, x);
    if m == p {
        lemma_row_first_phase(row, x, p + 1);
        assert(bumped_before(row, x, p) =~= letter_before(row, x, p + 1));
    } else {
        lemma_row_second_phase(row, x, m + 1);
        let a = bumped_before(row, x, m + 1);
        let b = bumped_before(row, x, m);
        assert(a[m] == row[m]);
        assert(a[m + 1] == row[p]);
        if m + 1 < p {
            assert(a[m + 2] == row[m + 1]);
            assert(row[m] <= row[m + 1]);
            assert(row[m + 1] <= x);
        } else {
            assert(a[m + 2] == x);
            assert(row[m] <= x);
        }
        assert(b =~= swap_adjacent(a, m));
        assert(first_move_at(a, b, m));
        lemma_knuth_move(a, b, m);
        lemma_knuth_trans(row.push(x), a, b);
    }
}

/// Inserting `x` into a weakly increasing row that has an entry greater than
/// `x`: the row followed by `x` is equivalent to the bumped entry followed by
/// the new row.
pub proof fn lemma_row_insert_equivalent(row: Seq<u32>, x: u32)
    requires
        sorted_row(row),
        bump_index(row, x) < row.len(),
    ensures
        knuth_equivalent(row.push(x), seq![row[bump_index(row, x)]] + row.update(bump_index(row, x), x)),
{
    lemma_bump_index(row, x);
    lemma_row_second_phase(row, x, 0);
    assert(bumped_before(row, x, 0) =~= seq![row[bump_index(row, x)]] + row.update(bump_index(row, x), x));
}

// ---------------------------------------------------------------------------
// Reading words
// ---------------------------------------------------------------------------

/// The rows of `t` from row `r` down, read from the bottom row up, each row
/// left to right.
pub open spec fn reading_from(t: Seq<Seq<u32>>, r: int) -> Seq<u32>
    decreases t.len() - r,
{
    if 0 <= r < t.len() {
        reading_from(t, r + 1) + t[r]
    } else {
        Seq::empty()
    }
}

/// The reading word of `t`: its rows from the bottom row up, each left to right.
pub open spec fn reading_word(t: Seq<Seq<u32>>) -> Seq<u32> {
    reading_from(t, 0)
}

/// The reading from row `r` down depends on those rows only.
proof fn lemma_reading_from_rows(t: Seq<Seq<u32>>, t2: Seq<Seq<u32>>, r: int)
    requires
        0 <= r,
        t.len() == t2.len(),
        forall|i: int| r <= i < t.len() ==> #[trigger] t[i] == t2[i],
    ensures
        reading_from(t, r) == reading_from(t2, r),
    decreases t.len() - r,
{
    if r < t.len() {
        lemma_reading_from_rows(t, t2, r + 1);
    }
}

/// Inserting `v` from row `r` on: the reading from row `r`, followed by `v`,
/// is equivalent to the reading from row `r` of the result.
proof fn lemma_insert_reading(t: Seq<Seq<u32>>, r: int, v: u32)
    requires
        0 <= r <= t.len(),
        rows_weakly_increasing(t),
    ensures
        knuth_equivalent(reading_from(t, r) + seq![v], reading_from(insert_from(t, r, v).0, r)),
    decreases t.len() - r,
{
    if r == t.len() {
        let big = t.push(seq![v]);
        assert(reading_from(big, r + 1) =~= Seq::<u32>::empty());
        assert(reading_from(big, r) =~= reading_from(t, r) + seq![v]);
        lemma_knuth_refl(reading_from(t, r) + seq![v]);
    } else {
        let row = t[r];
        let p = bump_index(row, v);
        lemma_bump_index(row, v);
        let a = reading_from(t, r + 1);
        assert(reading_from(t, r) == a + row);
        if p == row.len() {
            let big = t.update(r, row.push(v));
            lemma_reading_from_rows(t, big, r + 1);
            assert(reading_from(big, r) =~= reading_from(t, r) + seq![v]);
            lemma_knuth_refl(reading_from(t, r) + seq![v]);
        } else {
            let y = row[p];
            let row1 = row.update(p, v);
            let t1 = t.update(r, row1);
            assert(sorted_row(row)) by {
                assert forall|i: int, j: int| 0 <= i < j < row.len() implies #[trigger] row[i] <= #[trigger] row[j] by {
                    assert(t[r][i] <= t[r][j]);
                }
            }
            assert(rows_weakly_increasing(t1)) by {
                assert forall|k: int, i: int, j: int|
                    0 <= k < t1.len() && 0 <= i < j < t1[k].len() implies #[trigger] t1[k][i] <= #[trigger] t1[k][j] by {
                    assert(t[k][i] <= t[k][j]);
                    if k == r {
                        if j > p {
                            assert(t[k][p] <= t[k][j]);
                        }
                    }
                }
            }
            // The row step: `a row v` is equivalent to `a y row1`.
            lemma_row_insert_equivalent(row, v);
            lemma_knuth_frame(row.push(v), seq![y] + row1, a, Seq::empty());
            assert(a + row.push(v) + Seq::<u32>::empty() =~= reading_from(t, r) + seq![v]);
            assert(a + (seq![y] + row1) + Seq::<u32>::empty() =~= a + seq![y] + row1);
            // The rows below: `a y` is equivalent to the reading of the rows below after inserting `y`.
            lemma_reading_from_rows(t, t1, r + 1);
            lemma_insert_reading(t1, r + 1, y);
            let big = insert_from(t1, r + 1, y).0;
            assert(insert_from(t, r, v).0 == big);
            lemma_knuth_frame(reading_from(t1, r + 1) + seq![y], reading_from(big, r + 1), Seq::empty(), row1);
            assert(Seq::<u32>::empty() + (reading_from(t1, r + 1) + seq![y]) + row1 =~= a + seq![y] + row1);
            lemma_insert_from_keeps_rows(t1, r + 1, y);
            assert(big[r] == row1);
            assert(Seq::<u32>::empty() + reading_from(big, r + 1) + row1 =~= reading_from(big, r));
            lemma_knuth_trans(reading_from(t, r) + seq![v], a + seq![y] + row1, reading_from(big, r));
        }
    }
}

/// A word is equivalent to the reading word of its insertion tableau.
pub proof fn lemma_word_equivalent_reading(w: Seq<u32>)
    ensures
        knuth_equivalent(w, reading_word(insertion_spec(w))),
    decreases w.len(),
{
    if w.len() == 0 {
        assert(reading_word(insertion_spec(w)) =~= w);
        lemma_knuth_refl(w);
    } else {
        let prev = w.drop_last();
        let x = w.last();
        let t = insertion_spec(prev);
        lemma_word_equivalent_reading(prev);
        lemma_insertion_tableau_props(prev);
        lemma_knuth_frame(prev, reading_word(t), Seq::empty(), seq![x]);
        assert(Seq::<u32>::empty() + prev + seq![x] =~= w);
        assert(Seq::<u32>::empty() + reading_word(t) + seq![x] =~= reading_from(t, 0) + seq![x]);
        lemma_insert_reading(t, 0, x);
        lemma_knuth_trans(w, reading_from(t, 0) + seq![x], reading_word(insertion_spec(w)));
    }
}

/// The first entries of rows `r, r+1, ...` of a semistandard tableau, read from
/// the bottom up, form a strictly decreasing subsequence of its reading.
proof fn lemma_reading_first_column(t: Seq<Seq<u32>>, r: int) -> (idx: Seq<int>)
    requires
        0 <= r <= t.len(),
        columns_strictly_increasing(t),
        rows_nonempty(t),
    ensures
        is_decreasing_subsequence(reading_from(t, r), idx),
        idx.len() == t.len() - r,
        r < t.len() ==> reading_from(t, r)[idx[idx.len() - 1]] == t[r][0],
    decreases t.len() - r,
{
    if r == t.len() {
        Seq::empty()
    } else {
        let prev = lemma_reading_first_column(t, r + 1);
        let a = reading_from(t, r + 1);
        let s = reading_from(t, r);
        assert(s == a + t[r]);
        assert(t[r].len() > 0);
        let idx = prev.push(a.len() as int);
        assert(s[a.len() as int] == t[r][0]);
        assert forall|k: int| 0 <= k < prev.len() implies s[#[trigger] prev[k]] == a[prev[k]] by {}
        if r + 1 < t.len() {
            assert(t[r + 1].len() > 0);
            assert(t[r][0] < t[r + 1][0]);
        }
        assert forall|k: int, l: int| 0 <= k < l < idx.len() implies s[#[trigger] idx[k]] > s[#[trigger] idx[l]] by {
            if l == prev.len() {
                if k < prev.len() - 1 {
                    assert(a[prev[k]] > a[prev[prev.len() - 1]]);
                }
            } else {
                assert(a[prev[k]] > a[prev[l]]);
            }
        }
        idx
    }
}

/// A strictly decreasing subsequence of the reading of a tableau with weakly
/// increasing rows takes at most one letter from each row.
proof fn lemma_reading_decreasing_bound(t: Seq<Seq<u32>>, r: int, idx: Seq<int>)
    requires
        0 <= r <= t.len(),
        rows_weakly_increasing(t),
        is_decreasing_subsequence(reading_from(t, r), idx),
    ensures
        idx.len() <= t.len() - r,
    decreases t.len() - r,
{
    if r == t.len() {
        if idx.len() > 0 {
            assert(0 <= idx[0] < reading_from(t, r).len());
        }
    } else if idx.len() > 1 {
        let a = reading_from(t, r + 1);
        let s = reading_from(t, r);
        assert(s == a + t[r]);
        let n: int = idx.len() as int;
        assert(idx[n - 2] < idx[n - 1]);
        if idx[n - 2] >= a.len() {
            let i: int = idx[n - 2] - a.len();
            let j: int = idx[n - 1] - a.len();
            assert(t[r][i] <= t[r][j]);
            assert(s[idx[n - 2]] > s[idx[n - 1]]);
        }
        let front = idx.drop_last();
        assert forall|k: int| 0 <= k < front.len() implies 0 <= #[trigger] front[k] < a.len() && s[front[k]]
            == a[front[k]] by {
            if k < n - 2 {
                assert(idx[k] < idx[n - 2]);
            }
        }
        assert forall|k: int, l: int| 0 <= k < l < front.len() implies a[#[trigger] front[k]] > a[#[trigger] front[l]] by {
            assert(s[idx[k]] > s[idx[l]]);
        }
        assert(is_decreasing_subsequence(a, front));
        lemma_reading_decreasing_bound(t, r + 1, front);
    }
}

/// Schensted's theorem for columns: the insertion tableau of a word has as
/// many rows as the word's longest strictly decreasing subsequence.
pub proof fn lemma_rows_longest_decreasing(s: Seq<u32>)
    ensures
        exists|idx: Seq<int>| #[trigger] is_decreasing_subsequence(s, idx) && idx.len() == insertion_spec(s).len(),
        forall|idx: Seq<int>| #[trigger] is_decreasing_subsequence(s, idx) ==> idx.len() <= insertion_spec(s).len(),
{
    let t = insertion_spec(s);
    lemma_insertion_tableau_props(s);
    lemma_word_equivalent_reading(s);
    lemma_knuth_implies_decreasing(s, reading_word(t));
    lemma_equivalent_same_lengths(s, reading_word(t));
    let chain = lemma_reading_first_column(t, 0);
    assert(has_decreasing(reading_word(t), t.len() as int));
    assert(has_decreasing(s, t.len() as int));
    assert forall|idx: Seq<int>| #[trigger] is_decreasing_subsequence(s, idx) implies idx.len() <= t.len() by {
        assert(has_decreasing(s, idx.len() as int));
        assert(has_decreasing(reading_word(t), idx.len() as int));
        let other = choose|o: Seq<int>| #[trigger] is_decreasing_subsequence(reading_word(t), o) && o.len() == idx.len();
        lemma_reading_decreasing_bound(t, 0, other);
    }
}

// ---------------------------------------------------------------------------
// Words inserted row by row
// ---------------------------------------------------------------------------

/// `row` with `v` written at position `p`, appended when `p` is its length.
pub open spec fn put(row: Seq<u32>, p: int, v: u32) -> Seq<u32> {
    if p == row.len() {
        row.push(v)
    } else {
        row.update(p, v)
    }
}

/// The entry at position `p` as a word: empty past the end of the row.
pub open spec fn letter_at(row: Seq<u32>, p: int) -> Seq<u32> {
    if 0 <= p < row.len() {
        seq![row[p]]
    } else {
        Seq::empty()
    }
}

/// The letters of `w` inserted one by one into the single row `row`: the
/// final row, and the letters bumped out of it, in order.
pub open spec fn row_word(row: Seq<u32>, w: Seq<u32>) -> (Seq<u32>, Seq<u32>)
    decreases w.len(),
{
    if w.len() == 0 {
        (row, Seq::empty())
    } else {
        let prev = row_word(row, w.drop_last());
        let p = bump_index(prev.0, w.last());
        (put(prev.0, p, w.last()), prev.1 + letter_at(prev.0, p))
    }
}

/// The letters of `w` inserted one by one into `t` from row `r` on.
pub open spec fn insert_word_from(t: Seq<Seq<u32>>, r: int, w: Seq<u32>) -> Seq<Seq<u32>>
    decreases w.len(),
{
    if w.len() == 0 {
        t
    } else {
        insert_from(insert_word_from(t, r, w.drop_last()), r, w.last()).0
    }
}

/// Two words equal, or one elementary Knuth move apart at their start.
pub open spec fn one_move_apart(w1: Seq<u32>, w2: Seq<u32>) -> bool {
    ||| w1 == w2
    ||| first_move_at(w1, w2, 0)
    ||| first_move_at(w2, w1, 0)
    ||| second_move_at(w1, w2, 0)
    ||| second_move_at(w2, w1, 0)
}

/// The insertion tableau of `c + w` is that of `c` with the letters of `w` inserted.
proof fn lemma_insertion_of_concat(c: Seq<u32>, w: Seq<u32>)
    ensures
        insertion_spec(c + w) == insert_word_from(insertion_spec(c), 0, w),
    decreases w.len(),
{
    if w.len() == 0 {
        assert(c + w =~= c);
    } else {
        lemma_insertion_of_concat(c, w.drop_last());
        assert((c + w).drop_last() =~= c + w.drop_last());
        assert((c + w).last() == w.last());
    }
}

/// Inserting `a + b` is inserting `a`, then `b`.
proof fn lemma_insert_word_concat(t: Seq<Seq<u32>>, r: int, a: Seq<u32>, b: Seq<u32>)
    ensures
        insert_word_from(t, r, a + b) == insert_word_from(insert_word_from(t, r, a), r, b),
    decreases b.len(),
{
    if b.len() == 0 {
        assert(a + b =~= a);
    } else {
        lemma_insert_word_concat(t, r, a, b.drop_last());
        assert((a + b).drop_last() =~= a + b.drop_last());
        assert((a + b).last() == b.last());
    }
}

/// Inserting a word from row `q` on leaves the rows above `q` alone.
proof fn lemma_insert_word_keeps_rows(t: Seq<Seq<u32>>, q: int, w: Seq<u32>)
    requires
        0 <= q <= t.len(),
    ensures
        insert_word_from(t, q, w).len() >= t.len(),
        forall|i: int| 0 <= i < q ==> #[trigger] insert_word_from(t, q, w)[i] == t[i],
    decreases w.len(),
{
    if w.len() > 0 {
        lemma_insert_word_keeps_rows(t, q, w.drop_last());
        lemma_insert_from_keeps_rows(insert_word_from(t, q, w.drop_last()), q, w.last());
    }
}

/// Insertion from row `q` on commutes with changing a row above `q`.
proof fn lemma_insert_from_update(t: Seq<Seq<u32>>, q: int, v: u32, r: int, row: Seq<u32>)
    requires
        0 <= r < q,
        r < t.len(),
    ensures
        insert_from(t.update(r, row), q, v).0 == insert_from(t, q, v).0.update(r, row),
    decreases t.len() - q,
{
    let t2 = t.update(r, row);
    if q >= t.len() {
        assert(t2.push(seq![v]) =~= t.push(seq![v]).update(r, row));
    } else {
        assert(t2[q] == t[q]);
        let p = bump_index(t[q], v);
        if p == t[q].len() {
            assert(t2.update(q, t[q].push(v)) =~= t.update(q, t[q].push(v)).update(r, row));
        } else {
            let t3 = t.update(q, t[q].update(p, v));
            assert(t2.update(q, t[q].update(p, v)) =~= t3.update(r, row));
            lemma_insert_from_update(t3, q + 1, t[q][p], r, row);
        }
    }
}

/// Inserting a word from row `q` on commutes with changing a row above `q`.
proof fn lemma_insert_word_update(t: Seq<Seq<u32>>, q: int, w: Seq<u32>, r: int, row: Seq<u32>)
    requires
        0 <= r < q,
        q <= t.len(),
    ensures
        insert_word_from(t.update(r, row), q, w) == insert_word_from(t, q, w).update(r, row),
    decreases w.len(),
{
    if w.len() > 0 {
        lemma_insert_word_update(t, q, w.drop_last(), r, row);
        lemma_insert_word_keeps_rows(t, q, w.drop_last());
        lemma_insert_from_update(insert_word_from(t, q, w.drop_last()), q, w.last(), r, row);
    }
}

/// Inserting a word from row `r` on: row `r` takes the letters one by one,
/// and the letters it bumps go on to the rows below, in order.
proof fn lemma_insert_word_row(t: Seq<Seq<u32>>, r: int, w: Seq<u32>)
    requires
        0 <= r < t.len(),
    ensures
        insert_word_from(t, r, w) == insert_word_from(t.update(r, row_word(t[r], w).0), r + 1, row_word(t[r], w).1),
    decreases w.len(),
{
    if w.len() == 0 {
        assert(t.update(r, t[r]) =~= t);
    } else {
        let w1 = w.drop_last();
        let v = w.last();
        lemma_insert_word_row(t, r, w1);
        let prev = row_word(t[r], w1);
        let t1 = t.update(r, prev.0);
        let x = insert_word_from(t1, r + 1, prev.1);
        lemma_insert_word_keeps_rows(t1, r + 1, prev.1);
        assert(x[r] == prev.0);
        let p = bump_index(prev.0, v);
        lemma_bump_index(prev.0, v);
        let next = row_word(t[r], w);
        assert(next.0 == put(prev.0, p, v));
        assert(t1.update(r, next.0) =~= t.update(r, next.0));
        lemma_insert_word_update(t1, r + 1, prev.1, r, next.0);
        if p == prev.0.len() {
            assert(next.1 =~= prev.1);
        } else {
            assert(next.1 =~= prev.1.push(prev.0[p]));
            assert(next.1.drop_last() =~= prev.1);
        }
    }
}

/// A missing row behaves as an empty one once a letter arrives.
proof fn lemma_insert_word_pad(t: Seq<Seq<u32>>, w: Seq<u32>)
    requires
        w.len() > 0,
    ensures
        insert_word_from(t, t.len() as int, w) == insert_word_from(t.push(Seq::empty()), t.len() as int, w),
    decreases w.len(),
{
    let r: int = t.len() as int;
    if w.len() == 1 {
        let e = Seq::<u32>::empty();
        assert(w.drop_last() =~= e);
        let tp = t.push(e);
        assert(insert_word_from(t, r, e) == t);
        assert(insert_word_from(tp, r, e) == tp);
        assert(tp[r] == e);
        assert(bump_index(e, w.last()) == 0);
        assert(insert_from(t, r, w.last()).0 == t.push(seq![w.last()]));
        assert(tp.update(r, e.push(w.last())) =~= t.push(seq![w.last()]));
        assert(insert_from(tp, r, w.last()).0 == tp.update(r, e.push(w.last())));
    } else {
        lemma_insert_word_pad(t, w.drop_last());
    }
}

/// Row insertion keeps a row weakly increasing.
proof fn lemma_put_sorted(row: Seq<u32>, v: u32)
    requires
        sorted_row(row),
    ensures
        sorted_row(put(row, bump_index(row, v), v)),
{
    lemma_bump_index(row, v);
    let p = bump_index(row, v);
    let r2 = put(row, p, v);
    assert forall|i: int, j: int| 0 <= i < j < r2.len() implies #[trigger] r2[i] <= #[trigger] r2[j] by {
        if j < row.len() && i != p && j != p {
            assert(row[i] <= row[j]);
        }
        if i == p && j < row.len() {
            assert(row[p] <= row[j]);
        }
    }
}

/// The letters of a word inserted into a row keep it weakly increasing; no
/// more letters are bumped than arrive, and fewer when the row starts empty.
proof fn lemma_row_word_props(row: Seq<u32>, w: Seq<u32>)
    requires
        sorted_row(row),
    ensures
        sorted_row(row_word(row, w).0),
        row_word(row, w).1.len() <= w.len(),
        row.len() == 0 && w.len() > 0 ==> row_word(row, w).1.len() < w.len(),
    decreases w.len(),
{
    if w.len() > 0 {
        lemma_row_word_props(row, w.drop_last());
        let prev = row_word(row, w.drop_last());
        lemma_put_sorted(prev.0, w.last());
        if w.len() == 1 && row.len() == 0 {
            assert(prev.0.len() == 0);
            lemma_bump_index(prev.0, w.last());
        }
    }
}

/// `p` is where `v` lands in `row` when every entry before `p` is at most `v`
/// and the entry at `p`, if any, is greater.
proof fn lemma_bump_at(row: Seq<u32>, v: u32, p: int)
    requires
        0 <= p <= row.len(),
        forall|k: int| 0 <= k < p ==> #[trigger] row[k] <= v,
        p < row.len() ==> row[p] > v,
    ensures
        bump_index(row, v) == p,
{
    lemma_bump_index(row, v);
    let b = bump_index(row, v);
    if b < p {
        assert(row[b] <= v);
    }
    if b > p {
        assert(row[p] <= v);
    }
}

/// A larger letter lands no further left.
proof fn lemma_bump_monotone(row: Seq<u32>, v: u32, w: u32)
    requires
        v <= w,
    ensures
        bump_index(row, v) <= bump_index(row, w),
{
    lemma_bump_index(row, v);
    lemma_bump_index(row, w);
    if bump_index(row, w) < bump_index(row, v) {
        assert(row[bump_index(row, w)] <= v);
    }
}

/// Three letters inserted into a row one after the other: the final row and
/// the bumped letters.
spec fn three_steps(row: Seq<u32>, a: u32, b: u32, c: u32) -> (Seq<u32>, Seq<u32>) {
    let p1 = bump_index(row, a);
    let r1 = put(row, p1, a);
    let p2 = bump_index(r1, b);
    let r2 = put(r1, p2, b);
    let p3 = bump_index(r2, c);
    (put(r2, p3, c), letter_at(row, p1) + letter_at(r1, p2) + letter_at(r2, p3))
}

/// Three letters inserted into a row, step by step.
proof fn lemma_row_word_three(row: Seq<u32>, a: u32, b: u32, c: u32)
    ensures
        row_word(row, seq![a, b, c]) == three_steps(row, a, b, c),
{
    let e = Seq::<u32>::empty();
    assert(seq![a, b, c].drop_last() =~= seq![a, b]);
    assert(seq![a, b].drop_last() =~= seq![a]);
    assert(seq![a].drop_last() =~= e);
    let p1 = bump_index(row, a);
    let r1 = put(row, p1, a);
    let p2 = bump_index(r1, b);
    let r2 = put(r1, p2, b);
    let p3 = bump_index(r2, c);
    assert(row_word(row, e) == (row, e));
    assert(row_word(row, seq![a]) == (r1, e + letter_at(row, p1)));
    assert(row_word(row, seq![a, b]) == (r2, e + letter_at(row, p1) + letter_at(r1, p2)));
    assert(e + letter_at(row, p1) + letter_at(r1, p2) + letter_at(r2, p3) =~= letter_at(row, p1) + letter_at(r1, p2)
        + letter_at(r2, p3));
}

/// In a single row, `x z y` and `z x y` with `x <= y < z` give the same row,
/// and bumped words that are equal or one elementary move apart.
proof fn lemma_row_first_move(row: Seq<u32>, x: u32, y: u32, z: u32)
    requires
        sorted_row(row),
        x <= y,
        y < z,
    ensures
        row_word(row, seq![x, z, y]).0 == row_word(row, seq![z, x, y]).0,
        one_move_apart(row_word(row, seq![x, z, y]).1, row_word(row, seq![z, x, y]).1),
{
    let n: int = row.len() as int;
    lemma_bump_index(row, x);
    lemma_bump_index(row, y);
    lemma_bump_index(row, z);
    let px = bump_index(row, x);
    let py = bump_index(row, y);
    let pz = bump_index(row, z);
    lemma_bump_monotone(row, x, y);
    lemma_bump_monotone(row, y, z);
    lemma_row_word_three(row, x, z, y);
    lemma_row_word_three(row, z, x, y);
    let a1 = put(row, px, x);
    let b1 = put(row, pz, z);
    if px == pz {
        if px + 1 < n {
            assert(row[px] <= row[px + 1]);
        }
        assert forall|k: int| 0 <= k < px + 1 implies #[trigger] a1[k] <= z by {
            if k < px {
                assert(row[k] <= x);
            }
        }
        lemma_bump_at(a1, z, px + 1);
        let a2 = put(a1, px + 1, z);
        assert forall|k: int| 0 <= k < px + 1 implies #[trigger] a2[k] <= y by {
            if k < px {
                assert(row[k] <= x);
            }
        }
        lemma_bump_at(a2, y, px + 1);
        let a3 = put(a2, px + 1, y);
        assert forall|k: int| 0 <= k < px implies #[trigger] b1[k] <= x by {
            assert(row[k] <= x);
        }
        lemma_bump_at(b1, x, px);
        let b2 = put(b1, px, x);
        assert forall|k: int| 0 <= k < px + 1 implies #[trigger] b2[k] <= y by {
            if k < px {
                assert(row[k] <= x);
            }
        }
        lemma_bump_at(b2, y, px + 1);
        let b3 = put(b2, px + 1, y);
        assert(a3 =~= b3);
        let wa = letter_at(row, px) + letter_at(a1, px + 1) + letter_at(a2, px + 1);
        let wb = letter_at(row, pz) + letter_at(b1, px) + letter_at(b2, px + 1);
        if px + 1 < n {
            assert(wa =~= seq![row[px], row[px + 1], z]);
            assert(wb =~= seq![row[px], z, row[px + 1]]);
            assert(wa =~= swap_adjacent(wb, 1));
            assert(second_move_at(wb, wa, 0));
        } else if px < n {
            assert(wa =~= seq![row[px], z]);
            assert(wb =~= seq![row[px], z]);
        } else {
            assert(wa =~= seq![z]);
            assert(wb =~= seq![z]);
        }
    } else {
        assert forall|k: int| 0 <= k < pz implies #[trigger] a1[k] <= z by {
            if k < px {
                assert(row[k] <= x);
            } else if k > px {
                assert(row[k] <= z);
            }
        }
        lemma_bump_at(a1, z, pz);
        let a2 = put(a1, pz, z);
        let q: int = if py > px { py } else { px + 1 };
        if py == px && px + 1 < n {
            assert(row[px] <= row[px + 1]);
        }
        assert forall|k: int| 0 <= k < q implies #[trigger] a2[k] <= y by {
            if k < px {
                assert(row[k] <= x);
            } else if k > px {
                assert(row[k] <= y);
            }
        }
        lemma_bump_at(a2, y, q);
        let a3 = put(a2, q, y);
        assert forall|k: int| 0 <= k < px implies #[trigger] b1[k] <= x by {
            assert(row[k] <= x);
        }
        lemma_bump_at(b1, x, px);
        let b2 = put(b1, px, x);
        assert(b2 =~= a2);
        let wa = letter_at(row, px) + letter_at(a1, pz) + letter_at(a2, q);
        let wb = letter_at(row, pz) + letter_at(b1, px) + letter_at(b2, q);
        let yb = a2[q];
        if q < pz {
            assert(row[px] <= row[q]);
            assert(row[q] <= z);
        } else {
            assert(row[px] <= z);
        }
        if pz < n {
            assert(wa =~= seq![row[px], row[pz], yb]);
            assert(wb =~= seq![row[pz], row[px], yb]);
            assert(wb =~= swap_adjacent(wa, 0));
            assert(first_move_at(wa, wb, 0));
        } else {
            assert(wa =~= seq![row[px], yb]);
            assert(wb =~= seq![row[px], yb]);
        }
    }
}

/// In a single row, `y x z` and `y z x` with `x < y <= z` give the same row,
/// and bumped words that are equal or one elementary move apart.
proof fn lemma_row_second_move(row: Seq<u32>, x: u32, y: u32, z: u32)
    requires
        sorted_row(row),
        x < y,
        y <= z,
    ensures
        row_word(row, seq![y, x, z]).0 == row_word(row, seq![y, z, x]).0,
        one_move_apart(row_word(row, seq![y, x, z]).1, row_word(row, seq![y, z, x]).1),
{
    let n: int = row.len() as int;
    lemma_bump_index(row, x);
    lemma_bump_index(row, y);
    lemma_bump_index(row, z);
    let px = bump_index(row, x);
    let py = bump_index(row, y);
    let pz = bump_index(row, z);
    lemma_bump_monotone(row, x, y);
    lemma_bump_monotone(row, y, z);
    lemma_row_word_three(row, y, x, z);
    lemma_row_word_three(row, y, z, x);
    let c1 = put(row, py, y);
    let qz: int = if pz > py { pz } else { py + 1 };
    if pz == py && py + 1 < n {
        assert(row[py] <= row[py + 1]);
    }
    assert forall|k: int| 0 <= k < px implies #[trigger] c1[k] <= x by {
        assert(row[k] <= x);
    }
    lemma_bump_at(c1, x, px);
    let a2 = put(c1, px, x);
    assert forall|k: int| 0 <= k < qz implies #[trigger] a2[k] <= z by {
        if k < px {
            assert(row[k] <= x);
        } else if k != px && k != py {
            assert(row[k] <= z);
        }
    }
    lemma_bump_at(a2, z, qz);
    let a3 = put(a2, qz, z);
    assert forall|k: int| 0 <= k < qz implies #[trigger] c1[k] <= z by {
        if k != py {
            assert(row[k] <= z);
        }
    }
    lemma_bump_at(c1, z, qz);
    let b2 = put(c1, qz, z);
    assert forall|k: int| 0 <= k < px implies #[trigger] b2[k] <= x by {
        assert(row[k] <= x);
    }
    lemma_bump_at(b2, x, px);
    let b3 = put(b2, px, x);
    assert(a3 =~= b3);
    let wa = letter_at(row, py) + letter_at(c1, px) + letter_at(a2, qz);
    let wb = letter_at(row, py) + letter_at(c1, qz) + letter_at(b2, px);
    assert(letter_at(a2, qz) == letter_at(c1, qz));
    assert(letter_at(c1, px) == letter_at(b2, px));
    if py < n && qz < n {
        assert(row[py] <= row[qz]);
        assert(c1[px] < row[py]) by {
            if px < py {
                assert(row[px] <= y);
            }
        }
        assert(wa =~= seq![row[py], c1[px], row[qz]]);
        assert(wb =~= seq![row[py], row[qz], c1[px]]);
        assert(wb =~= swap_adjacent(wa, 1));
        assert(second_move_at(wa, wb, 0));
    } else if py < n {
        assert(wa =~= seq![row[py], c1[px]]);
        assert(wb =~= seq![row[py], c1[px]]);
    } else {
        assert(wa =~= seq![c1[px]]);
        assert(wb =~= seq![c1[px]]);
    }
}

/// In a single row, three-letter words one elementary move apart give the
/// same row, and bumped words that are equal or one move apart.
proof fn lemma_row_move_apart(row: Seq<u32>, w1: Seq<u32>, w2: Seq<u32>)
    requires
        sorted_row(row),
        w1.len() == 3,
        one_move_apart(w1, w2),
    ensures
        row_word(row, w1).0 == row_word(row, w2).0,
        one_move_apart(row_word(row, w1).1, row_word(row, w2).1),
{
    if w1 != w2 {
        if first_move_at(w1, w2, 0) {
            assert(w1 =~= seq![w1[0], w1[1], w1[2]]);
            assert(w2 =~= seq![w1[1], w1[0], w1[2]]);
            lemma_row_first_move(row, w1[0], w1[2], w1[1]);
        } else if first_move_at(w2, w1, 0) {
            assert(w2 =~= seq![w2[0], w2[1], w2[2]]);
            assert(w1 =~= seq![w2[1], w2[0], w2[2]]);
            lemma_row_first_move(row, w2[0], w2[2], w2[1]);
        } else if second_move_at(w1, w2, 0) {
            assert(w1 =~= seq![w1[0], w1[1], w1[2]]);
            assert(w2 =~= seq![w1[0], w1[2], w1[1]]);
            lemma_row_second_move(row, w1[1], w1[0], w1[2]);
        } else {
            assert(second_move_at(w2, w1, 0));
            assert(w2 =~= seq![w2[0], w2[1], w2[2]]);
            assert(w1 =~= seq![w2[0], w2[2], w2[1]]);
            lemma_row_second_move(row, w2[1], w2[0], w2[2]);
        }
    }
}

/// Words of at most three letters that are equal or one elementary move
/// apart, inserted from row `r` on, give the same tableau.
proof fn lemma_apart_words_insert_alike(t: Seq<Seq<u32>>, r: int, w1: Seq<u32>, w2: Seq<u32>)
    requires
        0 <= r <= t.len(),
        rows_weakly_increasing(t),
        w1.len() <= 3,
        one_move_apart(w1, w2),
    ensures
        insert_word_from(t, r, w1) == insert_word_from(t, r, w2),
    decreases t.len() - r, w1.len(),
{
    if w1 != w2 {
        assert(w1.len() == 3);
        let base = if r < t.len() { t } else { t.push(Seq::empty()) };
        if r == t.len() {
            lemma_insert_word_pad(t, w1);
            lemma_insert_word_pad(t, w2);
        }
        let row = base[r];
        assert(sorted_row(row)) by {
            if r < t.len() {
                assert forall|i: int, j: int| 0 <= i < j < row.len() implies #[trigger] row[i] <= #[trigger] row[j] by {
                    assert(t[r][i] <= t[r][j]);
                }
            }
        }
        lemma_row_move_apart(row, w1, w2);
        lemma_row_word_props(row, w1);
        lemma_insert_word_row(base, r, w1);
        lemma_insert_word_row(base, r, w2);
        let res = row_word(row, w1);
        let t1 = base.update(r, res.0);
        assert(rows_weakly_increasing(t1)) by {
            assert forall|k: int, i: int, j: int|
                0 <= k < t1.len() && 0 <= i < j < t1[k].len() implies #[trigger] t1[k][i] <= #[trigger] t1[k][j] by {
                if k != r {
                    assert(t[k][i] <= t[k][j]);
                }
            }
        }
        lemma_apart_words_insert_alike(t1, r + 1, res.1, row_word(row, w2).1);
    }
}

/// An elementary Knuth move keeps the insertion tableau.
pub proof fn lemma_move_keeps_tableau(u: Seq<u32>, v: Seq<u32>, i: int)
    requires
        first_move_at(u, v, i) || second_move_at(u, v, i),
    ensures
        insertion_spec(u) == insertion_spec(v),
{
    let c = u.take(i);
    let m1 = u.subrange(i, i + 3);
    let m2 = v.subrange(i, i + 3);
    let d = u.skip(i + 3);
    assert(u =~= c + (m1 + d));
    assert(v =~= c + (m2 + d));
    if first_move_at(u, v, i) {
        assert(m2 =~= swap_adjacent(m1, 0));
        assert(first_move_at(m1, m2, 0));
    } else {
        assert(m2 =~= swap_adjacent(m1, 1));
        assert(second_move_at(m1, m2, 0));
    }
    let t = insertion_spec(c);
    lemma_insertion_tableau_props(c);
    lemma_apart_words_insert_alike(t, 0, m1, m2);
    lemma_insertion_of_concat(c, m1 + d);
    lemma_insertion_of_concat(c, m2 + d);
    lemma_insert_word_concat(t, 0, m1, d);
    lemma_insert_word_concat(t, 0, m2, d);
}

/// A chain of moves keeps the insertion tableau.
proof fn lemma_knuth_chain_same_tableau(u: Seq<u32>, v: Seq<u32>, k: nat)
    requires
        knuth_chain(u, v, k),
    ensures
        insertion_spec(u) == insertion_spec(v),
    decreases k,
{
    if k > 0 {
        let m = choose|m: Seq<u32>| #[trigger] knuth_step(u, m) && knuth_chain(m, v, (k - 1) as nat);
        lemma_knuth_chain_same_tableau(m, v, (k - 1) as nat);
        let i = choose|i: int|
            #![trigger first_move_at(u, m, i)]
            #![trigger first_move_at(m, u, i)]
            #![trigger second_move_at(u, m, i)]
            #![trigger second_move_at(m, u, i)]
            first_move_at(u, m, i) || first_move_at(m, u, i) || second_move_at(u, m, i) || second_move_at(m, u, i);
        if first_move_at(u, m, i) || second_move_at(u, m, i) {
            lemma_move_keeps_tableau(u, m, i);
        } else {
            lemma_move_keeps_tableau(m, u, i);
        }
    }
}

/// Knuth's theorem: two words are Knuth equivalent exactly when they have the
/// same insertion tableau.
pub proof fn lemma_knuth_equivalent_iff_same_tableau(u: Seq<u32>, v: Seq<u32>)
    ensures
        knuth_equivalent(u, v) <==> insertion_spec(u) == insertion_spec(v),
{
    if knuth_equivalent(u, v) {
        let k = choose|k: nat| #[trigger] knuth_chain(u, v, k);
        lemma_knuth_chain_same_tableau(u, v, k);
    }
    if insertion_spec(u) == insertion_spec(v) {
        lemma_word_equivalent_reading(u);
        lemma_word_equivalent_reading(v);
        lemma_knuth_symm(v, reading_word(insertion_spec(v)));
        lemma_knuth_trans(u, reading_word(insertion_spec(u)), v);
    }
}

} // verus!
