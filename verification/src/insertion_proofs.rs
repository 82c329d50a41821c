//! Properties of row insertion: it keeps tableaux semistandard, adds exactly
//! the inserted value, and is undone by reverse insertion.
use vstd::prelude::*;
use vstd::multiset::Multiset;
use crate::tableau::{
    is_semistandard_spec, is_partition_shape, rows_weakly_increasing, rows_strictly_increasing, cell_count, is_standard_spec, is_cell, holds_value, shape_of,
};
use crate::insertion::{
    insert_from, insert_spec, bump_index, lemma_bump_index, lemma_insert_from_shape, unbump_from,
    reverse_spec, last_less_before, lemma_last_less_before, insertion_spec, recording_spec,
    add_cell, lemma_insert_shape,
};

verus! {

broadcast use {vstd::multiset::group_multiset_axioms, vstd::seq_lib::group_to_multiset_ensures};

/// Semistandard with a partition shape.
pub open spec fn is_valid_tableau(t: Seq<Seq<u32>>) -> bool {
    is_semistandard_spec(t) && is_partition_shape(t)
}

/// The multiset of entries of a tableau.
pub open spec fn content(t: Seq<Seq<u32>>) -> Multiset<u32>
    decreases t.len(),
{
    if t.len() == 0 {
        Multiset::empty()
    } else {
        content(t.drop_last()).add(t.last().to_multiset())
    }
}

/// Every row has at least one cell.
pub open spec fn rows_nonempty(t: Seq<Seq<u32>>) -> bool {
    forall|r: int| 0 <= r < t.len() ==> #[trigger] t[r].len() > 0
}

/// A row that is sorted (weakly).
pub open spec fn sorted_row(s: Seq<u32>) -> bool {
    forall|i: int, j: int| 0 <= i < j < s.len() ==> #[trigger] s[i] <= #[trigger] s[j]
}

// ---------------------------------------------------------------------------
// Semistandardness
// ---------------------------------------------------------------------------

proof fn lemma_update_row_valid(t: Seq<Seq<u32>>, r: int, s: Seq<u32>)
    requires
        is_valid_tableau(t),
        0 <= r < t.len(),
        sorted_row(s),
        r > 0 ==> s.len() <= t[r - 1].len(),
        r + 1 < t.len() ==> t[r + 1].len() <= s.len(),
        r > 0 ==> forall|c: int| 0 <= c < s.len() && c < t[r - 1].len() ==> t[r - 1][c] < #[trigger] s[c],
        r + 1 < t.len() ==> forall|c: int| 0 <= c < s.len() && c < t[r + 1].len() ==> #[trigger] s[c] < t[r + 1][c],
    ensures
        is_valid_tableau(t.update(r, s)),
{
    let t2 = t.update(r, s);
    assert forall|a: int, i: int, j: int| 0 <= a < t2.len() && 0 <= i < j < t2[a].len() implies #[trigger] t2[a][i] <= #[trigger] t2[a][j] by {
        if a != r {
            assert(t2[a] == t[a]);
            assert(t[a][i] <= t[a][j]);
        }
    }
    assert forall|a: int, b: int, c: int| 0 <= a && b == a + 1 && b < t2.len() && 0 <= c < t2[a].len() && c < t2[b].len() implies #[trigger] t2[a][c] < #[trigger] t2[b][c] by {
        if b == r {
            assert(t2[a] == t[a]);
        } else if a == r {
            assert(t2[b] == t[b]);
        } else {
            assert(t2[a] == t[a] && t2[b] == t[b]);
            assert(t[a][c] < t[b][c]);
        }
    }
    assert forall|i: int, j: int| 0 <= i < j < t2.len() implies #[trigger] t2[j].len() <= #[trigger] t2[i].len() by {
        if i == r {
            assert(t[j].len() <= t[r + 1].len());
        } else if j == r {
            assert(t[r - 1].len() <= t[i].len());
        } else {
            assert(t[j].len() <= t[i].len());
        }
    }
}

proof fn lemma_push_row_valid(t: Seq<Seq<u32>>, s: Seq<u32>)
    requires
        is_valid_tableau(t),
        sorted_row(s),
        t.len() > 0 ==> s.len() <= t[t.len() - 1].len(),
        t.len() > 0 ==> forall|c: int| 0 <= c < s.len() && c < t[t.len() - 1].len() ==> t[t.len() - 1][c] < #[trigger] s[c],
    ensures
        is_valid_tableau(t.push(s)),
{
    let t2 = t.push(s);
    assert forall|a: int, i: int, j: int| 0 <= a < t2.len() && 0 <= i < j < t2[a].len() implies #[trigger] t2[a][i] <= #[trigger] t2[a][j] by {
        if a < t.len() {
            assert(t2[a] == t[a]);
            assert(t[a][i] <= t[a][j]);
        }
    }
    assert forall|a: int, b: int, c: int| 0 <= a && b == a + 1 && b < t2.len() && 0 <= c < t2[a].len() && c < t2[b].len() implies #[trigger] t2[a][c] < #[trigger] t2[b][c] by {
        if b < t.len() {
            assert(t2[a] == t[a] && t2[b] == t[b]);
            assert(t[a][c] < t[b][c]);
        }
    }
    assert forall|i: int, j: int| 0 <= i < j < t2.len() implies #[trigger] t2[j].len() <= #[trigger] t2[i].len() by {
        if j == t.len() {
            assert(t[t.len() - 1].len() <= t[i].len() || i == t.len() - 1);
        } else {
            assert(t[j].len() <= t[i].len());
        }
    }
}

/// Insertion into rows `r..` keeps a tableau valid, provided the value comes
/// from cell `(r - 1, q)`, which now holds something smaller, and the entry
/// below that cell (if any) is larger than the value.
proof fn lemma_insert_from_valid(t: Seq<Seq<u32>>, r: int, v: u32, q: int)
    requires
        0 <= r <= t.len(),
        is_valid_tableau(t),
        r > 0 ==> 0 <= q < t[r - 1].len() && t[r - 1][q] < v,
        r > 0 && r < t.len() && q < t[r].len() ==> t[r][q] > v,
    ensures
        is_valid_tableau(insert_from(t, r, v).0),
    decreases t.len() - r,
{
    if r < t.len() {
        let row = t[r];
        let p = bump_index(row, v);
        lemma_bump_index(row, v);
        assert(sorted_row(row)) by {
            assert forall|i: int, j: int| 0 <= i < j < row.len() implies #[trigger] row[i] <= #[trigger] row[j] by {
                assert(t[r][i] <= t[r][j]);
            }
        }
        if r > 0 {
            if q < row.len() {
                if p > q {
                    assert(row[q] <= v);
                }
            }
            assert(p <= q);
            assert(sorted_row(t[r - 1])) by {
                assert forall|i: int, j: int| 0 <= i < j < t[r - 1].len() implies #[trigger] t[r - 1][i] <= #[trigger] t[r - 1][j] by {
                    assert(t[r - 1][i] <= t[r - 1][j]);
                }
            }
        }
        if p == row.len() {
            let s = row.push(v);
            assert(sorted_row(s)) by {
                assert forall|i: int, j: int| 0 <= i < j < s.len() implies #[trigger] s[i] <= #[trigger] s[j] by {
                    if j < row.len() {
                        assert(row[i] <= row[j]);
                    } else {
                        assert(row[i] <= v);
                    }
                }
            }
            if r > 0 {
                assert(s.len() <= t[r - 1].len());
                assert forall|c: int| 0 <= c < s.len() && c < t[r - 1].len() implies t[r - 1][c] < #[trigger] s[c] by {
                    if c < row.len() {
                        assert(t[r - 1][c] < t[r][c]);
                    } else {
                        assert(t[r - 1][c] <= t[r - 1][q]);
                    }
                }
            }
            if r + 1 < t.len() {
                assert(t[r + 1].len() <= t[r].len());
                assert forall|c: int| 0 <= c < s.len() && c < t[r + 1].len() implies #[trigger] s[c] < t[r + 1][c] by {
                    assert(t[r][c] < t[r + 1][c]);
                }
            }
            lemma_update_row_valid(t, r, s);
        } else {
            let y = row[p];
            let s = row.update(p, v);
            assert(sorted_row(s)) by {
                assert forall|i: int, j: int| 0 <= i < j < s.len() implies #[trigger] s[i] <= #[trigger] s[j] by {
                    if i == p {
                        assert(row[p] <= row[j]);
                    } else if j == p {
                        assert(row[i] <= v);
                    } else {
                        assert(row[i] <= row[j]);
                    }
                }
            }
            if r > 0 {
                assert(t[r].len() <= t[r - 1].len());
                assert forall|c: int| 0 <= c < s.len() && c < t[r - 1].len() implies t[r - 1][c] < #[trigger] s[c] by {
                    if c == p {
                        assert(t[r - 1][c] <= t[r - 1][q]);
                    } else {
                        assert(t[r - 1][c] < t[r][c]);
                    }
                }
            }
            if r + 1 < t.len() {
                assert(t[r + 1].len() <= t[r].len());
                assert forall|c: int| 0 <= c < s.len() && c < t[r + 1].len() implies #[trigger] s[c] < t[r + 1][c] by {
                    assert(t[r][c] < t[r + 1][c]);
                }
            }
            lemma_update_row_valid(t, r, s);
            let t1 = t.update(r, s);
            if r + 1 < t.len() && p < t[r + 1].len() {
                assert(t[r][p] < t[r + 1][p]);
            }
            lemma_insert_from_valid(t1, r + 1, y, p);
        }
    } else {
        let s = seq![v];
        assert(sorted_row(s));
        if t.len() > 0 {
            assert(t[r - 1][0] <= t[r - 1][q]);
        }
        lemma_push_row_valid(t, s);
    }
}

/// Row insertion keeps a semistandard tableau of partition shape semistandard
/// and of partition shape.
pub proof fn lemma_insert_valid(t: Seq<Seq<u32>>, x: u32)
    requires
        is_valid_tableau(t),
    ensures
        is_valid_tableau(insert_spec(t, x).0),
{
    lemma_insert_from_valid(t, 0, x, 0);
}

// ---------------------------------------------------------------------------
// Content
// ---------------------------------------------------------------------------

proof fn lemma_content_push(t: Seq<Seq<u32>>, s: Seq<u32>)
    ensures
        content(t.push(s)) == content(t).add(s.to_multiset()),
{
    assert(t.push(s).drop_last() =~= t);
}

/// Replacing a row changes the content by the difference of the two rows.
pub proof fn lemma_content_update(t: Seq<Seq<u32>>, r: int, s: Seq<u32>)
    requires
        0 <= r < t.len(),
    ensures
        content(t.update(r, s)).add(t[r].to_multiset()) =~= content(t).add(s.to_multiset()),
    decreases t.len(),
{
    let t2 = t.update(r, s);
    assert(content(t2) == content(t2.drop_last()).add(t2.last().to_multiset()));
    assert(content(t) == content(t.drop_last()).add(t.last().to_multiset()));
    if r == t.len() - 1 {
        assert(t2.drop_last() =~= t.drop_last());
        assert forall|a: u32| #[trigger] content(t2).add(t[r].to_multiset()).count(a) == content(t).add(s.to_multiset()).count(a) by {}
    } else {
        assert(t2.drop_last() =~= t.drop_last().update(r, s));
        lemma_content_update(t.drop_last(), r, s);
        assert(t.drop_last()[r] == t[r]);
        assert(t2.last() == t.last());
        assert forall|a: u32| #[trigger] content(t2).add(t[r].to_multiset()).count(a) == content(t).add(s.to_multiset()).count(a) by {
            assert(content(t.drop_last().update(r, s)).add(t[r].to_multiset()).count(a) == content(t.drop_last()).add(s.to_multiset()).count(a));
        }
    }
}

/// A row's entries are among the tableau's entries.
pub proof fn lemma_content_row(t: Seq<Seq<u32>>, r: int, a: u32)
    requires
        0 <= r < t.len(),
    ensures
        t[r].to_multiset().count(a) <= content(t).count(a),
    decreases t.len(),
{
    if r < t.len() - 1 {
        lemma_content_row(t.drop_last(), r, a);
    }
}

/// The content has one entry per cell.
pub proof fn lemma_content_len(t: Seq<Seq<u32>>)
    ensures
        content(t).len() == cell_count(t),
    decreases t.len(),
{
    if t.len() > 0 {
        lemma_content_len(t.drop_last());
    }
}

/// The entry of a cell is among the entries.
pub proof fn lemma_content_cell(t: Seq<Seq<u32>>, r: int, c: int)
    requires
        is_cell(t, r, c),
    ensures
        content(t).count(t[r][c]) >= 1,
{
    assert(t[r].contains(t[r][c]));
    lemma_content_row(t, r, t[r][c]);
}

/// An entry of the content sits in some cell.
pub proof fn lemma_content_has_cell(t: Seq<Seq<u32>>, a: u32)
    requires
        content(t).count(a) > 0,
    ensures
        exists|r: int, c: int| is_cell(t, r, c) && #[trigger] t[r][c] == a,
    decreases t.len(),
{
    let last = t.last();
    if last.to_multiset().count(a) > 0 {
        assert(last.contains(a));
        let c = choose|c: int| 0 <= c < last.len() && last[c] == a;
        assert(is_cell(t, t.len() - 1, c) && t[t.len() - 1][c] == a);
    } else {
        lemma_content_has_cell(t.drop_last(), a);
        let (r, c) = choose|r: int, c: int| is_cell(t.drop_last(), r, c) && #[trigger] t.drop_last()[r][c] == a;
        assert(is_cell(t, r, c) && t[r][c] == a);
    }
}

/// Two different rows together hold no more copies of a value than the tableau.
pub proof fn lemma_content_two_rows(t: Seq<Seq<u32>>, r1: int, r2: int, a: u32)
    requires
        0 <= r1 < t.len(),
        0 <= r2 < t.len(),
        r1 != r2,
    ensures
        t[r1].to_multiset().count(a) + t[r2].to_multiset().count(a) <= content(t).count(a),
    decreases t.len(),
{
    let n = t.len() - 1;
    if r1 == n {
        lemma_content_row(t.drop_last(), r2, a);
    } else if r2 == n {
        lemma_content_row(t.drop_last(), r1, a);
    } else {
        lemma_content_two_rows(t.drop_last(), r1, r2, a);
    }
}

proof fn lemma_insert_from_content(t: Seq<Seq<u32>>, r: int, v: u32)
    requires
        0 <= r <= t.len(),
    ensures
        content(insert_from(t, r, v).0) =~= content(t).insert(v),
    decreases t.len() - r,
{
    if r < t.len() {
        let row = t[r];
        let p = bump_index(row, v);
        lemma_bump_index(row, v);
        if p == row.len() {
            lemma_content_update(t, r, row.push(v));
            let t2 = t.update(r, row.push(v));
            assert forall|a: u32| #[trigger] content(t2).count(a) == content(t).insert(v).count(a) by {
                assert(content(t2).add(row.to_multiset()).count(a) == content(t).add(row.push(v).to_multiset()).count(a));
            }
        } else {
            let y = row[p];
            let s = row.update(p, v);
            let t1 = t.update(r, s);
            lemma_content_update(t, r, s);
            lemma_insert_from_content(t1, r + 1, y);
            assert(row.to_multiset().count(y) > 0);
            assert(s.to_multiset() == row.to_multiset().insert(v).remove(y));
            assert forall|a: u32| #[trigger] content(t1).insert(y).count(a) == content(t).insert(v).count(a) by {
                assert(content(t1).add(row.to_multiset()).count(a) == content(t).add(s.to_multiset()).count(a));
            }
            assert(content(t1).insert(y) =~= content(t).insert(v));
        }
    } else {
        lemma_content_push(t, seq![v]);
        assert(seq![v] =~= Seq::<u32>::empty().push(v));
        assert(seq![v].to_multiset() =~= Multiset::<u32>::empty().insert(v));
    }
}

/// Row insertion adds exactly the inserted value to the entries.
pub proof fn lemma_insert_content(t: Seq<Seq<u32>>, x: u32)
    ensures
        content(insert_spec(t, x).0) == content(t).insert(x),
        cell_count(insert_spec(t, x).0) == cell_count(t) + 1,
{
    lemma_insert_from_content(t, 0, x);
    lemma_content_len(t);
    lemma_content_len(insert_spec(t, x).0);
}

/// When no entry occurs twice, the rows of a semistandard tableau are strictly increasing.
pub proof fn lemma_distinct_rows_strict(t: Seq<Seq<u32>>)
    requires
        rows_weakly_increasing(t),
        forall|a: u32| #[trigger] content(t).count(a) <= 1,
    ensures
        rows_strictly_increasing(t),
{
    assert forall|r: int, i: int, j: int| 0 <= r < t.len() && 0 <= i < j < t[r].len() implies #[trigger] t[r][i] < #[trigger] t[r][j] by {
        assert(t[r][i] <= t[r][j]);
        if t[r][i] == t[r][j] {
            assert forall|a: u32| t[r].to_multiset().contains(a) implies t[r].to_multiset().count(a) == 1 by {
                lemma_content_row(t, r, a);
                assert(content(t).count(a) <= 1);
            }
            t[r].lemma_multiset_has_no_duplicates_conv();
        }
    }
}

// ---------------------------------------------------------------------------
// Reverse insertion
// ---------------------------------------------------------------------------

/// Insertion never creates an empty row.
pub proof fn lemma_insert_rows_nonempty(t: Seq<Seq<u32>>, x: u32)
    requires
        rows_nonempty(t),
    ensures
        rows_nonempty(insert_spec(t, x).0),
{
    lemma_insert_from_shape(t, 0, x);
    let (t2, cell, path) = insert_spec(t, x);
    assert forall|r: int| 0 <= r < t2.len() implies #[trigger] t2[r].len() > 0 by {
        if r != cell.0 {
            assert(t[r].len() > 0);
        }
    }
}

/// `last_less_before` over a whole row is the unique position holding an
/// entry less than `v` with no smaller entry after it.
proof fn lemma_last_less_unique(row: Seq<u32>, v: u32, k: int)
    requires
        0 <= k < row.len(),
        row[k] < v,
        forall|j: int| k < j < row.len() ==> #[trigger] row[j] >= v,
    ensures
        last_less_before(row, v, row.len() as int) == k,
{
    lemma_last_less_before(row, v, row.len() as int);
    let l = last_less_before(row, v, row.len() as int);
    if l < k {
        assert(row[k] >= v);
    }
}

/// Reverse insertion from the created cell undoes an insertion into rows
/// `r..`, leaving the rows above to be reverse-bumped as before.
proof fn lemma_reverse_insert_from(t: Seq<Seq<u32>>, r: int, v: u32)
    requires
        0 <= r <= t.len(),
        forall|a: int| r <= a < t.len() ==> #[trigger] t[a].len() > 0,
        forall|a: int, i: int, j: int| r <= a < t.len() && 0 <= i < j < t[a].len() ==> #[trigger] t[a][i] <= #[trigger] t[a][j],
    ensures
        ({
            let (t2, cell, path) = insert_from(t, r, v);
            reverse_spec(t2, cell.0, cell.1) == unbump_from(t, r, v)
        }),
    decreases t.len() - r,
{
    if r < t.len() {
        let row = t[r];
        let p = bump_index(row, v);
        lemma_bump_index(row, v);
        if p == row.len() {
            let t2 = t.update(r, row.push(v));
            assert(row.push(v).drop_last() =~= row);
            assert(t2.update(r, t2[r].drop_last()) =~= t);
        } else {
            let y = row[p];
            let s = row.update(p, v);
            let t1 = t.update(r, s);
            lemma_reverse_insert_from(t1, r + 1, y);
            assert forall|j: int| p < j < s.len() implies #[trigger] s[j] >= y by {
                assert(row[p] <= row[j]);
            }
            lemma_last_less_unique(s, y, p);
            assert(s.update(p, y) =~= row);
            assert(t1.update(r, s.update(p, y)) =~= t);
        }
    } else {
        let t2 = t.push(seq![v]);
        assert(t2.update(r, t2[r].drop_last()).drop_last() =~= t);
    }
}

/// Reverse insertion at the cell created by a row insertion gives back the
/// tableau and the inserted value, when the rows are nonempty and weakly increasing.
pub proof fn lemma_reverse_undoes_insert(t: Seq<Seq<u32>>, x: u32)
    requires
        rows_nonempty(t),
        rows_weakly_increasing(t),
    ensures
        ({
            let (t2, cell, path) = insert_spec(t, x);
            reverse_spec(t2, cell.0, cell.1) == (t, x)
        }),
{
    lemma_reverse_insert_from(t, 0, x);
}

/// Reverse bumping keeps every row length.
pub proof fn lemma_unbump_lengths(t: Seq<Seq<u32>>, r: int, v: u32)
    requires
        r <= t.len(),
    ensures
        unbump_from(t, r, v).0.len() == t.len(),
        forall|i: int| 0 <= i < t.len() ==> #[trigger] unbump_from(t, r, v).0[i].len() == t[i].len(),
    decreases r,
{
    if r > 0 {
        let k = last_less_before(t[r - 1], v, t[r - 1].len() as int);
        lemma_last_less_before(t[r - 1], v, t[r - 1].len() as int);
        if k >= 0 {
            let t1 = t.update(r - 1, t[r - 1].update(k, v));
            lemma_unbump_lengths(t1, r - 1, t[r - 1][k]);
            assert forall|i: int| 0 <= i < t.len() implies #[trigger] unbump_from(t, r, v).0[i].len() == t[i].len() by {
                assert(t1[i].len() == t[i].len());
            }
        } else {
            lemma_unbump_lengths(t, r - 1, v);
        }
    }
}

/// Reverse bumping `v` up from row `r` of a valid tableau, where row `r - 1`
/// has an entry below `v` and the entry under the rightmost such entry (if
/// any) exceeds `v`, keeps the tableau valid, and inserting the value that
/// comes out at the top bumps its way back down to row `r` with `v`.
proof fn lemma_insert_after_unbump(t: Seq<Seq<u32>>, r: int, v: u32)
    requires
        is_valid_tableau(t),
        0 <= r <= t.len(),
        r > 0 ==> exists|c: int| 0 <= c < t[r - 1].len() && #[trigger] t[r - 1][c] < v,
        r > 0 && r < t.len() ==> ({
            let k = last_less_before(t[r - 1], v, t[r - 1].len() as int);
            k < t[r].len() ==> v < t[r][k]
        }),
    ensures
        is_valid_tableau(unbump_from(t, r, v).0),
        insert_from(unbump_from(t, r, v).0, 0, unbump_from(t, r, v).1).0 == insert_from(t, r, v).0,
        insert_from(unbump_from(t, r, v).0, 0, unbump_from(t, r, v).1).1 == insert_from(t, r, v).1,
    decreases r,
{
    if r > 0 {
        let row = t[r - 1];
        let k = last_less_before(row, v, row.len() as int);
        lemma_last_less_before(row, v, row.len() as int);
        let c0 = choose|c: int| 0 <= c < t[r - 1].len() && #[trigger] t[r - 1][c] < v;
        assert(k >= c0) by {
            if k < c0 {
                assert(row[c0] >= v);
            }
        }
        let y = row[k];
        let row1 = row.update(k, v);
        let t1 = t.update(r - 1, row1);
        // the updated row stays weakly increasing
        assert forall|a: int, i: int, j: int| 0 <= a < t1.len() && 0 <= i < j < t1[a].len() implies #[trigger] t1[a][i] <= #[trigger] t1[a][j] by {
            if a == r - 1 {
                if i == k {
                    assert(row[j] >= v);
                } else if j == k {
                    assert(row[i] <= row[k]);
                } else {
                    assert(row[i] <= row[j]);
                }
            } else {
                assert(t[a][i] <= t[a][j]);
            }
        }
        assert forall|a: int, b: int, c: int| 0 <= a && b == a + 1 && b < t1.len() && 0 <= c < t1[a].len() && c < t1[b].len() implies #[trigger] t1[a][c] < #[trigger] t1[b][c] by {
            if a == r - 1 && c == k {
                assert(v < t[r][k]);
            } else if b == r - 1 && c == k {
                assert(t[a][k] < t[r - 1][k]);
            } else {
                assert(t[a][c] < t[b][c]);
            }
        }
        assert forall|i: int, j: int| 0 <= i < j < t1.len() implies #[trigger] t1[j].len() <= #[trigger] t1[i].len() by {
            assert(t[j].len() <= t[i].len());
        }
        assert(is_valid_tableau(t1));
        if r - 1 > 0 {
            assert(t[r - 2].len() >= t[r - 1].len());
            assert(t[r - 2][k] < t[r - 1][k]);
            assert(t1[r - 2][k] < y);
            assert(0 <= k < t1[(r - 1) - 1].len() && t1[(r - 1) - 1][k] < y);
            let k2 = last_less_before(t1[r - 2], y, t1[r - 2].len() as int);
            lemma_last_less_before(t1[r - 2], y, t1[r - 2].len() as int);
            assert(k2 >= k) by {
                if k2 < k {
                    assert(t1[r - 2][k] >= y);
                }
            }
            if k2 < t1[r - 1].len() {
                if k2 > k {
                    assert(row[k2] >= v);
                }
                assert(y < t1[r - 1][k2]);
            }
        }
        lemma_insert_after_unbump(t1, r - 1, y);
        // inserting y into the updated row bumps v back out at position k
        lemma_bump_index(row1, y);
        assert forall|c: int| 0 <= c < k implies #[trigger] row1[c] <= y by {
            assert(row[c] <= row[k]);
        }
        assert(bump_index(row1, y) == k) by {
            let b = bump_index(row1, y);
            if b < k {
                assert(row1[b] <= y);
            }
            if b > k {
                assert(row1[k] <= y);
            }
        }
        assert(row1.update(k, y) =~= row);
        assert(t1.update(r - 1, row1.update(k, y)) =~= t);
    }
}

/// Reverse insertion from an outer corner of a valid tableau with nonempty
/// rows gives a valid tableau with nonempty rows, and inserting the value that
/// comes out gives back the tableau and creates that corner again.
pub proof fn lemma_insert_undoes_reverse(t: Seq<Seq<u32>>, i: int)
    requires
        is_valid_tableau(t),
        rows_nonempty(t),
        0 <= i < t.len(),
        i + 1 < t.len() ==> t[i + 1].len() < t[i].len(),
    ensures
        ({
            let (t2, v) = reverse_spec(t, i, t[i].len() - 1);
            &&& is_valid_tableau(t2)
            &&& rows_nonempty(t2)
            &&& insert_spec(t2, v).0 == t
            &&& insert_spec(t2, v).1 == (i, t[i].len() - 1)
        }),
{
    let j = t[i].len() - 1;
    let v = t[i][j];
    let t1 = t.update(i, t[i].drop_last());
    let dropped = t1[i].len() == 0 && i == t.len() - 1;
    let t2 = if dropped { t1.drop_last() } else { t1 };
    if j == 0 && i + 1 < t.len() {
        assert(t[i + 1].len() > 0);
    }
    assert(!dropped ==> t2[i].len() > 0);
    assert(is_valid_tableau(t2)) by {
        assert forall|a: int, x: int, y: int| 0 <= a < t2.len() && 0 <= x < y < t2[a].len() implies #[trigger] t2[a][x] <= #[trigger] t2[a][y] by {
            assert(t[a][x] <= t[a][y]);
        }
        assert forall|a: int, b: int, c: int| 0 <= a && b == a + 1 && b < t2.len() && 0 <= c < t2[a].len() && c < t2[b].len() implies #[trigger] t2[a][c] < #[trigger] t2[b][c] by {
            assert(t[a][c] < t[b][c]);
        }
        assert forall|x: int, y: int| 0 <= x < y < t2.len() implies #[trigger] t2[y].len() <= #[trigger] t2[x].len() by {
            assert(t[y].len() <= t[x].len());
        }
    }
    assert forall|a: int| 0 <= a < t2.len() implies #[trigger] t2[a].len() > 0 by {
        if a != i {
            assert(t[a].len() > 0);
        }
    }
    if i > 0 {
        assert(t[i - 1].len() >= t[i].len());
        assert(t[i - 1][j] < t[i][j]);
        assert(t2[i - 1][j] < v);
        if i < t2.len() {
            let k = last_less_before(t2[i - 1], v, t2[i - 1].len() as int);
            lemma_last_less_before(t2[i - 1], v, t2[i - 1].len() as int);
            assert(k >= j) by {
                if k < j {
                    assert(t2[i - 1][j] >= v);
                }
            }
        }
    }
    lemma_insert_after_unbump(t2, i, v);
    lemma_unbump_lengths(t2, i, v);
    let p2 = unbump_from(t2, i, v).0;
    assert forall|a: int| 0 <= a < p2.len() implies #[trigger] p2[a].len() > 0 by {
        assert(p2[a].len() == t2[a].len());
    }
    // inserting v at row i appends it where it was taken from
    if dropped {
        assert(t2.push(seq![v]) =~= t) by {
            assert(t[i] =~= seq![v]);
        }
    } else {
        let row = t2[i];
        lemma_bump_index(row, v);
        assert forall|c: int| 0 <= c < row.len() implies #[trigger] row[c] <= v by {
            assert(t[i][c] <= t[i][j]);
        }
        assert(bump_index(row, v) == row.len()) by {
            let b = bump_index(row, v);
            if b < row.len() {
                assert(row[b] <= v);
            }
        }
        assert(row.push(v) =~= t[i]);
        assert(t2.update(i, row.push(v)) =~= t);
    }
}

// ---------------------------------------------------------------------------
// Insertion and recording tableaux
// ---------------------------------------------------------------------------

/// The insertion tableau of a sequence is semistandard of partition shape,
/// with nonempty rows, holds exactly the values of the sequence, and has
/// strictly increasing rows when no value repeats.
pub proof fn lemma_insertion_tableau_props(values: Seq<u32>)
    ensures
        is_valid_tableau(insertion_spec(values)),
        rows_nonempty(insertion_spec(values)),
        content(insertion_spec(values)) == values.to_multiset(),
        cell_count(insertion_spec(values)) == values.len(),
        values.no_duplicates() ==> rows_strictly_increasing(insertion_spec(values)),
    decreases values.len(),
{
    let t = insertion_spec(values);
    if values.len() == 0 {
        assert(values.to_multiset() =~= Multiset::empty());
    } else {
        let prev = values.drop_last();
        lemma_insertion_tableau_props(prev);
        lemma_insert_valid(insertion_spec(prev), values.last());
        lemma_insert_rows_nonempty(insertion_spec(prev), values.last());
        lemma_insert_content(insertion_spec(prev), values.last());
        assert(prev.push(values.last()) =~= values);
        if values.no_duplicates() {
            values.lemma_multiset_has_no_duplicates();
            assert forall|a: u32| #[trigger] content(t).count(a) <= 1 by {
                if content(t).count(a) > 0 {
                    assert(values.to_multiset().contains(a));
                }
            }
            lemma_distinct_rows_strict(t);
        }
    }
}

/// Tableaux of the same shape have the same number of cells.
pub proof fn lemma_same_shape_cell_count(a: Seq<Seq<u32>>, b: Seq<Seq<u32>>)
    requires
        a.len() == b.len(),
        forall|i: int| 0 <= i < a.len() ==> #[trigger] a[i].len() == b[i].len(),
    ensures
        cell_count(a) == cell_count(b),
    decreases a.len(),
{
    if a.len() > 0 {
        lemma_same_shape_cell_count(a.drop_last(), b.drop_last());
    }
}

/// Adding the largest value at the end of a row, where the row above is longer
/// and the row below is not, keeps a tableau standard.
proof fn lemma_add_cell_standard(q: Seq<Seq<u32>>, r: int, n: nat)
    requires
        is_standard_spec(q),
        cell_count(q) + 1 == n,
        n <= u32::MAX,
        0 <= r <= q.len(),
        r > 0 ==> (if r < q.len() { q[r].len() } else { 0 }) < q[r - 1].len(),
        r + 1 < q.len() ==> q[r + 1].len() <= q[r].len(),
    ensures
        is_standard_spec(add_cell(q, r, n as u32)),
        cell_count(add_cell(q, r, n as u32)) == n,
{
    let v = n as u32;
    let c: int = if r < q.len() { q[r].len() as int } else { 0 };
    let q2 = add_cell(q, r, v);
    // the new cell is (r, c); every other cell is unchanged
    assert(q2.len() == if r < q.len() { q.len() } else { q.len() + 1 });
    assert(q2[r].len() == c + 1);
    assert(q2[r][c] == v);
    assert forall|i: int, j: int| is_cell(q2, i, j) && !(i == r && j == c) implies is_cell(q, i, j) && #[trigger] q2[i][j] == q[i][j] by {
        if i == r {
            assert(q2[r] == q[r].push(v));
        }
    }
    if r < q.len() {
        assert forall|i: int| 0 <= i < q.len() implies #[trigger] q2[i].len() == (if i == r { q[i].len() + 1 } else { q[i].len() }) by {}
        lemma_cell_count_update_row(q, r, q[r].push(v));
    } else {
        assert(q2.drop_last() =~= q);
    }
    assert(cell_count(q2) == n);
    // rows
    assert forall|a: int, i: int, j: int| 0 <= a < q2.len() && 0 <= i < j < q2[a].len() implies #[trigger] q2[a][i] < #[trigger] q2[a][j] by {
        if a == r && j == c {
            assert(q2[a][i] == q[a][i]);
            assert(1 <= q[a][i] <= cell_count(q));
        } else {
            assert(q2[a][i] == q[a][i] && q2[a][j] == q[a][j]);
            assert(q[a][i] < q[a][j]);
        }
    }
    // columns
    assert forall|a: int, b: int, j: int| 0 <= a && b == a + 1 && b < q2.len() && 0 <= j < q2[a].len() && j < q2[b].len() implies #[trigger] q2[a][j] < #[trigger] q2[b][j] by {
        if a == r && j == c {
            assert(false);
        } else if b == r && j == c {
            assert(q2[a][j] == q[a][j]);
            assert(1 <= q[a][j] <= cell_count(q));
        } else {
            assert(q2[a][j] == q[a][j] && q2[b][j] == q[b][j]);
            assert(q[a][j] < q[b][j]);
        }
    }
    // range
    assert forall|i: int, j: int| is_cell(q2, i, j) implies 1 <= #[trigger] q2[i][j] <= cell_count(q2) by {
        if !(i == r && j == c) {
            assert(q2[i][j] == q[i][j]);
            assert(1 <= q[i][j] <= cell_count(q));
        }
    }
    // distinct
    assert forall|i1: int, j1: int, i2: int, j2: int|
        is_cell(q2, i1, j1) && is_cell(q2, i2, j2) && (i1 != i2 || j1 != j2) implies #[trigger] q2[i1][j1] != #[trigger] q2[i2][j2] by {
        if i1 == r && j1 == c {
            assert(q2[i2][j2] == q[i2][j2]);
            assert(1 <= q[i2][j2] <= cell_count(q));
        } else if i2 == r && j2 == c {
            assert(q2[i1][j1] == q[i1][j1]);
            assert(1 <= q[i1][j1] <= cell_count(q));
        } else {
            assert(q2[i1][j1] == q[i1][j1] && q2[i2][j2] == q[i2][j2]);
        }
    }
    // every value present
    assert forall|w: int| 1 <= w <= cell_count(q2) implies holds_value(q2, w) by {
        if w == n {
            assert(is_cell(q2, r, c) && q2[r][c] == w);
        } else {
            assert(holds_value(q, w));
            let (i, j) = choose|i: int, j: int| is_cell(q, i, j) && #[trigger] q[i][j] == w;
            if i == r {
                assert(q2[r] == q[r].push(v));
            }
            assert(is_cell(q2, i, j) && q2[i][j] == w);
        }
    }
}

proof fn lemma_cell_count_update_row(t: Seq<Seq<u32>>, r: int, s: Seq<u32>)
    requires
        0 <= r < t.len(),
    ensures
        cell_count(t.update(r, s)) + t[r].len() == cell_count(t) + s.len(),
    decreases t.len(),
{
    let t2 = t.update(r, s);
    if r == t.len() - 1 {
        assert(t2.drop_last() =~= t.drop_last());
    } else {
        assert(t2.drop_last() =~= t.drop_last().update(r, s));
        lemma_cell_count_update_row(t.drop_last(), r, s);
    }
}

/// The recording tableau has the shape of the insertion tableau, and is
/// standard when the sequence has at most `u32::MAX` values.
pub proof fn lemma_recording_tableau_props(values: Seq<u32>)
    ensures
        shape_of(recording_spec(values)) == shape_of(insertion_spec(values)),
        recording_spec(values).len() == insertion_spec(values).len(),
        forall|i: int| 0 <= i < recording_spec(values).len() ==> #[trigger] recording_spec(values)[i].len()
            == insertion_spec(values)[i].len(),
        values.len() <= u32::MAX ==> is_standard_spec(recording_spec(values)),
        cell_count(recording_spec(values)) == values.len(),
    decreases values.len(),
{
    let q = recording_spec(values);
    let t = insertion_spec(values);
    if values.len() == 0 {
        assert(shape_of(q) =~= shape_of(t));
        assert(is_standard_spec(q));
    } else {
        let prev = values.drop_last();
        let x = values.last();
        let q0 = recording_spec(prev);
        let t0 = insertion_spec(prev);
        lemma_recording_tableau_props(prev);
        lemma_insertion_tableau_props(prev);
        lemma_insertion_tableau_props(values);
        lemma_insert_shape(t0, x);
        lemma_insert_from_shape(t0, 0, x);
        let (t1, cell, path) = insert_spec(t0, x);
        let r = cell.0;
        assert(t1 == t);
        assert forall|i: int| 0 <= i < q.len() implies #[trigger] q[i].len() == t[i].len() by {
            if i < q0.len() && i != r {
                assert(q[i] == q0[i]);
            }
        }
        assert(shape_of(q) =~= shape_of(t));
        lemma_same_shape_cell_count(q, t);
        if values.len() <= u32::MAX {
            if r > 0 {
                // the new cell lies under a cell of the row above
                assert(t[r].len() <= t[r - 1].len());
                assert(t[r - 1].len() == t0[r - 1].len());
            }
            if r + 1 < q0.len() {
                assert(t0[r + 1].len() <= t0[r].len());
            }
            lemma_add_cell_standard(q0, r, values.len());
        }
    }
}

} // verus!
