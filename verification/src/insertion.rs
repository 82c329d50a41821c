//! Robinson-Schensted row insertion and bumping path operations.
use vstd::prelude::*;
use crate::tableau::{YoungTableau, rows_view, shape_of, cell_count, is_standard_spec};
use crate::correspondence::{count_at_most, row_len, lemma_recording_counts_prefix_shapes};
use crate::insertion_proofs::{
    is_valid_tableau, content, rows_nonempty, lemma_insert_valid, lemma_insert_content,
    lemma_insert_rows_nonempty, lemma_insertion_tableau_props, lemma_recording_tableau_props,
};

verus! {

// ---------------------------------------------------------------------------
// Mathematical model of row insertion
// ---------------------------------------------------------------------------

/// Index of the leftmost entry of `row` at or after `i` that is strictly
/// greater than `v`, or `row.len()` when there is none.
pub open spec fn first_greater_from(row: Seq<u32>, v: u32, i: int) -> int
    decreases row.len() - i,
{
    if i >= row.len() {
        row.len() as int
    } else if row[i] > v {
        i
    } else {
        first_greater_from(row, v, i + 1)
    }
}

/// Index of the leftmost entry of `row` strictly greater than `v`, or
/// `row.len()` when there is none: where `v` lands in `row`.
pub open spec fn bump_index(row: Seq<u32>, v: u32) -> int {
    first_greater_from(row, v, 0)
}

/// Insertion of `v` into rows `r..` of `t`: the resulting rows, the cell that
/// was created, and the bumping path (each modified or created cell, top to bottom).
pub open spec fn insert_from(t: Seq<Seq<u32>>, r: int, v: u32) -> (Seq<Seq<u32>>, (int, int), Seq<(int, int)>)
    decreases t.len() - r,
{
    if r < 0 || r >= t.len() {
        (t.push(seq![v]), (t.len() as int, 0), seq![(t.len() as int, 0int)])
    } else {
        let p = bump_index(t[r], v);
        if p == t[r].len() {
            (t.update(r, t[r].push(v)), (r, p), seq![(r, p)])
        } else {
            let rest = insert_from(t.update(r, t[r].update(p, v)), r + 1, t[r][p]);
            (rest.0, rest.1, seq![(r, p)] + rest.2)
        }
    }
}

/// Robinson-Schensted row insertion of `x` into the tableau `t`.
pub open spec fn insert_spec(t: Seq<Seq<u32>>, x: u32) -> (Seq<Seq<u32>>, (int, int), Seq<(int, int)>) {
    insert_from(t, 0, x)
}

/// The insertion tableau P of a sequence: its values inserted one by one
/// into the empty tableau.
pub open spec fn insertion_spec(values: Seq<u32>) -> Seq<Seq<u32>>
    decreases values.len(),
{
    if values.len() == 0 {
        Seq::empty()
    } else {
        insert_spec(insertion_spec(values.drop_last()), values.last()).0
    }
}

/// Adds the value `v` at the end of row `r`, or as a new row when `r` is past the last row.
pub open spec fn add_cell(q: Seq<Seq<u32>>, r: int, v: u32) -> Seq<Seq<u32>> {
    if 0 <= r < q.len() {
        q.update(r, q[r].push(v))
    } else {
        q.push(seq![v])
    }
}

/// The recording tableau Q of a sequence: the `k`-th insertion (counting from 1)
/// records `k` in the cell it creates.
pub open spec fn recording_spec(values: Seq<u32>) -> Seq<Seq<u32>>
    decreases values.len(),
{
    if values.len() == 0 {
        Seq::empty()
    } else {
        let cell = insert_spec(insertion_spec(values.drop_last()), values.last()).1;
        add_cell(recording_spec(values.drop_last()), cell.0, #[verifier::truncate] (values.len() as u32))
    }
}

/// Index of the rightmost entry among the first `i` entries of `row` that is
/// less than `v`, or -1 when there is none.
pub open spec fn last_less_before(row: Seq<u32>, v: u32, i: int) -> int
    decreases i,
{
    if i <= 0 {
        -1
    } else if row[i - 1] < v {
        i - 1
    } else {
        last_less_before(row, v, i - 1)
    }
}

/// Reverse bumping of `v` through rows `r-1, r-2, ..., 0`: in each row the
/// rightmost entry less than `v` is exchanged with `v`.
pub open spec fn unbump_from(t: Seq<Seq<u32>>, r: int, v: u32) -> (Seq<Seq<u32>>, u32)
    decreases r,
{
    if r <= 0 {
        (t, v)
    } else {
        let k = last_less_before(t[r - 1], v, t[r - 1].len() as int);
        if k >= 0 {
            unbump_from(t.update(r - 1, t[r - 1].update(k, v)), r - 1, t[r - 1][k])
        } else {
            unbump_from(t, r - 1, v)
        }
    }
}

/// Reverse insertion from the cell `(row, col)`: the entry there is taken, the
/// last cell of the row is removed (and the row with it when it becomes empty
/// and is the last row), and the entry is reverse-bumped up to the first row.
pub open spec fn reverse_spec(t: Seq<Seq<u32>>, row: int, col: int) -> (Seq<Seq<u32>>, u32) {
    let v = t[row][col];
    let t1 = t.update(row, t[row].drop_last());
    let t2 = if t1[row].len() == 0 && row == t.len() - 1 {
        t1.drop_last()
    } else {
        t1
    };
    unbump_from(t2, row, v)
}

/// A sequence of cells with integer coordinates.
pub open spec fn cells_view(s: Seq<(usize, usize)>) -> Seq<(int, int)> {
    s.map_values(|p: (usize, usize)| (p.0 as int, p.1 as int))
}

// ---------------------------------------------------------------------------
// Basic facts
// ---------------------------------------------------------------------------

/// `first_greater_from` finds the leftmost entry greater than `v` at or after `i`.
pub proof fn lemma_first_greater_from(row: Seq<u32>, v: u32, i: int)
    requires
        0 <= i <= row.len(),
    ensures
        i <= first_greater_from(row, v, i) <= row.len(),
        forall|k: int| i <= k < first_greater_from(row, v, i) ==> #[trigger] row[k] <= v,
        first_greater_from(row, v, i) < row.len() ==> row[first_greater_from(row, v, i)] > v,
    decreases row.len() - i,
{
    if i < row.len() && row[i] <= v {
        lemma_first_greater_from(row, v, i + 1);
    }
}

/// `bump_index` is the leftmost position holding an entry greater than `v`.
pub proof fn lemma_bump_index(row: Seq<u32>, v: u32)
    ensures
        0 <= bump_index(row, v) <= row.len(),
        forall|k: int| 0 <= k < bump_index(row, v) ==> #[trigger] row[k] <= v,
        bump_index(row, v) < row.len() ==> row[bump_index(row, v)] > v,
{
    lemma_first_greater_from(row, v, 0);
}

/// `last_less_before` finds the rightmost entry less than `v` before `i`.
pub proof fn lemma_last_less_before(row: Seq<u32>, v: u32, i: int)
    requires
        0 <= i <= row.len(),
    ensures
        -1 <= last_less_before(row, v, i) < i,
        last_less_before(row, v, i) >= 0 ==> row[last_less_before(row, v, i)] < v,
        forall|k: int| last_less_before(row, v, i) < k < i ==> #[trigger] row[k] >= v,
    decreases i,
{
    if i > 0 && row[i - 1] >= v {
        lemma_last_less_before(row, v, i - 1);
    }
}

/// The cell created by an insertion ends a row, and the shape grows by that cell only.
pub proof fn lemma_insert_from_shape(t: Seq<Seq<u32>>, r: int, v: u32)
    requires
        0 <= r <= t.len(),
    ensures
        ({
            let (t2, cell, path) = insert_from(t, r, v);
            &&& r <= cell.0 <= t.len()
            &&& cell.0 < t.len() ==> cell.1 == t[cell.0].len()
            &&& cell.0 == t.len() ==> cell.1 == 0
            &&& t2.len() == if cell.0 == t.len() { t.len() + 1 } else { t.len() + 0 }
            &&& forall|i: int| 0 <= i < t.len() && i != cell.0 ==> #[trigger] t2[i].len() == t[i].len()
            &&& t2[cell.0].len() == cell.1 + 1
        }),
    decreases t.len() - r,
{
    if r < t.len() {
        let p = bump_index(t[r], v);
        lemma_bump_index(t[r], v);
        if p < t[r].len() {
            let t1 = t.update(r, t[r].update(p, v));
            lemma_insert_from_shape(t1, r + 1, t[r][p]);
            let (t2, cell, path) = insert_from(t1, r + 1, t[r][p]);
            assert forall|i: int| 0 <= i < t.len() && i != cell.0 implies #[trigger] t2[i].len() == t[i].len() by {
                assert(t1[i].len() == t[i].len());
            }
        }
    }
}

/// Shape of a row insertion into the whole tableau.
pub proof fn lemma_insert_shape(t: Seq<Seq<u32>>, x: u32)
    ensures
        ({
            let (t2, cell, path) = insert_spec(t, x);
            &&& 0 <= cell.0 <= t.len()
            &&& cell.0 < t.len() ==> cell.1 == t[cell.0].len()
            &&& cell.0 == t.len() ==> cell.1 == 0
            &&& shape_of(t2) == if cell.0 == t.len() {
                shape_of(t).push(1usize)
            } else {
                shape_of(t).update(cell.0, (cell.1 + 1) as usize)
            }
        }),
{
    lemma_insert_from_shape(t, 0, x);
    let (t2, cell, path) = insert_spec(t, x);
    if cell.0 == t.len() {
        assert(shape_of(t2) =~= shape_of(t).push(1usize));
    } else {
        assert(shape_of(t2) =~= shape_of(t).update(cell.0, (cell.1 + 1) as usize));
    }
}

// ---------------------------------------------------------------------------
// Executable operations
// ---------------------------------------------------------------------------

/// Result of a row insertion, including the position where a new cell was added.
#[derive(Debug, PartialEq, Eq)]
pub struct InsertionResult {
    /// The modified tableau.
    pub tableau: YoungTableau,
    /// The (row, col) position where a new cell was created.
    pub new_cell: (usize, usize),
    /// The bumping path: sequence of (row, col) positions that were modified.
    pub bumping_path: Vec<(usize, usize)>,
}

impl Clone for InsertionResult {
    /// A copy with the same tableau, new cell and bumping path.
    fn clone(&self) -> (r: Self)
        ensures
            r.tableau@ == self.tableau@,
            r.new_cell == self.new_cell,
            r.bumping_path@ == self.bumping_path@,
    {
        let mut path: Vec<(usize, usize)> = Vec::new();
        let mut i: usize = 0;
        while i < self.bumping_path.len()
            invariant
                i <= self.bumping_path@.len(),
                path@ == self.bumping_path@.take(i as int),
            decreases self.bumping_path@.len() - i,
        {
            let (a, b) = self.bumping_path[i];
            path.push((a, b));
            assert(path@ =~= self.bumping_path@.take(i + 1));
            i += 1;
        }
        assert(path@ =~= self.bumping_path@);
        let (a, b) = self.new_cell;
        InsertionResult {
            tableau: YoungTableau::from_rows(copy_rows(&self.tableau.rows)),
            new_cell: (a, b),
            bumping_path: path,
        }
    }
}

/// A copy of the rows.
pub fn copy_rows(rows: &Vec<Vec<u32>>) -> (c: Vec<Vec<u32>>)
    ensures
        rows_view(c@) == rows_view(rows@),
{
    let mut c: Vec<Vec<u32>> = Vec::new();
    let mut i: usize = 0;
    while i < rows.len()
        invariant
            i <= rows@.len(),
            c@.len() == i,
            forall|k: int| 0 <= k < i ==> #[trigger] c@[k]@ == rows@[k]@,
        decreases rows@.len() - i,
    {
        let r = rows[i].clone();
        assert(r@ =~= rows@[i as int]@);
        c.push(r);
        i += 1;
    }
    assert(rows_view(c@) =~= rows_view(rows@));
    c
}

/// Position of the leftmost entry of `row` strictly greater than `v`, if any.
fn find_first_greater(row: &Vec<u32>, v: u32) -> (p: usize)
    ensures
        p == bump_index(row@, v),
{
    let mut k: usize = 0;
    while k < row.len()
        invariant
            k <= row@.len(),
            bump_index(row@, v) == first_greater_from(row@, v, k as int),
        decreases row@.len() - k,
    {
        if row[k] > v {
            return k;
        }
        k += 1;
    }
    k
}

/// Perform Robinson-Schensted row insertion of value `x` into the tableau.
///
/// Inserts `x` into the first row by finding the leftmost element > x (or appending),
/// bumping that element into the next row, and repeating until a value is appended.
pub fn row_insert(tableau: &YoungTableau, x: u32) -> (res: InsertionResult)
    ensures
        res.tableau@ == insert_spec(tableau@, x).0,
        (res.new_cell.0 as int, res.new_cell.1 as int) == insert_spec(tableau@, x).1,
        cells_view(res.bumping_path@) == insert_spec(tableau@, x).2,
        is_valid_tableau(tableau@) ==> is_valid_tableau(res.tableau@),
        rows_nonempty(tableau@) ==> rows_nonempty(res.tableau@),
        content(res.tableau@) == content(tableau@).insert(x),
        cell_count(res.tableau@) == cell_count(tableau@) + 1,
{
    proof {
        if is_valid_tableau(tableau@) {
            lemma_insert_valid(tableau@, x);
        }
        if rows_nonempty(tableau@) {
            lemma_insert_rows_nonempty(tableau@, x);
        }
        lemma_insert_content(tableau@, x);
    }
    let mut rows = copy_rows(&tableau.rows);
    let mut path: Vec<(usize, usize)> = Vec::new();
    let mut val = x;
    let n = rows.len();
    let mut row_idx: usize = 0;
    while row_idx < n
        invariant
            n == rows@.len(),
            n == tableau@.len(),
            row_idx <= n,
            is_valid_tableau(tableau@) ==> is_valid_tableau(insert_spec(tableau@, x).0),
            rows_nonempty(tableau@) ==> rows_nonempty(insert_spec(tableau@, x).0),
            content(insert_spec(tableau@, x).0) == content(tableau@).insert(x),
            cell_count(insert_spec(tableau@, x).0) == cell_count(tableau@) + 1,
            insert_from(rows_view(rows@), row_idx as int, val).0 == insert_spec(tableau@, x).0,
            insert_from(rows_view(rows@), row_idx as int, val).1 == insert_spec(tableau@, x).1,
            cells_view(path@) + insert_from(rows_view(rows@), row_idx as int, val).2 == insert_spec(tableau@, x).2,
        decreases n - row_idx,
    {
        let ghost cur = rows_view(rows@);
        let ghost old_path = path@;
        assert(cur[row_idx as int] == rows@[row_idx as int]@);
        let pos = find_first_greater(&rows[row_idx], val);
        proof {
            lemma_bump_index(cur[row_idx as int], val);
        }
        if pos < rows[row_idx].len() {
            let bumped = rows[row_idx][pos];
            rows[row_idx][pos] = val;
            assert(rows_view(rows@) =~= cur.update(row_idx as int, cur[row_idx as int].update(pos as int, val)));
            path.push((row_idx, pos));
            assert(cells_view(path@) =~= cells_view(old_path).push((row_idx as int, pos as int)));
            let ghost rest = insert_from(rows_view(rows@), row_idx + 1, bumped);
            assert(cells_view(old_path) + (seq![(row_idx as int, pos as int)] + rest.2) =~= cells_view(path@) + rest.2);
            val = bumped;
            row_idx += 1;
        } else {
            rows[row_idx].push(val);
            assert(rows_view(rows@) =~= cur.update(row_idx as int, cur[row_idx as int].push(val)));
            path.push((row_idx, pos));
            assert(cells_view(path@) =~= cells_view(old_path) + seq![(row_idx as int, pos as int)]);
            assert(insert_from(cur, row_idx as int, val) == (cur.update(row_idx as int, cur[row_idx as int].push(val)), (row_idx as int, pos as int), seq![(row_idx as int, pos as int)]));
            return InsertionResult { tableau: YoungTableau::from_rows(rows), new_cell: (row_idx, pos), bumping_path: path };
        }
    }
    let ghost cur = rows_view(rows@);
    let ghost old_path = path@;
    let mut last: Vec<u32> = Vec::new();
    last.push(val);
    assert(last@ =~= seq![val]);
    rows.push(last);
    assert(rows_view(rows@) =~= cur.push(seq![val]));
    path.push((n, 0));
    assert(cells_view(path@) =~= cells_view(old_path) + seq![(n as int, 0int)]);
    InsertionResult { tableau: YoungTableau::from_rows(rows), new_cell: (n, 0), bumping_path: path }
}

/// Insert a sequence of values into an empty tableau, building the full insertion tableau.
pub fn insertion_tableau(values: &[u32]) -> (t: YoungTableau)
    ensures
        t@ == insertion_spec(values@),
        is_valid_tableau(t@),
        content(t@) == values@.to_multiset(),
        cell_count(t@) == values@.len(),
{
    proof {
        lemma_insertion_tableau_props(values@);
    }
    let mut t = YoungTableau::empty();
    let mut i: usize = 0;
    while i < values.len()
        invariant
            i <= values@.len(),
            t@ == insertion_spec(values@.take(i as int)),
        decreases values@.len() - i,
    {
        assert(values@.take(i + 1).drop_last() =~= values@.take(i as int));
        let result = row_insert(&t, values[i]);
        t = result.tableau;
        i += 1;
    }
    assert(values@.take(i as int) =~= values@);
    t
}

/// Compute the recording tableau for a sequence of values.
///
/// The recording tableau records the order in which cells were added,
/// using 1-indexed positions. Together with the insertion tableau, this
/// gives the Robinson-Schensted correspondence.
pub fn recording_tableau(values: &[u32]) -> (q: YoungTableau)
    ensures
        q@ == recording_spec(values@),
        shape_of(q@) == shape_of(insertion_spec(values@)),
        values@.len() <= u32::MAX ==> is_standard_spec(q@),
        values@.len() <= u32::MAX ==> forall|k: int, i: int|
            0 <= k <= values@.len() && 0 <= i < q@.len() ==> #[trigger] count_at_most(q@[i], k)
                == row_len(insertion_spec(values@.take(k)), i),
{
    proof {
        lemma_recording_tableau_props(values@);
        if values@.len() <= u32::MAX {
            assert forall|k: int, i: int|
                0 <= k <= values@.len() && 0 <= i < recording_spec(values@).len() implies #[trigger] count_at_most(
                recording_spec(values@)[i],
                k,
            ) == row_len(insertion_spec(values@.take(k)), i) by {
                lemma_recording_counts_prefix_shapes(values@, k);
            }
        }
    }
    let mut p = YoungTableau::empty();
    let mut q = YoungTableau::empty();
    let mut i: usize = 0;
    while i < values.len()
        invariant
            i <= values@.len(),
            p@ == insertion_spec(values@.take(i as int)),
            q@ == recording_spec(values@.take(i as int)),
            shape_of(q@) == shape_of(p@),
        decreases values@.len() - i,
    {
        let ghost prefix = values@.take(i + 1);
        assert(prefix.drop_last() =~= values@.take(i as int));
        let result = row_insert(&p, values[i]);
        let (r, c) = result.new_cell;
        proof {
            lemma_insert_shape(p@, values@[i as int]);
            assert(q@.len() == shape_of(q@).len());
            assert(p@.len() == shape_of(p@).len());
            if r < p@.len() {
                assert(shape_of(q@)[r as int] == shape_of(p@)[r as int]);
                assert(q.rows@[r as int]@ == q@[r as int]);
            }
        }
        let ghost q0 = q@;
        p = result.tableau;
        while q.rows.len() <= r
            invariant
                r <= q0.len(),
                q@ == if q.rows@.len() == q0.len() {
                    q0
                } else {
                    q0.push(Seq::empty())
                },
                q.rows@.len() == q0.len() || q.rows@.len() == q0.len() + 1,
                q.rows@.len() == q0.len() + 1 ==> r == q0.len(),
            decreases r + 1 - q.rows@.len(),
        {
            q.rows.push(Vec::new());
            assert(q@ =~= q0.push(Seq::empty()));
        }
        let ghost q1 = q@;
        assert(q.rows@[r as int]@ == q1[r as int]);
        let qr_len = q.rows[r].len();
        proof {
            if r < q0.len() {
                assert(shape_of(q0)[r as int] == qr_len);
            }
        }
        assert(qr_len == c);
        while q.rows[r].len() < c
            invariant
                r < q.rows@.len(),
                q@ == q1,
                q.rows@[r as int]@.len() == c,
            decreases c - q.rows@[r as int]@.len(),
        {
            q.rows[r].push(0);
        }
        let v = #[verifier::truncate] ((i + 1) as u32);
        assert(q.rows@[r as int]@ == q1[r as int]);
        if q.rows[r].len() == c {
            q.rows[r].push(v);
            assert(q@ =~= q1.update(r as int, q1[r as int].push(v)));
        } else {
            q.rows[r][c] = v;
        }
        proof {
            if r < q0.len() {
                assert(q1 == q0);
            } else {
                assert(q1 =~= q0.push(Seq::empty()));
            }
            assert(q@ =~= add_cell(q0, r as int, v));
            assert(v == #[verifier::truncate] (prefix.len() as u32));
            assert(shape_of(q@) =~= shape_of(p@));
        }
        i += 1;
    }
    assert(values@.take(i as int) =~= values@);
    q
}

/// Position of the rightmost entry of `row` less than `v`, if any.
fn find_last_less(row: &Vec<u32>, v: u32) -> (res: (bool, usize))
    ensures
        res.0 ==> res.1 as int == last_less_before(row@, v, row@.len() as int),
        !res.0 ==> last_less_before(row@, v, row@.len() as int) == -1,
{
    let mut k: usize = row.len();
    while k > 0
        invariant
            k <= row@.len(),
            last_less_before(row@, v, row@.len() as int) == last_less_before(row@, v, k as int),
        decreases k,
    {
        if row[k - 1] < v {
            return (true, k - 1);
        }
        k -= 1;
    }
    (false, 0)
}

/// Reverse the insertion: given a tableau and a corner cell, reverse-bump to recover
/// the inserted value.
///
/// The cell is meant to be a corner, the last cell of its row with no cell
/// below it. Given another cell of the row, the entry at `(row, col)` is the
/// one reverse-bumped, while the cell removed is still the last cell of the row.
pub fn reverse_insert(tableau: &YoungTableau, row: usize, col: usize) -> (res: (YoungTableau, u32))
    requires
        row < tableau@.len(),
        col < tableau@[row as int].len(),
    ensures
        (res.0@, res.1) == reverse_spec(tableau@, row as int, col as int),
{
    let ghost t = tableau@;
    let mut rows = copy_rows(&tableau.rows);
    assert(rows@[row as int]@ == t[row as int]);
    let mut val = rows[row][col];
    rows[row].pop();
    let ghost t1 = t.update(row as int, t[row as int].drop_last());
    assert(rows_view(rows@) =~= t1);
    if rows[row].len() == 0 && row == rows.len() - 1 {
        rows.pop();
        assert(rows_view(rows@) =~= t1.drop_last());
    }
    let mut r: usize = row;
    while r > 0
        invariant
            r <= row,
            r <= rows@.len(),
            unbump_from(rows_view(rows@), r as int, val) == reverse_spec(t, row as int, col as int),
        decreases r,
    {
        let rr = r - 1;
        let ghost cur = rows_view(rows@);
        assert(cur[rr as int] == rows@[rr as int]@);
        let (found, pos) = find_last_less(&rows[rr], val);
        if found {
            proof {
                lemma_last_less_before(cur[rr as int], val, cur[rr as int].len() as int);
            }
            let tmp = rows[rr][pos];
            rows[rr][pos] = val;
            assert(rows_view(rows@) =~= cur.update(rr as int, cur[rr as int].update(pos as int, val)));
            val = tmp;
        }
        r = rr;
    }
    (YoungTableau::from_rows(rows), val)
}

} // verus!
