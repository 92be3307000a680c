use vstd::prelude::*;
use vstd::pervasive::VecAdditionalExecFns;

use crate::error::GridError;

verus! {

/// The grid view `rows` with the elements at positions `p` and `q`
/// exchanged: first `p` takes the value found at `q`, then `q` takes the
/// value that `p` held before the exchange.
pub open spec fn swapped<T>(rows: Seq<Seq<T>>, p: (int, int), q: (int, int)) -> Seq<Seq<T>> {
    let mid = rows.update(p.0, rows[p.0].update(p.1, rows[q.0][q.1]));
    mid.update(q.0, mid[q.0].update(q.1, rows[p.0][p.1]))
}

/// The sum of the row sizes of a grid view.
pub open spec fn total_size<T>(rows: Seq<Seq<T>>) -> nat
    decreases rows.len(),
{
    if rows.len() == 0 {
        0
    } else {
        rows.first().len() + total_size(rows.drop_first())
    }
}

/// The index of the last row that holds at least one element, or `-1`
/// when every row is empty. This is the row that `remove` shortens.
pub open spec fn last_filled_row<T>(rows: Seq<Seq<T>>) -> int
    decreases rows.len(),
{
    if rows.len() == 0 {
        -1
    } else if rows.last().len() > 0 {
        rows.len() - 1
    } else {
        last_filled_row(rows.drop_last())
    }
}

/// The sum of the row sizes is the length of the flattened view: every
/// element belongs to exactly one row.
pub proof fn lemma_total_size_is_flatten_len<T>(rows: Seq<Seq<T>>)
    ensures
        total_size(rows) == rows.flatten().len(),
    decreases rows.len(),
{
    if rows.len() > 0 {
        lemma_total_size_is_flatten_len(rows.drop_first());
    }
}

/// In a view with at least one element, `last_filled_row` names a real,
/// non-empty row, and every row after it is empty.
pub proof fn lemma_last_filled_row_props<T>(rows: Seq<Seq<T>>)
    requires
        rows.flatten().len() > 0,
    ensures
        0 <= last_filled_row(rows) < rows.len(),
        rows[last_filled_row(rows)].len() > 0,
        forall|j: int| last_filled_row(rows) < j < rows.len() ==> #[trigger] rows[j].len() == 0,
    decreases rows.len(),
{
    if rows.len() == 0 {
        assert(rows.flatten().len() == 0);
    } else if rows.last().len() == 0 {
        rows.drop_last().lemma_flatten_push(rows.last());
        assert(rows.drop_last().push(rows.last()) =~= rows);
        assert(rows.drop_last().flatten() + rows.last() =~= rows.flatten());
        lemma_last_filled_row_props(rows.drop_last());
        let k = last_filled_row(rows.drop_last());
        assert(rows.drop_last()[k] == rows[k]);
    }
}

/// A jagged two-dimensional grid.
///
/// All elements live in one contiguous buffer, `data`, concatenated in
/// row-major order. `line_start_index` holds one offset per row: the
/// position in `data` where that row begins. A row's size is the distance
/// to the next row's start (or to the end of the buffer for the last row),
/// so rows of size zero are first-class values.
pub struct DynamicGrid<T> {
    data: Vec<T>,
    line_start_index: Vec<usize>,
}

impl<T> DynamicGrid<T> {
    /// The flat buffer: every element of every row, in row-major order.
    pub closed spec fn flat(&self) -> Seq<T> {
        self.data@
    }

    /// The row-start table, as mathematical integers.
    pub closed spec fn row_starts(&self) -> Seq<int> {
        self.line_start_index@.map_values(|v: usize| v as int)
    }

    /// Number of rows.
    pub open spec fn row_count(&self) -> int {
        self.row_starts().len() as int
    }

    /// Position in the flat buffer where row `i` begins.
    pub open spec fn row_start_of(&self, i: int) -> int {
        self.row_starts()[i]
    }

    /// Position in the flat buffer just past the end of row `i`.
    pub open spec fn row_end_of(&self, i: int) -> int {
        if i + 1 < self.row_count() {
            self.row_starts()[i + 1]
        } else {
            self.flat().len() as int
        }
    }

    /// The elements of row `i`, read out of the flat buffer.
    pub open spec fn row_seq(&self, i: int) -> Seq<T> {
        self.flat().subrange(self.row_start_of(i), self.row_end_of(i))
    }

    /// The shape invariant that ties the offset table to the flat buffer:
    /// starts are non-decreasing, the first row (when one exists) starts at
    /// zero, no start lies past the end of the buffer, and a grid without
    /// rows holds no elements. Every value of the type satisfies it; callers
    /// may recover it with `use_type_invariant`.
    #[verifier::type_invariant]
    pub closed spec fn wf(self) -> bool {
        &&& forall|i: int|
            0 <= i && i + 1 < self.row_count() ==> #[trigger] self.row_starts()[i]
                <= self.row_starts()[i + 1]
        &&& self.row_count() > 0 ==> self.row_starts()[0] == 0
        &&& self.row_count() > 0 ==> self.row_starts()[self.row_count() - 1] <= self.flat().len()
        &&& self.row_count() == 0 ==> self.flat().len() == 0
    }

    proof fn lemma_starts_ordered(&self, i: int, j: int)
        requires
            self.wf(),
            0 <= i <= j < self.row_count(),
        ensures
            self.row_starts()[i] <= self.row_starts()[j],
        decreases j - i,
    {
        if i < j {
            self.lemma_starts_ordered(i, j - 1);
            assert(self.row_starts()[j - 1] <= self.row_starts()[j]);
        }
    }

    proof fn lemma_starts_bounded(&self)
        requires
            self.wf(),
        ensures
            forall|i: int|
                0 <= i < self.row_count() ==> #[trigger] self.row_starts()[i]
                    <= self.flat().len(),
    {
        assert forall|i: int|
            0 <= i < self.row_count() implies #[trigger] self.row_starts()[i]
            <= self.flat().len() by {
            self.lemma_starts_ordered(i, self.row_count() - 1);
        }
    }

    /// How the view changes when one element enters the flat buffer at
    /// position `p` inside row `row` and every later row start grows by
    /// one.
    #[verifier::rlimit(100)]
    proof fn lemma_insert_view(olds: Self, g: Self, row: int, col: int, p: int, value: T)
        requires
            olds.wf(),
            0 <= row < olds.row_count(),
            0 <= col <= olds.row_end_of(row) - olds.row_start_of(row),
            p == olds.row_starts()[row] + col,
            g.flat() == olds.flat().insert(p, value),
            g.row_starts().len() == olds.row_starts().len(),
            forall|j: int| 0 <= j <= row ==> #[trigger] g.row_starts()[j] == olds.row_starts()[j],
            forall|j: int|
                row < j < olds.row_count() ==> #[trigger] g.row_starts()[j] == olds.row_starts()[j]
                    + 1,
        ensures
            g@ == olds@.update(row, olds@[row].insert(col, value)),
    {
        olds.lemma_row_bounds(row);
        assert(g.flat().len() == olds.flat().len() + 1);
        assert forall|i: int|
            0 <= i < olds.row_count() && i != row implies #[trigger] g.row_seq(i)
            == olds.row_seq(i) by {
            olds.lemma_row_bounds(i);
            if i < row {
                olds.lemma_starts_ordered(i + 1, row);
                assert(olds.row_end_of(i) <= p);
                assert(g.row_seq(i) =~= olds.row_seq(i));
            } else {
                if row + 1 <= i {
                    olds.lemma_starts_ordered(row + 1, i);
                }
                assert(p <= olds.row_starts()[i]);
                assert(g.row_seq(i) =~= olds.row_seq(i));
            }
        }
        assert(g.row_seq(row) =~= olds.row_seq(row).insert(col, value));
        assert(g@ =~= olds@.update(row, olds@[row].insert(col, value)));
    }

    /// How the view changes when one element of the flat buffer is
    /// overwritten in place: only the owning row changes, and only at the
    /// addressed column.
    #[verifier::rlimit(100)]
    proof fn lemma_update_view(olds: Self, g: Self, row: int, col: int, idx: int, value: T)
        requires
            olds.wf(),
            0 <= row < olds.row_count(),
            0 <= col < olds.row_end_of(row) - olds.row_start_of(row),
            idx == olds.row_starts()[row] + col,
            g.flat() == olds.flat().update(idx, value),
            g.row_starts() == olds.row_starts(),
        ensures
            g@ == olds@.update(row, olds@[row].update(col, value)),
    {
        olds.lemma_row_bounds(row);
        assert forall|i: int|
            0 <= i < olds.row_count() && i != row implies #[trigger] g.row_seq(i)
            == olds.row_seq(i) by {
            olds.lemma_row_bounds(i);
            if i < row {
                olds.lemma_starts_ordered(i + 1, row);
                assert(olds.row_end_of(i) <= idx);
            } else {
                olds.lemma_starts_ordered(row + 1, i);
                assert(idx < olds.row_end_of(row));
                assert(olds.row_end_of(row) <= olds.row_start_of(i));
            }
            assert(g.row_seq(i) =~= olds.row_seq(i));
        }
        assert(g.row_seq(row) =~= olds.row_seq(row).update(col, value));
        assert(g@ =~= olds@.update(row, olds@[row].update(col, value)));
    }

    proof fn lemma_suffix_flatten(&self, k: int)
        requires
            self.wf(),
            0 <= k <= self.row_count(),
        ensures
            self@.subrange(k, self.row_count()).flatten() == self.flat().subrange(
                if k < self.row_count() {
                    self.row_starts()[k]
                } else {
                    self.flat().len() as int
                },
                self.flat().len() as int,
            ),
        decreases self.row_count() - k,
    {
        let r = self.row_count();
        let total = self.flat().len() as int;
        if k == r {
            assert(self@.subrange(r, r) =~= Seq::<Seq<T>>::empty());
            assert(self.flat().subrange(total, total) =~= Seq::<T>::empty());
        } else {
            self.lemma_suffix_flatten(k + 1);
            self.lemma_row_bounds(k);
            let s = self@.subrange(k, r);
            let pos = if k + 1 < r {
                self.row_starts()[k + 1]
            } else {
                total
            };
            assert(s.first() == self@[k]);
            assert(s.drop_first() =~= self@.subrange(k + 1, r));
            assert(s.flatten() == s.first() + s.drop_first().flatten());
            assert(self.row_end_of(k) == pos);
            assert(self@[k] + self.flat().subrange(pos, total) =~= self.flat().subrange(
                self.row_starts()[k],
                total,
            ));
        }
    }

    /// Flattening the view in row order reproduces the flat buffer.
    proof fn lemma_flatten(&self)
        requires
            self.wf(),
        ensures
            self@.flatten() == self.flat(),
    {
        let r = self.row_count();
        if r == 0 {
            assert(self@ =~= Seq::<Seq<T>>::empty());
            assert(self.flat() =~= Seq::<T>::empty());
        } else {
            self.lemma_suffix_flatten(0);
            assert(self@.subrange(0, r) =~= self@);
            assert(self.flat().subrange(0, self.flat().len() as int) =~= self.flat());
        }
    }

    /// When every row from `j` on is empty, row `j` starts at the very end
    /// of the buffer.
    proof fn lemma_empty_suffix(&self, j: int)
        requires
            self.wf(),
            0 <= j < self.row_count(),
            forall|m: int| j <= m < self.row_count() ==> #[trigger] self@[m].len() == 0,
        ensures
            self.row_starts()[j] == self.flat().len(),
        decreases self.row_count() - j,
    {
        self.lemma_row_bounds(j);
        assert(self@[j].len() == 0);
        if j < self.row_count() - 1 {
            self.lemma_empty_suffix(j + 1);
        }
    }

    /// How the view changes when the final element of the flat buffer
    /// leaves and every row start that pointed past the new end is pulled
    /// back to it: the last non-empty row loses its last element and
    /// nothing else moves.
    proof fn lemma_remove_last_view(olds: Self, g: Self, k: int)
        requires
            olds.wf(),
            0 <= k < olds.row_count(),
            olds.row_starts()[k] < olds.flat().len(),
            olds.row_end_of(k) == olds.flat().len(),
            g.flat() == olds.flat().drop_last(),
            g.row_starts().len() == olds.row_starts().len(),
            forall|m: int| 0 <= m <= k ==> #[trigger] g.row_starts()[m] == olds.row_starts()[m],
            forall|m: int|
                k < m < olds.row_count() ==> #[trigger] g.row_starts()[m] == olds.flat().len()
                    - 1,
            forall|m: int|
                k < m < olds.row_count() ==> #[trigger] olds.row_starts()[m] == olds.flat().len(),
        ensures
            g@ == olds@.update(k, olds@[k].drop_last()),
    {
        let r = olds.row_count();
        let total = olds.flat().len() as int;
        olds.lemma_row_bounds(k);
        assert forall|i: int| 0 <= i < r && i < k implies #[trigger] g.row_seq(i) == olds.row_seq(
            i,
        ) by {
            olds.lemma_row_bounds(i);
            olds.lemma_starts_ordered(i + 1, k);
            assert(olds.row_end_of(i) <= olds.row_starts()[k]);
            assert(g.row_seq(i) =~= olds.row_seq(i));
        }
        assert(g.row_end_of(k) == total - 1);
        assert(g.row_seq(k) =~= olds.row_seq(k).drop_last());
        assert forall|i: int| k < i < r implies #[trigger] g.row_seq(i) == olds.row_seq(i) by {
            olds.lemma_row_bounds(i);
            assert(olds.row_seq(i) =~= Seq::<T>::empty());
            assert(g.row_seq(i) =~= Seq::<T>::empty());
        }
        assert(g@ =~= olds@.update(k, olds@[k].drop_last()));
    }

    /// How the view changes when a whole row leaves: its elements leave
    /// the flat buffer, its entry leaves the offset table, and every later
    /// row start falls back by the removed row's size.
    #[verifier::rlimit(100)]
    proof fn lemma_remove_row_view(olds: Self, g: Self, row: int, start: int, size: int)
        requires
            olds.wf(),
            0 <= row < olds.row_count(),
            start == olds.row_start_of(row),
            size == olds.row_end_of(row) - olds.row_start_of(row),
            g.flat() == olds.flat().subrange(0, start) + olds.flat().subrange(
                start + size,
                olds.flat().len() as int,
            ),
            g.row_starts().len() == olds.row_starts().len() - 1,
            forall|m: int| 0 <= m < row ==> #[trigger] g.row_starts()[m] == olds.row_starts()[m],
            forall|m: int|
                row <= m < olds.row_count() - 1 ==> #[trigger] g.row_starts()[m]
                    == olds.row_starts()[m + 1] - size,
        ensures
            g@ == olds@.remove(row),
    {
        let r = olds.row_count();
        let total = olds.flat().len() as int;
        olds.lemma_row_bounds(row);
        assert(g.flat().len() == total - size);
        assert forall|i: int| 0 <= i < row implies #[trigger] g.row_seq(i) == olds.row_seq(i) by {
            olds.lemma_row_bounds(i);
            olds.lemma_starts_ordered(i + 1, row);
            assert(olds.row_end_of(i) <= start);
            assert(g.row_start_of(i) == olds.row_start_of(i));
            assert(g.row_end_of(i) == olds.row_end_of(i));
            assert(g.row_seq(i) =~= olds.row_seq(i));
        }
        assert forall|i: int| row <= i < r - 1 implies #[trigger] g.row_seq(i) == olds.row_seq(
            i + 1,
        ) by {
            olds.lemma_row_bounds(i + 1);
            olds.lemma_starts_ordered(row + 1, i + 1);
            assert(start + size <= olds.row_starts()[i + 1]);
            assert(g.row_start_of(i) == olds.row_start_of(i + 1) - size);
            assert(g.row_end_of(i) == olds.row_end_of(i + 1) - size);
            assert(g.row_seq(i) =~= olds.row_seq(i + 1));
        }
        assert(g@ =~= olds@.remove(row));
    }

    proof fn lemma_row_bounds(&self, i: int)
        requires
            self.wf(),
            0 <= i < self.row_count(),
        ensures
            0 <= self.row_start_of(i) <= self.row_end_of(i) <= self.flat().len(),
            self@[i] == self.row_seq(i),
            self@[i].len() == self.row_end_of(i) - self.row_start_of(i),
    {
        self.lemma_starts_ordered(0, i);
        self.lemma_starts_ordered(i, self.row_count() - 1);
        if i + 1 < self.row_count() {
            self.lemma_starts_ordered(i + 1, self.row_count() - 1);
        }
    }
}

impl<T> DynamicGrid<T> {
    /// Shape invariant, spelled out: the offset table has one start per
    /// row; starts never decrease; the first row starts at zero; no start
    /// lies past the end of the buffer; each row is the slice of the flat
    /// buffer between its start and the next; reading the rows back in
    /// order reproduces the flat buffer; and the row sizes sum to the
    /// total element count. `wf` holds of every grid the public
    /// operations can reach — it is the type invariant, so an executable
    /// caller obtains it with `use_type_invariant`.
    pub proof fn lemma_shape_invariant(&self)
        requires
            self.wf(),
        ensures
            self.row_starts().len() == self@.len(),
            forall|i: int|
                0 <= i && i + 1 < self@.len() ==> #[trigger] self.row_starts()[i]
                    <= self.row_starts()[i + 1],
            self@.len() > 0 ==> self.row_starts()[0] == 0,
            self@.len() > 0 ==> self.row_starts()[self@.len() - 1] <= self.flat().len(),
            forall|i: int| 0 <= i < self@.len() ==> #[trigger] self@[i] == self.row_seq(i),
            self@.flatten() == self.flat(),
            total_size(self@) == self.flat().len(),
    {
        self.lemma_flatten();
        lemma_total_size_is_flatten_len(self@);
    }

    /// Round trip: a grid whose view equals `rows` — as `from_vec`
    /// guarantees of the grid it builds — reproduces `rows` exactly: the
    /// same number of rows, each of the same size, holding the same
    /// element at every position. `row_size` and `get` answer straight
    /// from the view, so reading every position back yields `rows`
    /// unchanged.
    pub proof fn lemma_round_trip(&self, rows: Seq<Seq<T>>)
        requires
            self@ == rows,
        ensures
            self@.len() == rows.len(),
            forall|i: int| 0 <= i < rows.len() ==> #[trigger] self@[i].len() == rows[i].len(),
            forall|i: int, j: int|
                0 <= i < rows.len() && 0 <= j < rows[i].len() ==> #[trigger] self@[i][j]
                    == rows[i][j],
    {
    }
}

impl<T> View for DynamicGrid<T> {
    type V = Seq<Seq<T>>;

    /// The grid as a mathematical sequence of rows.
    closed spec fn view(&self) -> Seq<Seq<T>> {
        Seq::new(self.row_count() as nat, |i: int| self.row_seq(i))
    }
}

impl<T: Copy> DynamicGrid<T> {
    /// Returns an empty grid: no rows, no elements.
    pub fn new() -> (g: Self)
        ensures
            g@ == Seq::<Seq<T>>::empty(),
    {
        let g = DynamicGrid { data: Vec::new(), line_start_index: Vec::new() };
        proof {
            assert(g@ =~= Seq::<Seq<T>>::empty());
        }
        g
    }

    /// Returns a grid of `row` rows, each of size `col`, every element a
    /// copy of `value`; row `i` starts at offset `i * col` of the flat
    /// buffer.
    pub fn init(row: usize, col: usize, value: T) -> (g: Self)
        ensures
            g@ == Seq::new(row as nat, |i: int| Seq::new(col as nat, |j: int| value)),
    {
        let mut g = DynamicGrid::new();
        let mut i: usize = 0;
        while i < row
            invariant
                i <= row,
                g@ =~= Seq::new(i as nat, |m: int| Seq::new(col as nat, |j: int| value)),
            decreases row - i,
        {
            g.push_empty_row();
            proof {
                assert(Seq::<T>::empty() =~= Seq::new(0 as nat, |n: int| value));
                assert(g@ =~= Seq::new(i as nat, |m: int| Seq::new(col as nat, |n: int| value))
                    .push(Seq::new(0 as nat, |n: int| value)));
            }
            let mut j: usize = 0;
            while j < col
                invariant
                    j <= col,
                    i < row,
                    g@.len() == i + 1,
                    g@ =~= Seq::new(i as nat, |m: int| Seq::new(col as nat, |n: int| value)).push(
                        Seq::new(j as nat, |n: int| value),
                    ),
                decreases col - j,
            {
                g.push_last(value);
                proof {
                    assert(Seq::new(j as nat, |n: int| value).push(value) =~= Seq::new(
                        (j + 1) as nat,
                        |n: int| value,
                    ));
                    assert(g@ =~= Seq::new(i as nat, |m: int| Seq::new(col as nat, |n: int| value))
                        .push(Seq::new((j + 1) as nat, |n: int| value)));
                }
                j = j + 1;
            }
            proof {
                assert(g@ =~= Seq::new((i + 1) as nat, |m: int| Seq::new(col as nat, |n: int| value)));
            }
            i = i + 1;
        }
        g
    }

    /// Returns a grid built from an explicit sequence of rows, flattened
    /// row-major; rows may have different, including zero, lengths.
    pub fn from_vec(vec: Vec<Vec<T>>) -> (g: Self)
        ensures
            g@ == vec@.map_values(|r: Vec<T>| r@),
    {
        let mut g = DynamicGrid::new();
        let rows = vec.len();
        let mut i: usize = 0;
        while i < rows
            invariant
                i <= rows,
                rows == vec@.len(),
                g@ =~= vec@.subrange(0, i as int).map_values(|r: Vec<T>| r@),
            decreases rows - i,
        {
            g.push_empty_row();
            proof {
                assert(vec@[i as int]@.subrange(0, 0) =~= Seq::<T>::empty());
                assert(g@ =~= vec@.subrange(0, i as int).map_values(|r: Vec<T>| r@).push(
                    vec@[i as int]@.subrange(0, 0),
                ));
            }
            let cols = vec[i].len();
            let mut j: usize = 0;
            while j < cols
                invariant
                    j <= cols,
                    i < rows,
                    rows == vec@.len(),
                    cols == vec@[i as int]@.len(),
                    g@.len() == i + 1,
                    g@ =~= vec@.subrange(0, i as int).map_values(|r: Vec<T>| r@).push(
                        vec@[i as int]@.subrange(0, j as int),
                    ),
                decreases cols - j,
            {
                g.push_last(vec[i][j]);
                proof {
                    assert(vec@[i as int]@.subrange(0, j as int).push(vec@[i as int]@[j as int])
                        =~= vec@[i as int]@.subrange(0, (j + 1) as int));
                    assert(g@ =~= vec@.subrange(0, i as int).map_values(|r: Vec<T>| r@).push(
                        vec@[i as int]@.subrange(0, (j + 1) as int),
                    ));
                }
                j = j + 1;
            }
            proof {
                assert(vec@[i as int]@.subrange(0, cols as int) =~= vec@[i as int]@);
                assert(g@ =~= vec@.subrange(0, (i + 1) as int).map_values(|r: Vec<T>| r@));
            }
            i = i + 1;
        }
        proof {
            assert(vec@.subrange(0, rows as int) =~= vec@);
        }
        g
    }

    /// Returns the number of rows of the grid.
    pub fn rows(&self) -> (n: usize)
        ensures
            n == self@.len(),
    {
        self.line_start_index.len()
    }

    /// Returns the size of row `index_row`. The caller must name a row the
    /// grid has; in exchange the bounds check is skipped.
    pub fn row_size_unchecked(&self, index_row: usize) -> (n: usize)
        requires
            index_row < self@.len(),
        ensures
            n == self@[index_row as int].len(),
    {
        proof {
            use_type_invariant(&*self);
            self.lemma_row_bounds(index_row as int);
        }
        let end: usize = if index_row < self.line_start_index.len() - 1 {
            self.line_start_index[index_row + 1]
        } else {
            self.data.len()
        };
        end - self.line_start_index[index_row]
    }

    /// Returns the size of row `index_row`, or absent when the grid has no
    /// such row. Absence here is a normal outcome, not a fault.
    pub fn row_size(&self, index_row: usize) -> (r: Option<usize>)
        ensures
            index_row < self@.len() ==> r == Some(self@[index_row as int].len() as usize),
            index_row >= self@.len() ==> r == None::<usize>,
    {
        if index_row < self.line_start_index.len() {
            Some(self.row_size_unchecked(index_row))
        } else {
            None
        }
    }

    /// Returns a reference to the element at `(index_row, index_col)`, or
    /// absent when the coordinate lies outside the grid's current shape.
    /// Absence here is a normal outcome, not a fault, and the call never
    /// panics.
    pub fn get(&self, index_row: usize, index_col: usize) -> (r: Option<&T>)
        ensures
            index_row < self@.len() && index_col < self@[index_row as int].len() ==> r == Some(
                &self@[index_row as int][index_col as int],
            ),
            !(index_row < self@.len() && index_col < self@[index_row as int].len()) ==> r
                == None::<&T>,
    {
        if index_row >= self.line_start_index.len() {
            return None;
        }
        proof {
            use_type_invariant(&*self);
            self.lemma_row_bounds(index_row as int);
        }
        if index_col >= self.row_size_unchecked(index_row) {
            return None;
        }
        let start: usize = self.line_start_index[index_row];
        let total = self.data.len();
        proof {
            assert(start == self.row_start_of(index_row as int));
            assert(start + index_col < self.row_end_of(index_row as int) <= total);
            assert(self.flat()[start + index_col] == self@[index_row as int][index_col as int]);
        }
        Some(&self.data[start + index_col])
    }

    /// Appends a row of size zero, starting at the current end of the
    /// buffer.
    #[verifier::rlimit(100)]
    fn push_empty_row(&mut self)
        ensures
            final(self)@ == old(self)@.push(Seq::<T>::empty()),
    {
        proof {
            use_type_invariant(&*self);
            if old(self)@.len() > 0 {
                old(self).lemma_row_bounds(old(self).row_count() - 1);
            }
        }
        let mut taken = DynamicGrid { data: Vec::<T>::new(), line_start_index: Vec::<usize>::new() };
        core::mem::swap(&mut taken, self);
        let DynamicGrid { mut data, line_start_index: mut starts } = taken;
        let n = data.len();
        starts.push(n);
        proof {
            let olds = *old(self);
            let ss = starts@.map_values(|v: usize| v as int);
            assert(ss =~= olds.row_starts().push(n as int));
            assert forall|i: int| 0 <= i && i + 1 < ss.len() implies #[trigger] ss[i] <= ss[i + 1] by {
                if i + 1 < olds.row_count() {
                    assert(olds.row_starts()[i] <= olds.row_starts()[i + 1]);
                } else {
                    assert(olds.row_starts()[i] <= olds.flat().len());
                }
            }
        }
        let g = DynamicGrid { data, line_start_index: starts };
        proof {
            let olds = *old(self);
            assert forall|i: int| 0 <= i < olds.row_count() implies g.row_seq(i) == olds.row_seq(
                i,
            ) by {
                olds.lemma_row_bounds(i);
                assert(g.row_seq(i) =~= olds.row_seq(i));
            }
            assert(g.row_seq(g.row_count() - 1) =~= Seq::<T>::empty());
            assert(g@ =~= olds@.push(Seq::<T>::empty()));
        }
        *self = g;
    }

    /// Appends `value` to the last row; the grid must have a row.
    #[verifier::rlimit(100)]
    fn push_last(&mut self, value: T)
        requires
            old(self)@.len() > 0,
        ensures
            final(self)@ == old(self)@.update(
                old(self)@.len() - 1,
                old(self)@[old(self)@.len() - 1].push(value),
            ),
    {
        proof {
            use_type_invariant(&*self);
            old(self).lemma_row_bounds(old(self).row_count() - 1);
        }
        let mut taken = DynamicGrid { data: Vec::<T>::new(), line_start_index: Vec::<usize>::new() };
        core::mem::swap(&mut taken, self);
        let DynamicGrid { mut data, line_start_index: starts } = taken;
        data.push(value);
        proof {
            let olds = *old(self);
            assert(starts@.map_values(|v: usize| v as int) =~= olds.row_starts());
            assert(data@ =~= olds.flat().push(value));
        }
        let g = DynamicGrid { data, line_start_index: starts };
        proof {
            let olds = *old(self);
            let last = olds.row_count() - 1;
            assert forall|i: int| 0 <= i < last implies g.row_seq(i) == olds.row_seq(i) by {
                olds.lemma_row_bounds(i);
                assert(g.row_seq(i) =~= olds.row_seq(i));
            }
            assert(g.row_seq(last) =~= olds.row_seq(last).push(value));
            assert(g@ =~= olds@.update(last, olds@[last].push(value)));
        }
        *self = g;
    }

    /// Pushes `value` onto the end of the last row and returns the `(row,
    /// column)` position the value landed in. The grid must already have at
    /// least one row — "last row" is undefined otherwise — and the call
    /// faults with [`GridError::NoRows`] when it has none, leaving the grid
    /// unchanged.
    pub fn push(&mut self, value: T) -> (r: Result<(usize, usize), GridError>)
        ensures
            old(self)@.len() == 0 ==> r == Err::<(usize, usize), GridError>(GridError::NoRows)
                && final(self)@ == old(self)@,
            old(self)@.len() > 0 ==> r == Ok::<(usize, usize), GridError>(
                (
                    (old(self)@.len() - 1) as usize,
                    old(self)@[old(self)@.len() - 1].len() as usize,
                ),
            ) && final(self)@ == old(self)@.update(
                old(self)@.len() - 1,
                old(self)@[old(self)@.len() - 1].push(value),
            ),
    {
        let rows = self.line_start_index.len();
        if rows == 0 {
            return Err(GridError::NoRows);
        }
        proof {
            use_type_invariant(&*self);
            old(self).lemma_row_bounds(old(self).row_count() - 1);
        }
        let col = self.row_size_unchecked(rows - 1);
        self.push_last(value);
        Ok((rows - 1, col))
    }

    /// Appends a new row holding just `value` and returns its `(row,
    /// column)` position: the new row's index and column zero.
    pub fn push_new_row(&mut self, value: T) -> (r: (usize, usize))
        ensures
            final(self)@ == old(self)@.push(seq![value]),
            r == (old(self)@.len() as usize, 0usize),
    {
        let rows = self.line_start_index.len();
        self.push_empty_row();
        self.push_last(value);
        proof {
            assert(Seq::<T>::empty().push(value) =~= seq![value]);
            assert((*self)@ =~= old(self)@.push(seq![value]));
        }
        (rows, 0)
    }

    /// Inserts `value` at `(index_row, index_col)`, shifting every element
    /// at or after that flat position one slot right, and moving the start
    /// of every row after `index_row` along with them.
    #[verifier::rlimit(100)]
    fn insert_at(&mut self, index_row: usize, index_col: usize, value: T)
        requires
            index_row < old(self)@.len(),
            index_col <= old(self)@[index_row as int].len(),
        ensures
            final(self)@ == old(self)@.update(
                index_row as int,
                old(self)@[index_row as int].insert(index_col as int, value),
            ),
    {
        proof {
            use_type_invariant(&*self);
            old(self).lemma_row_bounds(index_row as int);
            old(self).lemma_starts_bounded();
        }
        let mut taken = DynamicGrid { data: Vec::<T>::new(), line_start_index: Vec::<usize>::new() };
        core::mem::swap(&mut taken, self);
        let DynamicGrid { mut data, line_start_index: mut starts } = taken;
        let ghost olds = *old(self);
        let ghost s0 = starts@;
        let start: usize = starts[index_row];
        let old_total = data.len();
        proof {
            assert(start as int == olds.row_starts()[index_row as int]);
            assert(start + index_col <= olds.row_end_of(index_row as int) <= olds.flat().len());
            assert(olds.flat().len() == old_total);
        }
        let position: usize = start + index_col;
        data.insert(position, value);
        let new_total = data.len();
        let rows = starts.len();
        let mut k = rows;
        while k > index_row + 1
            invariant
                index_row < rows,
                index_row + 1 <= k <= rows,
                rows == s0.len(),
                starts@.len() == s0.len(),
                new_total == olds.flat().len() + 1,
                forall|j: int| 0 <= j < k ==> starts@[j] == s0[j],
                forall|j: int| k <= j < rows ==> starts@[j] == s0[j] + 1,
                forall|j: int|
                    0 <= j < rows ==> #[trigger] s0[j] as int == olds.row_starts()[j],
                forall|j: int|
                    0 <= j < rows ==> #[trigger] olds.row_starts()[j] <= olds.flat().len(),
            decreases k,
        {
            k = k - 1;
            let s = starts[k];
            proof {
                assert(s as int == s0[k as int]);
                assert(olds.row_starts()[k as int] <= olds.flat().len());
            }
            starts.set(k, s + 1);
        }
        proof {
            let row = index_row as int;
            let ss = starts@.map_values(|v: usize| v as int);
            assert forall|j: int|
                0 <= j <= row implies #[trigger] ss[j] == olds.row_starts()[j] by {
                assert(starts@[j] == s0[j]);
            }
            assert forall|j: int|
                row < j < ss.len() implies #[trigger] ss[j] == olds.row_starts()[j] + 1 by {
                assert(starts@[j] == s0[j] + 1);
            }
            assert forall|i: int| 0 <= i && i + 1 < ss.len() implies #[trigger] ss[i] <= ss[i
                + 1] by {
                assert(olds.row_starts()[i] <= olds.row_starts()[i + 1]);
            }
            assert(ss[0] == olds.row_starts()[0]);
            assert(ss[ss.len() - 1] <= olds.flat().len() + 1);
        }
        let g = DynamicGrid { data, line_start_index: starts };
        proof {
            Self::lemma_insert_view(
                olds,
                g,
                index_row as int,
                index_col as int,
                position as int,
                value,
            );
        }
        *self = g;
    }

    /// Inserts `value` at position `index_col` within row `index_row`;
    /// a column index equal to the row's size appends to that row. Every
    /// later element shifts one slot right in the flat buffer, and the
    /// start of every row after `index_row` grows by exactly one. An
    /// out-of-range index is a caller-contract violation: the call faults
    /// and the grid is left exactly as it was.
    pub fn insert(&mut self, index_row: usize, index_col: usize, value: T) -> (r: Result<
        (),
        GridError,
    >)
        ensures
            index_row >= old(self)@.len() ==> r == Err::<(), GridError>(
                GridError::RowOutOfBounds { index: index_row, rows: old(self)@.len() as usize },
            ) && final(self)@ == old(self)@,
            index_row < old(self)@.len() && index_col > old(self)@[index_row as int].len() ==> r
                == Err::<(), GridError>(
                GridError::ColumnOutOfBounds {
                    index: index_col,
                    size: old(self)@[index_row as int].len() as usize,
                },
            ) && final(self)@ == old(self)@,
            index_row < old(self)@.len() && index_col <= old(self)@[index_row as int].len() ==> r
                == Ok::<(), GridError>(()) && final(self)@ == old(self)@.update(
                index_row as int,
                old(self)@[index_row as int].insert(index_col as int, value),
            ),
    {
        let rows = self.line_start_index.len();
        if index_row >= rows {
            return Err(GridError::RowOutOfBounds { index: index_row, rows });
        }
        let size = self.row_size_unchecked(index_row);
        if index_col > size {
            return Err(GridError::ColumnOutOfBounds { index: index_col, size });
        }
        self.insert_at(index_row, index_col, value);
        Ok(())
    }

    /// Appends `value` at the end of row `index_row` — not necessarily the
    /// last row — and returns the `(row, column)` position it landed in,
    /// or absent when the grid has no such row (the grid is then
    /// unchanged).
    pub fn push_at_row(&mut self, index_row: usize, value: T) -> (r: Option<(usize, usize)>)
        ensures
            index_row >= old(self)@.len() ==> r == None::<(usize, usize)> && final(self)@ == old(
                self,
            )@,
            index_row < old(self)@.len() ==> r == Some(
                (index_row, old(self)@[index_row as int].len() as usize),
            ) && final(self)@ == old(self)@.update(
                index_row as int,
                old(self)@[index_row as int].push(value),
            ),
    {
        if index_row >= self.line_start_index.len() {
            return None;
        }
        let col = self.row_size_unchecked(index_row);
        self.insert_at(index_row, col, value);
        proof {
            assert(old(self)@[index_row as int].insert(col as int, value) =~= old(
                self,
            )@[index_row as int].push(value));
        }
        Some((index_row, col))
    }

    /// Drops the final element of the flat buffer and pulls every row
    /// start that pointed past the new end back to it.
    #[verifier::rlimit(100)]
    fn remove_last(&mut self)
        requires
            old(self)@.flatten().len() > 0,
        ensures
            final(self)@ == old(self)@.update(
                last_filled_row(old(self)@),
                old(self)@[last_filled_row(old(self)@)].drop_last(),
            ),
    {
        proof {
            use_type_invariant(&*self);
            self.lemma_flatten();
            lemma_last_filled_row_props(self@);
            let k = last_filled_row(self@);
            self.lemma_row_bounds(k);
            self.lemma_starts_bounded();
            assert forall|j: int|
                k < j < self.row_count() implies #[trigger] self.row_starts()[j]
                == self.flat().len() by {
                self.lemma_empty_suffix(j);
            }
            if k < self.row_count() - 1 {
                assert(self.row_end_of(k) == self.flat().len());
            }
        }
        let mut taken = DynamicGrid { data: Vec::<T>::new(), line_start_index: Vec::<usize>::new() };
        core::mem::swap(&mut taken, self);
        let DynamicGrid { mut data, line_start_index: mut starts } = taken;
        let ghost olds = *old(self);
        let ghost s0 = starts@;
        let ghost k = last_filled_row(olds@);
        let _popped = data.pop();
        let new_total = data.len();
        let rows = starts.len();
        let mut j: usize = 0;
        while j < rows
            invariant
                0 <= j <= rows,
                rows == s0.len(),
                starts@.len() == s0.len(),
                new_total == olds.flat().len() - 1,
                forall|m: int|
                    0 <= m < j ==> starts@[m] == (if s0[m] > new_total {
                        new_total as usize
                    } else {
                        s0[m]
                    }),
                forall|m: int| j <= m < rows ==> starts@[m] == s0[m],
            decreases rows - j,
        {
            if starts[j] > new_total {
                starts.set(j, new_total);
            }
            j = j + 1;
        }
        proof {
            let ss = starts@.map_values(|v: usize| v as int);
            let total = olds.flat().len() as int;
            assert forall|m: int|
                0 <= m <= k implies #[trigger] ss[m] == olds.row_starts()[m] by {
                olds.lemma_starts_ordered(m, k);
                assert(olds.row_starts()[m] < total);
                assert(s0[m] <= new_total);
            }
            assert forall|m: int|
                k < m < olds.row_count() implies #[trigger] ss[m] == total - 1 by {
                assert(s0[m] as int == olds.row_starts()[m]);
                assert(olds.row_starts()[m] == total);
            }
            assert forall|i: int|
                0 <= i && i + 1 < ss.len() implies #[trigger] ss[i] <= ss[i + 1] by {
                assert(olds.row_starts()[i] <= olds.row_starts()[i + 1]);
            }
            assert(data@ =~= olds.flat().drop_last());
        }
        let g = DynamicGrid { data, line_start_index: starts };
        proof {
            Self::lemma_remove_last_view(olds, g, k);
        }
        *self = g;
    }

    /// Removes the last element of the grid: the final element of the
    /// flat buffer, which closes the last non-empty row. A row is never
    /// deleted by this call — a row whose last element leaves stays as a
    /// first-class row of size zero; only `remove_row` deletes rows. Does
    /// nothing when the grid has no elements.
    pub fn remove(&mut self)
        ensures
            old(self)@.flatten().len() == 0 ==> final(self)@ == old(self)@,
            old(self)@.flatten().len() > 0 ==> final(self)@ == old(self)@.update(
                last_filled_row(old(self)@),
                old(self)@[last_filled_row(old(self)@)].drop_last(),
            ),
    {
        proof {
            use_type_invariant(&*self);
            self.lemma_flatten();
        }
        if self.data.len() > 0 {
            self.remove_last();
        }
    }

    /// Deletes row `index_row` entirely: its elements leave the flat
    /// buffer, its entry leaves the offset table, and every later row's
    /// start falls back by the removed row's size.
    #[verifier::rlimit(100)]
    fn remove_row_at(&mut self, index_row: usize)
        requires
            index_row < old(self)@.len(),
        ensures
            final(self)@ == old(self)@.remove(index_row as int),
    {
        proof {
            use_type_invariant(&*self);
            old(self).lemma_row_bounds(index_row as int);
            old(self).lemma_starts_bounded();
        }
        let mut taken = DynamicGrid { data: Vec::<T>::new(), line_start_index: Vec::<usize>::new() };
        core::mem::swap(&mut taken, self);
        let DynamicGrid { mut data, line_start_index: mut starts } = taken;
        let ghost olds = *old(self);
        let ghost s0 = starts@;
        let rows = starts.len();
        let start: usize = starts[index_row];
        let end: usize = if index_row < rows - 1 {
            starts[index_row + 1]
        } else {
            data.len()
        };
        let size: usize = end - start;
        let ghost total = olds.flat().len() as int;
        proof {
            assert(end as int == olds.row_end_of(index_row as int));
            assert forall|m: int|
                index_row < m < rows implies #[trigger] s0[m] >= end by {
                olds.lemma_starts_ordered(index_row as int + 1, m);
            }
        }
        let mut j = index_row + 1;
        while j < rows
            invariant
                index_row + 1 <= j <= rows,
                index_row < rows,
                rows == s0.len(),
                starts@.len() == s0.len(),
                size <= end <= total,
                forall|m: int| index_row < m < rows ==> #[trigger] s0[m] >= end,
                forall|m: int| 0 <= m <= index_row ==> starts@[m] == s0[m],
                forall|m: int| j <= m < rows ==> starts@[m] == s0[m],
                forall|m: int|
                    index_row < m < j ==> #[trigger] starts@[m] == s0[m] - size,
            decreases rows - j,
        {
            let s = starts[j];
            proof {
                assert(s == s0[j as int]);
                assert(s0[j as int] >= end);
            }
            starts.set(j, s - size);
            j = j + 1;
        }
        let mut c: usize = 0;
        while c < size
            invariant
                0 <= c <= size,
                start + size <= total,
                total == olds.flat().len(),
                data@ =~= olds.flat().subrange(0, start as int) + olds.flat().subrange(
                    start + c,
                    total,
                ),
            decreases size - c,
        {
            proof {
                assert(data@.len() == total - c);
            }
            let _removed = data.remove(start);
            c = c + 1;
            proof {
                assert(data@ =~= olds.flat().subrange(0, start as int) + olds.flat().subrange(
                    start + c,
                    total,
                ));
            }
        }
        let _removed_start = starts.remove(index_row);
        proof {
            let row = index_row as int;
            let ss = starts@.map_values(|v: usize| v as int);
            assert forall|m: int|
                0 <= m < row implies #[trigger] ss[m] == olds.row_starts()[m] by {
                assert(starts@[m] == s0[m]);
            }
            assert forall|m: int|
                row <= m < olds.row_count() - 1 implies #[trigger] ss[m] == olds.row_starts()[m
                + 1] - size by {
                assert(starts@[m] == s0[m + 1] - size);
            }
            assert forall|i: int|
                0 <= i && i + 1 < ss.len() implies #[trigger] ss[i] <= ss[i + 1] by {
                if i + 1 < row {
                    assert(olds.row_starts()[i] <= olds.row_starts()[i + 1]);
                } else if i + 1 == row {
                    assert(olds.row_starts()[i] <= olds.row_starts()[row]);
                    assert(olds.row_starts()[row + 1] - size == olds.row_starts()[row]);
                } else {
                    assert(olds.row_starts()[i + 1] <= olds.row_starts()[i + 2]);
                }
            }
            if ss.len() > 0 {
                assert(ss[ss.len() - 1] <= total - size) by {
                    if row == olds.row_count() - 1 {
                        assert(olds.row_starts()[row] == total - size);
                        olds.lemma_starts_ordered(ss.len() - 1, row);
                    }
                }
            }
        }
        let g = DynamicGrid { data, line_start_index: starts };
        proof {
            Self::lemma_remove_row_view(olds, g, index_row as int, start as int, size as int);
        }
        *self = g;
    }

    /// Deletes row `index_row`: its elements leave the flat buffer, and
    /// every later row moves up by one with its start offset reduced by
    /// the removed row's size. Does nothing when the grid holds no
    /// elements or has no such row.
    pub fn remove_row(&mut self, index_row: usize)
        ensures
            old(self)@.flatten().len() == 0 || index_row >= old(self)@.len() ==> final(self)@
                == old(self)@,
            old(self)@.flatten().len() > 0 && index_row < old(self)@.len() ==> final(self)@ == old(
                self,
            )@.remove(index_row as int),
    {
        proof {
            use_type_invariant(&*self);
            self.lemma_flatten();
        }
        if self.data.len() == 0 {
            return ;
        }
        if index_row >= self.line_start_index.len() {
            return ;
        }
        self.remove_row_at(index_row);
    }

    /// Reads the element at a position the caller has already checked.
    fn read_at(&self, index_row: usize, index_col: usize) -> (v: T)
        requires
            index_row < self@.len(),
            index_col < self@[index_row as int].len(),
        ensures
            v == self@[index_row as int][index_col as int],
    {
        proof {
            use_type_invariant(&*self);
            self.lemma_row_bounds(index_row as int);
        }
        let start: usize = self.line_start_index[index_row];
        let total = self.data.len();
        proof {
            assert(start + index_col < self.row_end_of(index_row as int) <= total);
            assert(self.flat()[start + index_col] == self@[index_row as int][index_col as int]);
        }
        self.data[start + index_col]
    }

    /// Overwrites the element at a position the caller has already
    /// checked, returning the value it held before.
    fn replace_at(&mut self, index_row: usize, index_col: usize, value: T) -> (prev: T)
        requires
            index_row < old(self)@.len(),
            index_col < old(self)@[index_row as int].len(),
        ensures
            prev == old(self)@[index_row as int][index_col as int],
            final(self)@ == old(self)@.update(
                index_row as int,
                old(self)@[index_row as int].update(index_col as int, value),
            ),
    {
        proof {
            use_type_invariant(&*self);
            old(self).lemma_row_bounds(index_row as int);
        }
        let prev = self.read_at(index_row, index_col);
        let mut taken = DynamicGrid { data: Vec::<T>::new(), line_start_index: Vec::<usize>::new() };
        core::mem::swap(&mut taken, self);
        let DynamicGrid { mut data, line_start_index: starts } = taken;
        let ghost olds = *old(self);
        let start: usize = starts[index_row];
        let total = data.len();
        proof {
            assert(start as int == olds.row_starts()[index_row as int]);
            assert(start + index_col < olds.row_end_of(index_row as int) <= total);
        }
        let idx: usize = start + index_col;
        data.set(idx, value);
        let g = DynamicGrid { data, line_start_index: starts };
        proof {
            assert(g.row_starts() =~= olds.row_starts());
            Self::lemma_update_view(olds, g, index_row as int, index_col as int, idx as int, value);
        }
        *self = g;
        prev
    }

    /// Overwrites the element at `(index_row, index_col)` with `value` and
    /// returns the previous value, or absent — with the grid unchanged —
    /// when the coordinate lies outside the grid's current shape. This is
    /// the grid's checked mutable element access.
    pub fn replace(&mut self, index_row: usize, index_col: usize, value: T) -> (r: Option<T>)
        ensures
            index_row < old(self)@.len() && index_col < old(self)@[index_row as int].len() ==> r
                == Some(old(self)@[index_row as int][index_col as int]) && final(self)@ == old(
                self,
            )@.update(
                index_row as int,
                old(self)@[index_row as int].update(index_col as int, value),
            ),
            !(index_row < old(self)@.len() && index_col < old(self)@[index_row as int].len())
                ==> r == None::<T> && final(self)@ == old(self)@,
    {
        if index_row >= self.line_start_index.len() {
            return None;
        }
        if index_col >= self.row_size_unchecked(index_row) {
            return None;
        }
        Some(self.replace_at(index_row, index_col, value))
    }

    /// Exchanges the two addressed elements in place; row sizes and
    /// offsets do not change. Both positions must satisfy the same bounds
    /// contract as `get`; an out-of-range position is a caller-contract
    /// violation, and the call faults — row violations are reported before
    /// column violations, the first position before the second — leaving
    /// the grid exactly as it was.
    pub fn swap(&mut self, first_position: (usize, usize), second_position: (usize, usize)) -> (r:
        Result<(), GridError>)
        ensures
            first_position.0 >= old(self)@.len() ==> r == Err::<(), GridError>(
                GridError::RowOutOfBounds {
                    index: first_position.0,
                    rows: old(self)@.len() as usize,
                },
            ) && final(self)@ == old(self)@,
            first_position.0 < old(self)@.len() && second_position.0 >= old(self)@.len() ==> r
                == Err::<(), GridError>(
                GridError::RowOutOfBounds {
                    index: second_position.0,
                    rows: old(self)@.len() as usize,
                },
            ) && final(self)@ == old(self)@,
            first_position.0 < old(self)@.len() && second_position.0 < old(self)@.len()
                && first_position.1 >= old(self)@[first_position.0 as int].len() ==> r == Err::<
                (),
                GridError,
            >(
                GridError::ColumnOutOfBounds {
                    index: first_position.1,
                    size: old(self)@[first_position.0 as int].len() as usize,
                },
            ) && final(self)@ == old(self)@,
            first_position.0 < old(self)@.len() && second_position.0 < old(self)@.len()
                && first_position.1 < old(self)@[first_position.0 as int].len()
                && second_position.1 >= old(self)@[second_position.0 as int].len() ==> r == Err::<
                (),
                GridError,
            >(
                GridError::ColumnOutOfBounds {
                    index: second_position.1,
                    size: old(self)@[second_position.0 as int].len() as usize,
                },
            ) && final(self)@ == old(self)@,
            first_position.0 < old(self)@.len() && second_position.0 < old(self)@.len()
                && first_position.1 < old(self)@[first_position.0 as int].len()
                && second_position.1 < old(self)@[second_position.0 as int].len() ==> r == Ok::<
                (),
                GridError,
            >(()) && final(self)@ == swapped(
                old(self)@,
                (first_position.0 as int, first_position.1 as int),
                (second_position.0 as int, second_position.1 as int),
            ),
    {
        let rows = self.line_start_index.len();
        if first_position.0 >= rows {
            return Err(GridError::RowOutOfBounds { index: first_position.0, rows });
        }
        if second_position.0 >= rows {
            return Err(GridError::RowOutOfBounds { index: second_position.0, rows });
        }
        let first_size = self.row_size_unchecked(first_position.0);
        if first_position.1 >= first_size {
            return Err(GridError::ColumnOutOfBounds { index: first_position.1, size: first_size });
        }
        let second_size = self.row_size_unchecked(second_position.0);
        if second_position.1 >= second_size {
            return Err(
                GridError::ColumnOutOfBounds { index: second_position.1, size: second_size },
            );
        }
        let a = self.read_at(first_position.0, first_position.1);
        let b = self.read_at(second_position.0, second_position.1);
        self.replace_at(first_position.0, first_position.1, b);
        self.replace_at(second_position.0, second_position.1, a);
        Ok(())
    }

    /// Returns every element of the grid in row-major order — the rows in
    /// order, each row in column order. Each call yields a fresh vector,
    /// so the grid can be walked any number of times.
    pub fn iter(&self) -> (r: Vec<T>)
        ensures
            r@ == self@.flatten(),
    {
        proof {
            use_type_invariant(&*self);
            self.lemma_flatten();
        }
        let total = self.data.len();
        let mut out: Vec<T> = Vec::new();
        let mut i: usize = 0;
        while i < total
            invariant
                i <= total,
                total == self.flat().len(),
                out@ =~= self.flat().subrange(0, i as int),
            decreases total - i,
        {
            out.push(self.data[i]);
            proof {
                assert(out@ =~= self.flat().subrange(0, (i + 1) as int));
            }
            i = i + 1;
        }
        proof {
            assert(out@ =~= self.flat());
        }
        out
    }

    /// Returns the elements of row `index_row` in column order, as a
    /// fresh vector. Asking for a row the grid does not have is a
    /// caller-contract violation: the call faults instead of answering.
    pub fn iter_row(&self, index_row: usize) -> (r: Result<Vec<T>, GridError>)
        ensures
            index_row < self@.len() ==> r is Ok && r->Ok_0@ == self@[index_row as int],
            index_row >= self@.len() ==> r == Err::<Vec<T>, GridError>(
                GridError::RowOutOfBounds { index: index_row, rows: self@.len() as usize },
            ),
    {
        let rows = self.line_start_index.len();
        if index_row >= rows {
            return Err(GridError::RowOutOfBounds { index: index_row, rows });
        }
        proof {
            use_type_invariant(&*self);
            self.lemma_row_bounds(index_row as int);
        }
        let start = self.line_start_index[index_row];
        let size = self.row_size_unchecked(index_row);
        let total = self.data.len();
        let mut out: Vec<T> = Vec::new();
        let mut i: usize = 0;
        while i < size
            invariant
                i <= size,
                index_row < self@.len(),
                start as int == self.row_start_of(index_row as int),
                size == self@[index_row as int].len(),
                total == self.flat().len(),
                start + size <= total,
                self@[index_row as int] == self.flat().subrange(
                    start as int,
                    start as int + size,
                ),
                out@ =~= self@[index_row as int].subrange(0, i as int),
            decreases size - i,
        {
            out.push(self.data[start + i]);
            proof {
                assert(out@ =~= self@[index_row as int].subrange(0, (i + 1) as int));
            }
            i = i + 1;
        }
        proof {
            assert(out@ =~= self@[index_row as int]);
        }
        Ok(out)
    }
}

impl<T: Copy> Default for DynamicGrid<T> {
    /// The default grid is the empty grid.
    fn default() -> (g: Self)
        ensures
            g@ == Seq::<Seq<T>>::empty(),
    {
        DynamicGrid::new()
    }
}

} // verus!
