//! A dense grid of optional cells, addressed by row and column.

use vstd::prelude::*;

verus! {

/// A grid of `rows` by `cols` cells, each present (`Some`) or absent (`None`).
pub struct Matrix<T: Copy> {
    values: Vec<Vec<Option<T>>>,
    rows: usize,
    cols: usize,
}

impl<T: Copy> View for Matrix<T> {
    type V = Seq<Seq<Option<T>>>;

    /// The grid as a sequence of rows.
    closed spec fn view(&self) -> Seq<Seq<Option<T>>> {
        self.values@.map_values(|r: Vec<Option<T>>| r@)
    }
}

impl<T: Copy> Matrix<T> {
    /// The number of rows.
    pub closed spec fn num_rows(&self) -> nat {
        self.rows as nat
    }

    /// The number of columns.
    pub closed spec fn num_cols(&self) -> nat {
        self.cols as nat
    }

    /// The grid has `num_rows` rows of `num_cols` cells each.
    pub open spec fn wf(&self) -> bool {
        &&& self@.len() == self.num_rows()
        &&& forall|i: int| 0 <= i < self@.len() ==> (#[trigger] self@[i]).len() == self.num_cols()
    }

    /// A row of `cols` copies of one cell.
    fn row_of(cols: usize, cell: Option<T>) -> (r: Vec<Option<T>>)
        ensures
            r@ == Seq::new(cols as nat, |j: int| cell),
    {
        let mut row: Vec<Option<T>> = Vec::new();
        let mut j: usize = 0;
        while j < cols
            invariant
                j <= cols,
                row@ == Seq::new(j as nat, |k: int| cell),
            decreases cols - j,
        {
            row.push(cell);
            j += 1;
            assert(row@ =~= Seq::new(j as nat, |k: int| cell));
        }
        row
    }

    /// A grid whose every cell is `cell`.
    fn uniform(rows: usize, cols: usize, cell: Option<T>) -> (r: Matrix<T>)
        ensures
            r.wf(),
            r.num_rows() == rows,
            r.num_cols() == cols,
            forall|i: int, j: int| 0 <= i < rows && 0 <= j < cols ==> r@[i][j] == cell,
    {
        let mut values: Vec<Vec<Option<T>>> = Vec::new();
        let mut i: usize = 0;
        while i < rows
            invariant
                i <= rows,
                values@.len() == i,
                forall|k: int| 0 <= k < i ==> (#[trigger] values@[k])@ == Seq::new(cols as nat, |j: int| cell),
            decreases rows - i,
        {
            values.push(Matrix::row_of(cols, cell));
            i += 1;
        }
        Matrix { values, rows, cols }
    }

    /// A grid whose every cell holds `fill`.
    pub fn fill(rows: usize, cols: usize, fill: T) -> (r: Matrix<T>)
        ensures
            r.wf(),
            r.num_rows() == rows,
            r.num_cols() == cols,
            forall|i: int, j: int| 0 <= i < rows && 0 <= j < cols ==> r@[i][j] == Some(fill),
    {
        Matrix::uniform(rows, cols, Some(fill))
    }

    /// A grid whose every cell is absent.
    pub fn nones(rows: usize, cols: usize) -> (r: Matrix<T>)
        ensures
            r.wf(),
            r.num_rows() == rows,
            r.num_cols() == cols,
            forall|i: int, j: int| 0 <= i < rows && 0 <= j < cols ==> r@[i][j] == None::<T>,
    {
        Matrix::uniform(rows, cols, None)
    }

    /// The cell at `(row, col)`, present or not.
    pub fn see(&self, row: usize, col: usize) -> (r: Option<T>)
        requires
            self.wf(),
            row < self.num_rows(),
            col < self.num_cols(),
        ensures
            r == self@[row as int][col as int],
    {
        assert(self@[row as int] == self.values@[row as int]@);
        self.values[row][col]
    }

    /// The value of the cell at `(row, col)`, which must be present.
    pub fn get(&self, row: usize, col: usize) -> (r: T)
        requires
            self.wf(),
            row < self.num_rows(),
            col < self.num_cols(),
            self@[row as int][col as int] is Some,
        ensures
            self@[row as int][col as int] == Some(r),
    {
        assert(self@[row as int] == self.values@[row as int]@);
        self.values[row][col].unwrap()
    }

    /// Overwrites the cell at `(row, col)`; `None` clears it.
    pub fn set(&mut self, row: usize, col: usize, value: Option<T>)
        requires
            old(self).wf(),
            row < old(self).num_rows(),
            col < old(self).num_cols(),
        ensures
            final(self).wf(),
            final(self).num_rows() == old(self).num_rows(),
            final(self).num_cols() == old(self).num_cols(),
            final(self)@ == old(self)@.update(row as int, old(self)@[row as int].update(col as int, value)),
    {
        assert(self@[row as int] == self.values@[row as int]@);
        self.values[row][col] = value;
        assert(self@ =~= old(self)@.update(row as int, old(self)@[row as int].update(col as int, value)));
    }

    /// Appends a row below the last one.
    pub fn add_row(&mut self, row: Vec<Option<T>>)
        requires
            old(self).wf(),
            row@.len() == old(self).num_cols(),
            old(self).num_rows() < usize::MAX,
        ensures
            final(self).wf(),
            final(self).num_rows() == old(self).num_rows() + 1,
            final(self).num_cols() == old(self).num_cols(),
            final(self)@ == old(self)@.push(row@),
    {
        self.values.push(row);
        self.rows = self.rows + 1;
        assert(self@ =~= old(self)@.push(row@));
    }

    /// Appends a column after the last one: row `i` gains `col[i]`.
    pub fn add_col(&mut self, col: Vec<Option<T>>)
        requires
            old(self).wf(),
            col@.len() >= old(self).num_rows(),
            old(self).num_cols() < usize::MAX,
        ensures
            final(self).wf(),
            final(self).num_rows() == old(self).num_rows(),
            final(self).num_cols() == old(self).num_cols() + 1,
            final(self)@.len() == old(self)@.len(),
            forall|i: int| 0 <= i < old(self)@.len() ==> final(self)@[i] == (#[trigger] old(self)@[i]).push(col@[i]),
    {
        let mut i: usize = 0;
        while i < self.rows
            invariant
                0 <= i <= self.rows,
                self.rows == old(self).rows,
                self.cols == old(self).cols,
                col@.len() >= self.rows,
                self@.len() == old(self)@.len(),
                old(self).wf(),
                forall|k: int| 0 <= k < i ==> self@[k] == (#[trigger] old(self)@[k]).push(col@[k]),
                forall|k: int| i <= k < self@.len() ==> self@[k] == (#[trigger] old(self)@[k]),
            decreases self.rows - i,
        {
            let cell = col[i];
            self.values[i].push(cell);
            i += 1;
        }
        self.cols = self.cols + 1;
        assert forall|k: int| 0 <= k < self@.len() implies (#[trigger] self@[k]).len() == self.num_cols() by {
            assert(self@[k] == old(self)@[k].push(col@[k]));
        }
    }

    /// The number of rows.
    pub fn get_rows(&self) -> (r: usize)
        ensures
            r == self.num_rows(),
    {
        self.rows
    }

    /// The number of columns.
    pub fn get_cols(&self) -> (r: usize)
        ensures
            r == self.num_cols(),
    {
        self.cols
    }
}

} // verus!
