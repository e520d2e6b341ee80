//! The score matrix and the traceback matrix, each held in a two-dimensional
//! `ndarray` array. Verus sees the arrays through `score_cells` and
//! `traceback_cells`, which name their contents row by row.

use vstd::prelude::*;
use crate::alignment::smith_waterman::Direction;

verus! {

/// Bytes that one cell of either matrix may take.
pub const CELL_BYTES: usize = 24;

/// A matrix of scores, one row per character of the first sequence and one
/// more, one column per character of the second and one more. It is an
/// `ndarray::Array2`, of which Verus knows what `score_cells` says.
#[verifier::external_body]
pub struct ScoreMatrix {
    cells: ndarray::Array2<i64>,
}

/// A matrix of the same shape whose cells list the directions that lead to
/// a cell's best predecessors. It is an `ndarray::Array2`, of which Verus
/// knows what `traceback_cells` says.
#[verifier::external_body]
pub struct TracebackMatrix {
    cells: ndarray::Array2<Vec<Direction>>,
}

/// The rows of a score matrix, from row 0, each from column 0.
pub uninterp spec fn score_cells(m: ScoreMatrix) -> Seq<Seq<i64>>;

/// The rows of a traceback matrix, from row 0, each from column 0.
pub uninterp spec fn traceback_cells(m: TracebackMatrix) -> Seq<Seq<Seq<Direction>>>;

/// Every row of `s` has `cols` cells, and there are `rows` of them.
pub open spec fn has_shape<T>(s: Seq<Seq<T>>, rows: nat, cols: nat) -> bool {
    &&& s.len() == rows
    &&& forall|i: int| 0 <= i < rows ==> (#[trigger] s[i]).len() == cols
}

/// `s` with the cell at row `i`, column `j` replaced by `v`.
pub open spec fn with_cell<T>(s: Seq<Seq<T>>, i: int, j: int, v: T) -> Seq<Seq<T>> {
    s.update(i, s[i].update(j, v))
}

impl View for ScoreMatrix {
    type V = Seq<Seq<int>>;

    open spec fn view(&self) -> Seq<Seq<int>> {
        Seq::new(
            score_cells(*self).len(),
            |i: int| Seq::new(score_cells(*self)[i].len(), |j: int| score_cells(*self)[i][j] as int),
        )
    }
}

impl View for TracebackMatrix {
    type V = Seq<Seq<Seq<Direction>>>;

    open spec fn view(&self) -> Seq<Seq<Seq<Direction>>> {
        traceback_cells(*self)
    }
}

impl ScoreMatrix {
    /// `ndarray::Array2::zeros`: an array of the given shape with 0 in every
    /// cell. It panics where the cells cannot be allocated, which the
    /// precondition rules out.
    #[verifier::external_body]
    pub(crate) fn zeros(rows: usize, cols: usize) -> (m: ScoreMatrix)
        requires
            rows >= 1,
            cols >= 1,
            rows * cols * CELL_BYTES <= isize::MAX,
        ensures
            score_cells(m) == Seq::new(rows as nat, |i: int| Seq::new(cols as nat, |j: int| 0i64)),
    {
        ScoreMatrix { cells: ndarray::Array2::zeros((rows, cols)) }
    }

    /// `ndarray::ArrayBase::nrows`: the number of rows.
    #[verifier::external_body]
    pub(crate) fn row_count(&self) -> (n: usize)
        ensures
            n == score_cells(*self).len(),
    {
        self.cells.nrows()
    }

    /// `ndarray::ArrayBase::ncols`: the number of columns, which every row has.
    #[verifier::external_body]
    pub(crate) fn col_count(&self) -> (n: usize)
        ensures
            forall|i: int| 0 <= i < score_cells(*self).len() ==> (#[trigger] score_cells(*self)[i]).len() == n,
    {
        self.cells.ncols()
    }

    /// Indexing an `ndarray` array by a pair: the cell at row `i`, column
    /// `j`. It panics outside the array, which the precondition rules out.
    #[verifier::external_body]
    pub(crate) fn at(&self, i: usize, j: usize) -> (v: i64)
        requires
            i < score_cells(*self).len(),
            j < score_cells(*self)[i as int].len(),
        ensures
            v == score_cells(*self)[i as int][j as int],
    {
        self.cells[(i, j)]
    }

    /// Assigning through an `ndarray` array's index: the cell at row `i`,
    /// column `j` becomes `v` and no other cell changes.
    #[verifier::external_body]
    pub(crate) fn put(&mut self, i: usize, j: usize, v: i64)
        requires
            i < score_cells(*old(self)).len(),
            j < score_cells(*old(self))[i as int].len(),
        ensures
            score_cells(*final(self)) == with_cell(score_cells(*old(self)), i as int, j as int, v),
    {
        self.cells[(i, j)] = v;
    }

    /// The number of rows.
    pub fn nrows(&self) -> (n: usize)
        ensures
            n == self@.len(),
    {
        self.row_count()
    }

    /// The number of columns.
    pub fn ncols(&self) -> (n: usize)
        ensures
            forall|i: int| 0 <= i < self@.len() ==> (#[trigger] self@[i]).len() == n,
    {
        self.col_count()
    }

    /// The score at row `i`, column `j`, if the matrix has such a cell.
    pub fn get(&self, i: usize, j: usize) -> (v: Option<i64>)
        ensures
            v == if i < self@.len() && j < self@[i as int].len() {
                Some(self@[i as int][j as int] as i64)
            } else {
                None
            },
            v matches Some(x) ==> x == self@[i as int][j as int],
    {
        if i < self.row_count() && j < self.col_count() {
            Some(self.at(i, j))
        } else {
            None
        }
    }
}

impl TracebackMatrix {
    /// `ndarray::Array2::from_elem` with an empty list: an array of the given
    /// shape with no direction in any cell. It panics where the cells cannot
    /// be allocated, which the precondition rules out.
    #[verifier::external_body]
    pub(crate) fn empty(rows: usize, cols: usize) -> (m: TracebackMatrix)
        requires
            rows >= 1,
            cols >= 1,
            rows * cols * CELL_BYTES <= isize::MAX,
        ensures
            traceback_cells(m) == Seq::new(
                rows as nat,
                |i: int| Seq::new(cols as nat, |j: int| Seq::<Direction>::empty()),
            ),
    {
        TracebackMatrix { cells: ndarray::Array2::from_elem((rows, cols), Vec::new()) }
    }

    /// `ndarray::ArrayBase::nrows`: the number of rows.
    #[verifier::external_body]
    pub(crate) fn row_count(&self) -> (n: usize)
        ensures
            n == traceback_cells(*self).len(),
    {
        self.cells.nrows()
    }

    /// `ndarray::ArrayBase::ncols`: the number of columns, which every row has.
    #[verifier::external_body]
    pub(crate) fn col_count(&self) -> (n: usize)
        ensures
            forall|i: int| 0 <= i < traceback_cells(*self).len() ==> (#[trigger] traceback_cells(*self)[i]).len() == n,
    {
        self.cells.ncols()
    }

    /// Indexing an `ndarray` array by a pair: the directions at row `i`,
    /// column `j`. It panics outside the array, which the precondition rules
    /// out.
    #[verifier::external_body]
    pub(crate) fn at(&self, i: usize, j: usize) -> (v: &Vec<Direction>)
        requires
            i < traceback_cells(*self).len(),
            j < traceback_cells(*self)[i as int].len(),
        ensures
            v@ == traceback_cells(*self)[i as int][j as int],
    {
        &self.cells[(i, j)]
    }

    /// Assigning through an `ndarray` array's index: the cell at row `i`,
    /// column `j` becomes `v` and no other cell changes.
    #[verifier::external_body]
    pub(crate) fn put(&mut self, i: usize, j: usize, v: Vec<Direction>)
        requires
            i < traceback_cells(*old(self)).len(),
            j < traceback_cells(*old(self))[i as int].len(),
        ensures
            traceback_cells(*final(self)) == with_cell(traceback_cells(*old(self)), i as int, j as int, v@),
    {
        self.cells[(i, j)] = v;
    }

    /// The number of rows.
    pub fn nrows(&self) -> (n: usize)
        ensures
            n == self@.len(),
    {
        self.row_count()
    }

    /// The number of columns.
    pub fn ncols(&self) -> (n: usize)
        ensures
            forall|i: int| 0 <= i < self@.len() ==> (#[trigger] self@[i]).len() == n,
    {
        self.col_count()
    }

    /// The directions at row `i`, column `j`, if the matrix has such a cell.
    pub fn get(&self, i: usize, j: usize) -> (v: Option<&Vec<Direction>>)
        ensures
            v is Some <==> i < self@.len() && j < self@[i as int].len(),
            v matches Some(d) ==> d@ == self@[i as int][j as int],
    {
        if i < self.row_count() && j < self.col_count() {
            Some(self.at(i, j))
        } else {
            None
        }
    }
}

} // verus!
