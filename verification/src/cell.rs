//! Witness cells.
use vstd::prelude::*;

verus! {

/// A cell in a circuit or witness, uniquely identified by a row number and a column number.
#[derive(Debug, Copy, Clone, PartialEq, Eq, Structural, PartialOrd, Ord)]
pub struct Cell {
    /// The row number.
    pub row: usize,
    /// The column number.
    pub column: usize,
}

/// The order of cells: by row, then by column.
pub open spec fn cell_precedes(a: Cell, b: Cell) -> bool {
    a.row < b.row || (a.row == b.row && a.column < b.column)
}

impl Cell {
    /// Creates a new cell.
    pub fn new(row: usize, column: usize) -> (ret: Self)
        ensures
            ret == (Cell { row, column }),
    {
        Cell { row, column }
    }

    /// Returns the row number of the cell.
    pub fn row(&self) -> (ret: usize)
        ensures
            ret == self.row,
    {
        self.row
    }

    /// Returns the column number of the cell.
    pub fn column(&self) -> (ret: usize)
        ensures
            ret == self.column,
    {
        self.column
    }

    /// Shifts this cell by the specified row and column offsets.
    ///
    /// The resulting cell must not have a negative row or column.
    pub fn shift(self, row_shift: isize, column_shift: isize) -> (ret: Self)
        requires
            self.row <= isize::MAX,
            self.column <= isize::MAX,
            0 <= self.row + row_shift <= isize::MAX,
            0 <= self.column + column_shift <= isize::MAX,
        ensures
            ret.row == self.row + row_shift,
            ret.column == self.column + column_shift,
    {
        let row: isize = self.row as isize + row_shift;
        let column: isize = self.column as isize + column_shift;
        Cell { row: row as usize, column: column as usize }
    }

    /// Shifts this cell by row and column offsets equal to the row and column of `root_cell`.
    ///
    /// This function can be used with the root cell of a view to convert a cell relative to the
    /// view to an absolute one.
    ///
    /// Note that our views never generate relative cells. Both
    /// [`CircuitView::cell`](crate::plonk::CircuitView::cell) and
    /// [`WitnessView::cell`](crate::witness::WitnessView::cell) return absolute cells, so the only
    /// way to work with relative cells is to construct them directly with [`Cell::new`].
    pub fn remap(self, root_cell: Cell) -> (ret: Self)
        requires
            root_cell.row + self.row <= usize::MAX,
            root_cell.column + self.column <= usize::MAX,
        ensures
            ret.row == root_cell.row + self.row,
            ret.column == root_cell.column + self.column,
    {
        Cell { row: root_cell.row + self.row, column: root_cell.column + self.column }
    }
}

/// Compares two cells.
pub fn cell_less(a: Cell, b: Cell) -> (ret: bool)
    ensures
        ret == cell_precedes(a, b),
{
    a.row < b.row || (a.row == b.row && a.column < b.column)
}

/// A value that can be used as a relative row or column offset in
/// [`WitnessView::cell`](crate::witness::WitnessView::cell) and
/// [`CircuitView::cell`](crate::plonk::CircuitView::cell).
///
/// This is implemented for [`isize`] and [`usize`] so that call sites don't need to cast
/// explicitly, plus [`i32`] because that is the type bare integer literals (e.g. `0`) default to
/// when nothing else constrains them.
pub trait CellOffset: Sized {
    /// The signed offset that this value stands for.
    spec fn spec_offset(self) -> int;

    /// Converts this value to a signed offset.
    fn into_offset(self) -> (ret: isize)
        requires
            isize::MIN <= self.spec_offset() <= isize::MAX,
        ensures
            ret == self.spec_offset(),
    ;
}

impl CellOffset for isize {
    open spec fn spec_offset(self) -> int {
        self as int
    }

    fn into_offset(self) -> (ret: isize) {
        self
    }
}

impl CellOffset for usize {
    open spec fn spec_offset(self) -> int {
        self as int
    }

    fn into_offset(self) -> (ret: isize) {
        self as isize
    }
}

impl CellOffset for i32 {
    open spec fn spec_offset(self) -> int {
        self as int
    }

    fn into_offset(self) -> (ret: isize) {
        self as isize
    }
}

} // verus!
