//! Variables of constraint expressions.
use crate::cell::Cell;
use vstd::prelude::*;

verus! {

/// Represents a variable in a [`Constraint`](crate::expr::Constraint) expression.
///
/// The variable is identified by its witness column index and a "rotation", which is a row offset
/// relative to where the constraint applies.
#[derive(Debug, Copy, Clone, PartialEq, Eq, Structural, PartialOrd, Ord)]
pub struct Variable {
    /// Witness column index the variable corresponds to.
    pub column_index: usize,
    /// Row offset relative to where the constraint applies.
    pub rotation: isize,
}

/// The order of variables: by column, then by rotation.
pub open spec fn var_less(a: Variable, b: Variable) -> bool {
    a.column_index < b.column_index || (a.column_index == b.column_index && a.rotation
        < b.rotation)
}

/// `v` with `offset` added to its column index.
pub open spec fn shift_variable(v: Variable, offset: int) -> Variable {
    Variable { column_index: (v.column_index + offset) as usize, rotation: v.rotation }
}

impl Variable {
    /// The variable stands for a cell when the constraint applies at `root_cell`.
    pub open spec fn has_cell(self, root_cell: Cell) -> bool {
        &&& 0 <= root_cell.row + self.rotation <= usize::MAX
        &&& root_cell.column + self.column_index <= usize::MAX
    }

    /// The cell that the variable stands for when the constraint applies at `root_cell`.
    pub open spec fn spec_map_to_cell(self, root_cell: Cell) -> Cell {
        Cell {
            row: (root_cell.row + self.rotation) as usize,
            column: (root_cell.column + self.column_index) as usize,
        }
    }

    /// Creates a new `Variable`.
    pub fn new(column_index: usize, rotation: isize) -> (ret: Self)
        ensures
            ret == (Variable { column_index, rotation }),
    {
        Variable { column_index, rotation }
    }

    /// Witness column index the variable corresponds to.
    pub fn column_index(&self) -> (ret: usize)
        ensures
            ret == self.column_index,
    {
        self.column_index
    }

    /// Row offset relative to where the constraint applies.
    pub fn rotation(&self) -> (ret: isize)
        ensures
            ret == self.rotation,
    {
        self.rotation
    }

    /// Maps the variable to a witness cell given the root cell where the constraint applies.
    ///
    /// For example, if the root cell is at row 12 and column 34 then `var(3, +2)` maps to row 14
    /// and column 37.
    pub fn map_to_cell(&self, root_cell: Cell) -> (ret: Cell)
        requires
            self.has_cell(root_cell),
        ensures
            ret == self.spec_map_to_cell(root_cell),
            ret.row == root_cell.row + self.rotation,
            ret.column == root_cell.column + self.column_index,
    {
        let row: usize = if self.rotation < 0 {
            root_cell.row() - magnitude(self.rotation)
        } else {
            root_cell.row() + magnitude(self.rotation)
        };
        Cell::new(row, root_cell.column() + self.column_index)
    }

    /// Remaps the variable to a different column index, as per
    /// [`Constraint::remap_variables`](crate::expr::Constraint::remap_variables).
    pub fn remap(self, column_offset: isize) -> (ret: Self)
        requires
            self.column_index <= isize::MAX,
            0 <= self.column_index + column_offset <= isize::MAX,
        ensures
            ret == shift_variable(self, column_offset as int),
            ret.column_index == self.column_index + column_offset,
            ret.rotation == self.rotation,
    {
        let column_index: isize = column_offset + (self.column_index as isize);
        Variable { column_index: column_index as usize, rotation: self.rotation }
    }
}

/// The absolute value of a signed integer.
pub fn magnitude(value: isize) -> (ret: usize)
    ensures
        ret == if value < 0 {
            -value
        } else {
            value as int
        },
{
    if value == isize::MIN {
        (isize::MAX as usize) + 1
    } else if value < 0 {
        (-value) as usize
    } else {
        value as usize
    }
}

/// Compares two variables.
pub fn variable_less(a: Variable, b: Variable) -> (ret: bool)
    ensures
        ret == var_less(a, b),
        ret == (a.column_index < b.column_index || (a.column_index == b.column_index && a.rotation
            < b.rotation)),
{
    a.column_index < b.column_index || (a.column_index == b.column_index && a.rotation < b.rotation)
}

} // verus!
