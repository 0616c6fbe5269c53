//! Witness tables and views of them.
use crate::argument::columns_interpolate;
use crate::cell::{Cell, CellOffset};
use crate::field::{zero, Field, Scalar};
use crate::model::interpolates;
use crate::partition::{Ordered, Partition};
use crate::plonk::encode_column;
use crate::poly::{coefficient_lists, max_domain_size, Polynomial};
use crate::utils::{blinding_rows, is_next_power_of_two, is_power_of_two, padded_circuit_size};
use vstd::prelude::*;

verus! {

/// A cell of the witness, or a value that is not in the witness.
#[derive(Debug, Copy, Clone, PartialEq, Eq, PartialOrd)]
pub enum CellOrUnconstrained {
    Cell(Cell),
    Unconstrained(Scalar),
}

impl From<Cell> for CellOrUnconstrained {
    fn from(cell: Cell) -> (ret: Self) {
        CellOrUnconstrained::Cell(cell)
    }
}

impl vstd::std_specs::convert::FromSpecImpl<Cell> for CellOrUnconstrained {
    open spec fn obeys_from_spec() -> bool {
        true
    }

    open spec fn from_spec(v: Cell) -> Self {
        CellOrUnconstrained::Cell(v)
    }
}

impl From<Scalar> for CellOrUnconstrained {
    fn from(value: Scalar) -> (ret: Self) {
        CellOrUnconstrained::Unconstrained(value)
    }
}

impl vstd::std_specs::convert::FromSpecImpl<Scalar> for CellOrUnconstrained {
    open spec fn obeys_from_spec() -> bool {
        true
    }

    open spec fn from_spec(v: Scalar) -> Self {
        CellOrUnconstrained::Unconstrained(v)
    }
}

impl Ordered for Cell {
    open spec fn precedes(self, other: Self) -> bool {
        crate::cell::cell_precedes(self, other)
    }

    proof fn lemma_irreflexive(self) {
    }

    proof fn lemma_transitive(self, b: Self, c: Self) {
    }

    proof fn lemma_total(self, other: Self) {
    }

    fn less(self, other: Self) -> (ret: bool) {
        crate::cell::cell_less(self, other)
    }
}

/// Keeps the cells of a circuit organized in partitions.
///
/// A partition is a set of interconnected witness cells that will be constrained to have the same
/// value. We sometimes use the term "node" to refer to a partition because in circuit theory a node
/// is a set of interconnected wires, equivalent to one of our partitions.
///
/// This data structure allows determining the subsets of the sigma polynomials to permute.
pub type Partitioner = Partition<Cell>;

/// The residues of a column.
pub open spec fn residues(column: Seq<Scalar>) -> Seq<int> {
    Seq::new(column.len(), |i: int| column[i].value())
}

/// The residues of a list of columns.
pub open spec fn column_residues(columns: Seq<Vec<Scalar>>) -> Seq<Seq<int>> {
    Seq::new(columns.len(), |i: int| residues(columns[i]@))
}

/// A witness table.
#[derive(Debug)]
pub struct Witness {
    /// The number of witness rows *not* including the blinding rows.
    num_rows: usize,
    /// Number of blinding rows used in the circuit.
    ///
    /// This is calculated by [`padded_circuit_size`] and depends on how many different variable
    /// rotations were used across all constraints.
    num_blinding_rows: usize,
    /// Padded circuit size, including the blinding rows and rounded up to the next power of 2.
    degree_bound: usize,
    /// Witness table cells, indexed column-first.
    ///
    /// The column-first indexing allows quickly interpolating polynomials for the columns.
    data: Vec<Vec<Scalar>>,
}

impl Witness {
    /// The number of witness rows *not* including the blinding rows.
    pub closed spec fn spec_num_rows(self) -> int {
        self.num_rows as int
    }

    /// The number of blinding rows.
    pub closed spec fn spec_num_blinding_rows(self) -> int {
        self.num_blinding_rows as int
    }

    /// The padded circuit size.
    pub closed spec fn spec_degree_bound(self) -> int {
        self.degree_bound as int
    }

    /// The residues in the table, indexed column-first.
    pub closed spec fn table(self) -> Seq<Seq<int>> {
        column_residues(self.data@)
    }

    /// The table holds residues.
    pub proof fn lemma_residues(self, j: int, i: int)
        requires
            0 <= j < self.table().len(),
            0 <= i < self.table()[j].len(),
        ensures
            0 <= self.table()[j][i] < Scalar::modulus(),
    {
        self.data@[j]@[i].lemma_value_bounds();
    }

    /// The table has the given cell.
    pub open spec fn has(self, cell: Cell) -> bool {
        cell.column < self.table().len() && cell.row < self.spec_degree_bound()
    }

    /// The residue in a cell.
    pub open spec fn at(self, cell: Cell) -> int {
        self.table()[cell.column as int][cell.row as int]
    }

    /// All columns have as many cells as the padded circuit has rows.
    pub open spec fn is_rectangular(self) -> bool {
        forall|j: int|
            0 <= j < self.table().len() ==> (#[trigger] self.table()[j]).len()
                == self.spec_degree_bound()
    }

    /// The two witnesses have the same dimensions.
    pub open spec fn same_shape(self, other: Self) -> bool {
        &&& self.spec_num_rows() == other.spec_num_rows()
        &&& self.spec_num_blinding_rows() == other.spec_num_blinding_rows()
        &&& self.spec_degree_bound() == other.spec_degree_bound()
        &&& self.table().len() == other.table().len()
    }

    /// The two witnesses have the same dimensions and, except in the given cell, the same contents.
    pub open spec fn same_but(self, other: Self, cell: Cell) -> bool {
        &&& self.same_shape(other)
        &&& forall|c: Cell| #[trigger] other.has(c) && c != cell ==> self.at(c) == other.at(c)
    }

    /// All columns have as many cells as the padded circuit has rows, which is a power of two and
    /// leaves room for the blinding rows.
    #[verifier::type_invariant]
    pub closed spec fn wf(self) -> bool {
        &&& forall|i: int|
            0 <= i < self.data@.len() ==> (#[trigger] self.data@[i])@.len() == self.degree_bound
        &&& self.num_rows + self.num_blinding_rows <= self.degree_bound
        &&& is_power_of_two(self.degree_bound as int)
    }

    /// Makes a witness filled with zeros.
    pub fn new(num_rows: usize, num_columns: usize, rotations: &Vec<isize>) -> (ret: Self)
        requires
            num_rows + blinding_rows::<Scalar>(rotations@) <= usize::MAX / 2 + 1,
        ensures
            ret.spec_num_rows() == num_rows,
            ret.spec_num_blinding_rows() == blinding_rows::<Scalar>(rotations@),
            is_next_power_of_two(
                ret.spec_degree_bound(),
                num_rows + blinding_rows::<Scalar>(rotations@),
            ),
            ret.table().len() == num_columns,
            forall|c: Cell| #[trigger] ret.has(c) ==> ret.at(c) == 0,
    {
        let (degree_bound, num_blinding_rows) = padded_circuit_size::<Scalar>(num_rows, rotations);
        let mut data: Vec<Vec<Scalar>> = Vec::new();
        let mut i: usize = 0;
        while i < num_columns
            invariant
                i <= num_columns,
                data@.len() == i,
                forall|k: int|
                    0 <= k < i ==> (#[trigger] data@[k])@.len() == degree_bound && forall|j: int|
                        0 <= j < degree_bound ==> (#[trigger] data@[k]@[j]).value() == 0,
            decreases num_columns - i,
        {
            let mut column: Vec<Scalar> = Vec::new();
            let mut j: usize = 0;
            while j < degree_bound
                invariant
                    j <= degree_bound,
                    column@.len() == j,
                    forall|k: int| 0 <= k < j ==> (#[trigger] column@[k]).value() == 0,
                decreases degree_bound - j,
            {
                column.push(zero::<Scalar>());
                j += 1;
            }
            data.push(column);
            i += 1;
        }
        Witness { num_rows, num_blinding_rows, degree_bound, data }
    }

    /// Returns the number of witness rows *not* including the blinding rows.
    pub fn num_rows(&self) -> (ret: usize)
        ensures
            ret == self.spec_num_rows(),
    {
        self.num_rows
    }

    /// Returns the number of blinding rows.
    pub fn num_blinding_rows(&self) -> (ret: usize)
        ensures
            ret == self.spec_num_blinding_rows(),
    {
        self.num_blinding_rows
    }

    /// Returns the padded circuit size, including the blinding rows and rounded up to the next
    /// power of 2.
    pub fn degree_bound(&self) -> (ret: usize)
        ensures
            ret == self.spec_degree_bound(),
            self.is_rectangular(),
    {
        proof {
            use_type_invariant(self);
        }
        self.degree_bound
    }

    /// Returns the number of witness columns.
    pub fn num_columns(&self) -> (ret: usize)
        ensures
            ret == self.table().len(),
    {
        self.data.len()
    }

    fn get_internal(&self, cell: Cell) -> (ret: Scalar)
        requires
            self.has(cell),
        ensures
            ret.value() == self.at(cell),
    {
        proof {
            use_type_invariant(self);
        }
        self.data[cell.column()][cell.row()]
    }

    fn set_internal(&mut self, cell: Cell, value: Scalar)
        requires
            old(self).has(cell),
        ensures
            final(self).same_but(*old(self), cell),
            final(self).at(cell) == value.value(),
    {
        proof {
            use_type_invariant(&*self);
        }
        let ghost before = *self;
        let mut data: Vec<Vec<Scalar>> = Vec::new();
        core::mem::swap(&mut self.data, &mut data);
        data[cell.column()][cell.row()] = value;
        self.data = data;
        proof {
            assert forall|c: Cell| #[trigger] before.has(c) && c != cell implies self.at(c)
                == before.at(c) by {
                if c.column != cell.column {
                    assert(self.data@[c.column as int] == before.data@[c.column as int]);
                }
            }
        }
    }

    fn copy_internal(&mut self, src_cell: Cell, dst_cell: Cell) -> (ret: Scalar)
        requires
            old(self).has(src_cell),
            old(self).has(dst_cell),
        ensures
            ret.value() == old(self).at(src_cell),
            final(self).same_but(*old(self), dst_cell),
            final(self).at(dst_cell) == old(self).at(src_cell),
    {
        let value = self.get_internal(src_cell);
        self.set_internal(dst_cell, value);
        value
    }
}

/// `values` has a list for every column, and every list has a value for every blinding row.
pub open spec fn covers_blinding(witness: Witness, values: Seq<Seq<int>>) -> bool {
    &&& values.len() == witness.table().len()
    &&& forall|i: int|
        0 <= i < values.len() ==> (#[trigger] values[i]).len() == witness.spec_num_blinding_rows()
}

/// All values were drawn.
pub open spec fn all_drawn(values: Seq<Seq<int>>) -> bool {
    forall|i: int, j: int|
        0 <= i < values.len() && 0 <= j < values[i].len() ==> Scalar::drawn(
            #[trigger] values[i][j],
        )
}

/// `after` is `before` with the given values in the blinding rows, column by column.
pub open spec fn is_filled(after: Witness, before: Witness, values: Seq<Seq<int>>) -> bool {
    &&& after.same_shape(before)
    &&& forall|c: Cell| #[trigger]
        before.has(c) ==> after.at(c) == if before.is_blinding(c) {
            values[c.column as int][c.row - before.spec_num_rows()]
        } else {
            before.at(c)
        }
}

impl Witness {
    /// Fills in the blinding rows of the witness with the given values, which are indexed
    /// column-first.
    ///
    /// The affected rows are the last [`Self::num_blinding_rows`] before the power-of-two padding.
    pub fn fill_blinding_rows(&mut self, values: &Vec<Vec<Scalar>>)
        requires
            covers_blinding(*old(self), column_residues(values@)),
        ensures
            is_filled(*final(self), *old(self), column_residues(values@)),
    {
        let ghost before = *self;
        let ghost list = column_residues(values@);
        let ghost rows = before.spec_num_rows();
        let num_columns: usize = self.num_columns();
        proof {
            use_type_invariant(&*self);
        }
        let mut i: usize = 0;
        while i < num_columns
            invariant
                i <= num_columns,
                num_columns == before.table().len(),
                rows == before.spec_num_rows(),
                list == column_residues(values@),
                covers_blinding(before, list),
                self.same_shape(before),
                rows + before.spec_num_blinding_rows() <= before.spec_degree_bound(),
                before.spec_degree_bound() <= usize::MAX,
                forall|c: Cell| #[trigger]
                    before.has(c) ==> self.at(c) == if before.is_blinding(c) && c.column < i {
                        list[c.column as int][c.row - rows]
                    } else {
                        before.at(c)
                    },
            decreases num_columns - i,
        {
            let column = &values[i];
            proof {
                assert(list[i as int] == residues(column@));
                assert(list[i as int].len() == before.spec_num_blinding_rows());
            }
            let mut j: usize = 0;
            while j < self.num_blinding_rows
                invariant
                    i < num_columns,
                    j <= self.num_blinding_rows,
                    num_columns == before.table().len(),
                    rows == before.spec_num_rows(),
                    list[i as int] == residues(column@),
                    column@.len() == before.spec_num_blinding_rows(),
                    self.same_shape(before),
                    rows + before.spec_num_blinding_rows() <= before.spec_degree_bound(),
                    before.spec_degree_bound() <= usize::MAX,
                    forall|c: Cell| #[trigger]
                        before.has(c) ==> self.at(c) == if before.is_blinding(c) && (c.column < i || (
                        c.column == i && c.row < rows + j)) {
                            list[c.column as int][c.row - rows]
                        } else {
                            before.at(c)
                        },
                decreases self.num_blinding_rows - j,
            {
                let cell = Cell::new(self.num_rows + j, i);
                let ghost sofar = *self;
                self.set_internal(cell, column[j]);
                proof {
                    assert(before.is_blinding(cell));
                    assert(list[i as int][j as int] == column@[j as int].value());
                    assert forall|c: Cell| #[trigger] before.has(c) implies self.at(c)
                        == if before.is_blinding(c) && (c.column < i || (c.column == i && c.row
                        < rows + j + 1)) {
                        list[c.column as int][c.row - rows]
                    } else {
                        before.at(c)
                    } by {
                        if c != cell {
                            assert(sofar.has(c));
                        }
                    }
                }
                j += 1;
            }
            i += 1;
        }
    }

    /// Fills in the blinding rows of the witness with random values.
    ///
    /// The affected rows are the last [`Self::num_blinding_rows`] before the power-of-two padding.
    /// The values are drawn with [`Scalar::random`], and [`Self::fill_blinding_rows`] writes them.
    pub fn blind(&mut self)
        ensures
            exists|values: Seq<Seq<int>>| #[trigger]
                covers_blinding(*old(self), values) && all_drawn(values) && is_filled(
                    *final(self),
                    *old(self),
                    values,
                ),
            old(self).is_rectangular(),
            final(self).is_rectangular(),
    {
        let ghost before = *self;
        proof {
            use_type_invariant(&*self);
        }
        let num_columns: usize = self.num_columns();
        let num_blinding_rows: usize = self.num_blinding_rows();
        let mut values: Vec<Vec<Scalar>> = Vec::new();
        let mut i: usize = 0;
        while i < num_columns
            invariant
                i <= num_columns,
                values@.len() == i,
                forall|k: int| 0 <= k < i ==> (#[trigger] values@[k])@.len() == num_blinding_rows,
                forall|k: int, l: int|
                    0 <= k < i && 0 <= l < num_blinding_rows ==> Scalar::drawn(
                        (#[trigger] values@[k]@[l]).value(),
                    ),
            decreases num_columns - i,
        {
            let mut column: Vec<Scalar> = Vec::new();
            let mut j: usize = 0;
            while j < num_blinding_rows
                invariant
                    j <= num_blinding_rows,
                    column@.len() == j,
                    forall|l: int| 0 <= l < j ==> Scalar::drawn((#[trigger] column@[l]).value()),
                decreases num_blinding_rows - j,
            {
                column.push(Scalar::random());
                j += 1;
            }
            values.push(column);
            i += 1;
        }
        let ghost list = column_residues(values@);
        proof {
            assert forall|k: int| 0 <= k < list.len() implies (#[trigger] list[k]).len()
                == before.spec_num_blinding_rows() by {
                assert(list[k] == residues(values@[k]@));
            }
            assert(covers_blinding(before, list));
            assert forall|k: int, l: int|
                0 <= k < list.len() && 0 <= l < list[k].len() implies Scalar::drawn(
                #[trigger] list[k][l],
            ) by {
                assert(list[k][l] == values@[k]@[l].value());
            }
        }
        self.fill_blinding_rows(&values);
        proof {
            assert(is_filled(*self, before, list));
            use_type_invariant(&*self);
        }
    }

    /// Interpolates the columns.
    pub(crate) fn encode(&self) -> (ret: Vec<Polynomial>)
        requires
            self.spec_degree_bound() <= max_domain_size(),
        ensures
            columns_interpolate(coefficient_lists(ret@), self.table()),
            forall|j: int|
                0 <= j < self.table().len() ==> (#[trigger] self.table()[j]).len()
                    == self.spec_degree_bound(),
    {
        proof {
            use_type_invariant(self);
        }
        let mut ret: Vec<Polynomial> = Vec::new();
        let mut j: usize = 0;
        while j < self.num_columns()
            invariant
                j <= self.table().len(),
                self.spec_degree_bound() <= max_domain_size(),
                ret@.len() == j,
                forall|k: int|
                    0 <= k < j ==> interpolates((#[trigger] ret@[k])@, self.table()[k]),
            decreases self.table().len() - j,
        {
            ret.push(encode_column(self.column(j)));
            j += 1;
        }
        proof {
            let lists = coefficient_lists(ret@);
            assert forall|k: int| 0 <= k < lists.len() implies interpolates(
                #[trigger] lists[k],
                self.table()[k],
            ) by {
                assert(lists[k] == ret@[k]@);
            }
        }
        ret
    }

    /// The cell is in a blinding row.
    pub open spec fn is_blinding(self, cell: Cell) -> bool {
        self.spec_num_rows() <= cell.row < self.spec_num_rows() + self.spec_num_blinding_rows()
    }

    /// Returns the cells of a column.
    pub fn column(&self, index: usize) -> (ret: &Vec<Scalar>)
        requires
            index < self.table().len(),
        ensures
            residues(ret@) == self.table()[index as int],
            ret@.len() == self.spec_degree_bound(),
            is_power_of_two(ret@.len() as int),
    {
        proof {
            use_type_invariant(self);
        }
        &self.data[index]
    }
}

/// The extent of a child view: what is asked for, or else all that is left of the parent view.
pub open spec fn child_extent(parent: int, offset: int, extent: Option<usize>) -> int {
    match extent {
        Some(extent) => extent as int,
        None => parent - offset,
    }
}

/// The place of a view in the witness.
pub ghost struct Place {
    /// The first row.
    pub row: int,
    /// The first column.
    pub column: int,
    /// The number of columns.
    pub width: int,
    /// The number of rows.
    pub height: int,
}

/// A child view with the given offsets and extents fits into a parent view.
pub open spec fn child_fits(
    parent: Place,
    row_offset: usize,
    column_offset: usize,
    width: Option<usize>,
    height: Option<usize>,
) -> bool {
    &&& 0 <= child_extent(parent.width, column_offset as int, width)
    &&& column_offset + child_extent(parent.width, column_offset as int, width) <= parent.width
    &&& 0 <= child_extent(parent.height, row_offset as int, height)
    &&& row_offset + child_extent(parent.height, row_offset as int, height) <= parent.height
    &&& parent.row + row_offset <= usize::MAX
    &&& parent.column + column_offset <= usize::MAX
}

/// The place of a child view with the given offsets and extents.
pub open spec fn child_place(
    parent: Place,
    row_offset: usize,
    column_offset: usize,
    width: Option<usize>,
    height: Option<usize>,
) -> Place {
    Place {
        row: parent.row + row_offset,
        column: parent.column + column_offset,
        width: child_extent(parent.width, column_offset as int, width),
        height: child_extent(parent.height, row_offset as int, height),
    }
}

/// A view at the given place is inside of the table.
pub open spec fn place_fits(place: Place, witness: Witness) -> bool {
    &&& 0 <= place.row
    &&& 0 <= place.column
    &&& 0 <= place.width
    &&& 0 <= place.height
    &&& place.row + place.height <= witness.spec_degree_bound()
    &&& place.column + place.width <= witness.table().len()
}

/// A view at the given place contains the cell.
pub open spec fn place_contains(place: Place, cell: Cell) -> bool {
    &&& place.row <= cell.row < place.row + place.height
    &&& place.column <= cell.column < place.column + place.width
}

/// Every cell that a view contains is a cell of its witness, if the view is inside of the table. The
/// view of a whole witness is, and so are the children of views that are.
pub proof fn law_views_contain_cells_of_witness(
    witness: Witness,
    place: Place,
    row_offset: usize,
    column_offset: usize,
    width: Option<usize>,
    height: Option<usize>,
    cell: Cell,
)
    requires
        place_fits(place, witness),
    ensures
        place_contains(place, cell) ==> witness.has(cell),
        child_fits(place, row_offset, column_offset, width, height) ==> place_fits(
            child_place(place, row_offset, column_offset, width, height),
            witness,
        ),
        witness.spec_degree_bound() >= 0 ==> place_fits(witness.place(), witness),
{
}

/// The section is a view of the given witness at the given place.
pub open spec fn is_section(section: &WitnessSection, witness: Witness, place: Place) -> bool {
    &&& *section.witness == witness
    &&& section.spec_place() == place
}

/// A rectangular part of a witness, or all of it.
pub trait WitnessView: Sized {
    /// The witness.
    spec fn spec_witness(&self) -> Witness;

    /// The place of the view in the witness.
    spec fn place(&self) -> Place;

    /// Returns a reference to the [`Witness`].
    fn witness(&self) -> (ret: &Witness)
        ensures
            *ret == self.spec_witness(),
    ;

    /// Returns a mutable reference to the [`Witness`].
    fn witness_mut(&mut self) -> (ret: &mut Witness)
        ensures
            *ret == old(self).spec_witness(),
            final(self).spec_witness() == *final(ret),
            final(ret).same_shape(*ret) ==> final(self).place() == old(self).place(),
    ;

    /// Returns the number of columns included in the view.
    ///
    /// For the root view this is the same as [`Witness::num_columns`].
    fn width(&self) -> (ret: usize)
        ensures
            ret == self.place().width,
    ;

    /// Returns the number of rows included in the view.
    ///
    /// For the root view this is the same as [`Witness::degree_bound`].
    fn height(&self) -> (ret: usize)
        ensures
            ret == self.place().height,
    ;

    /// Returns the row offset of the view (0 for the [`Witness`] itself).
    ///
    /// This is always an absolute value even for transitive sub-views. It is not relative to
    /// the parent view.
    fn row_offset(&self) -> (ret: usize)
        ensures
            ret == self.place().row,
    ;

    /// Returns the column offset of the view (0 for the [`Witness`] itself).
    ///
    /// This is always an absolute value even for transitive sub-views. It is not relative to
    /// the parent view.
    fn column_offset(&self) -> (ret: usize)
        ensures
            ret == self.place().column,
    ;

    /// Returns [`Self::row_offset()`] and [`Self::column_offset()`] as a [`Cell`].
    fn root_cell(&self) -> (ret: Cell)
        ensures
            ret.row == self.place().row,
            ret.column == self.place().column,
    {
        Cell::new(self.row_offset(), self.column_offset())
    }

    /// Creates a [`Cell`] relative to this view.
    ///
    /// For example, if this view is at row offset 3 and column offset 5, then `cell(6, 2)` will
    /// return the cell at row 9 and column 7.
    fn cell<R: CellOffset, C: CellOffset>(&self, row_offset: R, column_offset: C) -> (ret: Cell)
        requires
            self.place().row <= isize::MAX,
            self.place().column <= isize::MAX,
            isize::MIN <= row_offset.spec_offset() <= isize::MAX,
            isize::MIN <= column_offset.spec_offset() <= isize::MAX,
            0 <= self.place().row + row_offset.spec_offset() <= isize::MAX,
            0 <= self.place().column + column_offset.spec_offset() <= isize::MAX,
        ensures
            ret.row == self.place().row + row_offset.spec_offset(),
            ret.column == self.place().column + column_offset.spec_offset(),
    {
        let row: isize = self.row_offset() as isize + row_offset.into_offset();
        let column: isize = self.column_offset() as isize + column_offset.into_offset();
        Cell::new(row as usize, column as usize)
    }

    /// Indicates whether the specified `cell` is contained in this view.
    fn contains_cell(&self, cell: Cell) -> (ret: bool)
        ensures
            ret == place_contains(self.place(), cell),
            ret == (self.place().row <= cell.row < self.place().row + self.place().height
                && self.place().column <= cell.column < self.place().column + self.place().width),
    {
        let row_offset: usize = self.row_offset();
        let column_offset: usize = self.column_offset();
        let cell_row: usize = cell.row();
        let cell_column: usize = cell.column();
        cell_row >= row_offset && cell_column >= column_offset && cell_column - column_offset
            < self.width() && cell_row - row_offset < self.height()
    }

    /// Reads a witness cell.
    fn get_at(&self, cell: Cell) -> (ret: Scalar)
        requires
            self.spec_witness().has(cell),
        ensures
            ret.value() == self.spec_witness().at(cell),
    {
        self.witness().get_internal(cell)
    }

    /// Reads a witness cell or unconstrained value.
    fn get(&self, cell_or_unconstrained: CellOrUnconstrained) -> (ret: Scalar)
        requires
            cell_or_unconstrained matches CellOrUnconstrained::Cell(c) ==> self.spec_witness().has(
                c,
            ),
        ensures
            match cell_or_unconstrained {
                CellOrUnconstrained::Cell(cell) => ret.value() == self.spec_witness().at(cell),
                CellOrUnconstrained::Unconstrained(value) => ret == value,
            },
    {
        match cell_or_unconstrained {
            CellOrUnconstrained::Cell(cell) => self.get_at(cell),
            CellOrUnconstrained::Unconstrained(value) => value,
        }
    }

    /// Updates a witness cell.
    fn set(&mut self, cell: Cell, value: Scalar)
        requires
            old(self).spec_witness().has(cell),
        ensures
            final(self).place() == old(self).place(),
            final(self).spec_witness().same_but(old(self).spec_witness(), cell),
            final(self).spec_witness().at(cell) == value.value(),
    {
        self.witness_mut().set_internal(cell, value);
    }

    /// Copies a witness cell to another and returns the copied value.
    fn copy(&mut self, src_cell: CellOrUnconstrained, dst_cell: Cell) -> (ret: Scalar)
        requires
            src_cell matches CellOrUnconstrained::Cell(c) ==> old(self).spec_witness().has(c),
            old(self).spec_witness().has(dst_cell),
        ensures
            match src_cell {
                CellOrUnconstrained::Cell(cell) => ret.value() == old(self).spec_witness().at(cell),
                CellOrUnconstrained::Unconstrained(value) => ret == value,
            },
            final(self).place() == old(self).place(),
            final(self).spec_witness().same_but(old(self).spec_witness(), dst_cell),
            final(self).spec_witness().at(dst_cell) == ret.value(),
    {
        match src_cell {
            CellOrUnconstrained::Cell(src_cell) => {
                self.witness_mut().copy_internal(src_cell, dst_cell)
            },
            CellOrUnconstrained::Unconstrained(value) => {
                self.witness_mut().set_internal(dst_cell, value);
                value
            },
        }
    }

    /// Spawns a child `WitnessView` at the given coordinates.
    ///
    /// If `width` and/or `height` are specified they must not overflow the parent view. If they are
    /// not specified the child view will automatically extend to the full width and/or height of
    /// the parent view.
    ///
    /// The child view must not overflow the parent view.
    fn sub(
        &mut self,
        row_offset: usize,
        column_offset: usize,
        width: Option<usize>,
        height: Option<usize>,
    ) -> (ret: WitnessSection<'_>)
        requires
            child_fits(old(self).place(), row_offset, column_offset, width, height),
        ensures
            is_section(
                &ret,
                old(self).spec_witness(),
                child_place(old(self).place(), row_offset, column_offset, width, height),
            ),
            *ret.witness == old(self).spec_witness(),
            ret.row_offset == old(self).place().row + row_offset,
            ret.column_offset == old(self).place().column + column_offset,
            width matches Some(width) ==> ret.width == width,
            width is None ==> column_offset + ret.width == old(self).place().width,
            height matches Some(height) ==> ret.height == height,
            height is None ==> row_offset + ret.height == old(self).place().height,
            final(self).spec_witness() == *final(ret.witness),
            final(ret.witness).same_shape(*ret.witness) ==> final(self).place() == old(self).place(),
    {
        let parent_width: usize = self.width();
        let parent_height: usize = self.height();
        let width: usize = match width {
            Some(width) => width,
            None => parent_width - column_offset,
        };
        let height: usize = match height {
            Some(height) => height,
            None => parent_height - row_offset,
        };
        let row_offset: usize = self.row_offset() + row_offset;
        let column_offset: usize = self.column_offset() + column_offset;
        WitnessSection::new(self.witness_mut(), row_offset, column_offset, width, height)
    }

    /// Spawns a child `WitnessView` at the given coordinates and runs the provided `callback` on
    /// it.
    ///
    /// `sub_fn` returns `self`, not the child view. The child view is only valid for the duration
    /// of the callback, while `self` is returned to make `sub_fn` chainable.
    ///
    /// See [`Self::sub`] for details about how the `width` and `height` parameters are treated.
    fn sub_fn<C: FnOnce(&mut WitnessSection)>(
        &mut self,
        row_offset: usize,
        column_offset: usize,
        width: Option<usize>,
        height: Option<usize>,
        callback: C,
    ) -> (ret: &mut Self)
        requires
            child_fits(old(self).place(), row_offset, column_offset, width, height),
            forall|view: &mut WitnessSection|
                is_section(
                    view,
                    old(self).spec_witness(),
                    child_place(old(self).place(), row_offset, column_offset, width, height),
                )
                    ==> #[trigger] call_requires(callback, (view,)),
        ensures
            exists|view: &mut WitnessSection|
                is_section(
                    view,
                    old(self).spec_witness(),
                    child_place(old(self).place(), row_offset, column_offset, width, height),
                )
                    && #[trigger] call_ensures(callback, (view,), ()) && ret.spec_witness()
                    == *final(view.witness) && *final(final(view).witness) == *final(view).witness,
            ret.spec_witness().same_shape(old(self).spec_witness()) ==> ret.place() == old(
                self,
            ).place(),
            *final(self) == *final(ret),
    {
        let mut section = self.sub(row_offset, column_offset, width, height);
        let view = &mut section;
        callback(view);
        self
    }

    /// Like [`Self::sub_fn`] but the callback may return an error.
    fn sub_fn_or<E, C: FnOnce(&mut WitnessSection) -> Result<(), E>>(
        &mut self,
        row_offset: usize,
        column_offset: usize,
        width: Option<usize>,
        height: Option<usize>,
        callback: C,
    ) -> (ret: Result<&mut Self, E>)
        requires
            child_fits(old(self).place(), row_offset, column_offset, width, height),
            forall|view: &mut WitnessSection|
                is_section(
                    view,
                    old(self).spec_witness(),
                    child_place(old(self).place(), row_offset, column_offset, width, height),
                )
                    ==> #[trigger] call_requires(callback, (view,)),
        ensures
            ret matches Ok(this) ==> exists|view: &mut WitnessSection, result: Result<(), E>|
                is_section(
                    view,
                    old(self).spec_witness(),
                    child_place(old(self).place(), row_offset, column_offset, width, height),
                ) && #[trigger] call_ensures(callback, (view,), result) && result is Ok && this.spec_witness()
                    == *final(view.witness) && *final(final(view).witness) == *final(view).witness,
            ret matches Ok(this) ==> *final(self) == *final(this) && (
            this.spec_witness().same_shape(old(self).spec_witness()) ==> this.place() == old(
                self,
            ).place()),
            ret is Err && final(self).spec_witness().same_shape(old(self).spec_witness())
                ==> final(self).place() == old(self).place(),
            ret matches Err(error) ==> exists|view: &mut WitnessSection, result: Result<(), E>|
                is_section(
                    view,
                    old(self).spec_witness(),
                    child_place(old(self).place(), row_offset, column_offset, width, height),
                ) && #[trigger] call_ensures(callback, (view,), result) && result
                    == Err::<(), E>(error) && final(self).spec_witness() == *final(view.witness) && *final(final(view).witness)
                    == *final(view).witness,
    {
        let mut section = self.sub(row_offset, column_offset, width, height);
        let view = &mut section;
        match callback(view) {
            Err(error) => {
                return Err(error);
            },
            Ok(_) => {},
        }
        Ok(self)
    }
}

/// A rectangular part of a witness.
#[derive(Debug)]
pub struct WitnessSection<'a> {
    /// Reference to the [`Witness`].
    pub witness: &'a mut Witness,
    /// Row offset of the section.
    pub row_offset: usize,
    /// Column offset of the section.
    pub column_offset: usize,
    /// Number of columns of the section.
    pub width: usize,
    /// Number of rows of the section.
    pub height: usize,
}

impl<'a> WitnessSection<'a> {
    /// The place of the section in the witness.
    pub open spec fn spec_place(&self) -> Place {
        Place {
            row: self.row_offset as int,
            column: self.column_offset as int,
            width: self.width as int,
            height: self.height as int,
        }
    }

    fn new(
        witness: &'a mut Witness,
        row_offset: usize,
        column_offset: usize,
        width: usize,
        height: usize,
    ) -> (ret: Self)
        ensures
            *ret.witness == *old(witness),
            *final(ret.witness) == *final(witness),
            ret.row_offset == row_offset,
            ret.column_offset == column_offset,
            ret.width == width,
            ret.height == height,
    {
        WitnessSection { witness, row_offset, column_offset, width, height }
    }
}

impl WitnessView for Witness {
    open spec fn spec_witness(&self) -> Witness {
        *self
    }

    open spec fn place(&self) -> Place {
        Place {
            row: 0,
            column: 0,
            width: self.table().len() as int,
            height: self.spec_degree_bound(),
        }
    }

    fn witness(&self) -> (ret: &Witness) {
        self
    }

    fn witness_mut(&mut self) -> (ret: &mut Witness) {
        self
    }

    fn width(&self) -> (ret: usize) {
        self.num_columns()
    }

    fn height(&self) -> (ret: usize) {
        self.degree_bound()
    }

    fn row_offset(&self) -> (ret: usize) {
        0
    }

    fn column_offset(&self) -> (ret: usize) {
        0
    }
}

impl<'a> WitnessView for WitnessSection<'a> {
    open spec fn spec_witness(&self) -> Witness {
        *self.witness
    }

    open spec fn place(&self) -> Place {
        self.spec_place()
    }

    fn witness(&self) -> (ret: &Witness) {
        &*self.witness
    }

    fn witness_mut(&mut self) -> (ret: &mut Witness)
        ensures
            *final(final(self).witness) == *final(old(self).witness),
            final(self).place() == old(self).place(),
    {
        &mut *self.witness
    }

    fn width(&self) -> (ret: usize) {
        self.width
    }

    fn height(&self) -> (ret: usize) {
        self.height
    }

    fn row_offset(&self) -> (ret: usize) {
        self.row_offset
    }

    fn column_offset(&self) -> (ret: usize) {
        self.column_offset
    }

    fn set(&mut self, cell: Cell, value: Scalar)
        ensures
            *final(final(self).witness) == *final(old(self).witness),
    {
        self.witness_mut().set_internal(cell, value);
    }

    fn copy(&mut self, src_cell: CellOrUnconstrained, dst_cell: Cell) -> (ret: Scalar)
        ensures
            *final(final(self).witness) == *final(old(self).witness),
    {
        match src_cell {
            CellOrUnconstrained::Cell(src_cell) => {
                self.witness_mut().copy_internal(src_cell, dst_cell)
            },
            CellOrUnconstrained::Unconstrained(value) => {
                self.witness_mut().set_internal(dst_cell, value);
                value
            },
        }
    }
}

/// Generates child views that stand side by side.
#[derive(Debug)]
pub struct WitnessViewGenerator<'a> {
    /// Reference to the parent [`Witness`].
    pub witness: &'a mut Witness,
    /// Row offset where all sub-sections are rooted.
    pub row_offset: usize,
    /// Width of each sub-section.
    pub width: usize,
    /// Height of each sub-section.
    pub height: usize,
    /// Number of sub-sections to generate.
    pub count: usize,
}

impl<'a> WitnessViewGenerator<'a> {
    /// Returns the sub-section with the given index.
    pub fn get<'b>(&'b mut self, index: usize) -> (ret: WitnessSection<'b>)
        requires
            index < old(self).count,
            old(self).width * index <= usize::MAX,
        ensures
            *ret.witness == *old(self).witness,
            *final(self).witness == *final(ret.witness),
            *final(final(self).witness) == *final(old(self).witness),
            ret.row_offset == old(self).row_offset,
            ret.column_offset == old(self).width * index,
            ret.width == old(self).width,
            ret.height == old(self).height,
            final(self).row_offset == old(self).row_offset,
            final(self).width == old(self).width,
            final(self).height == old(self).height,
            final(self).count == old(self).count,
    {
        let column_offset: usize = self.width * index;
        WitnessSection::new(
            &mut *self.witness,
            self.row_offset,
            column_offset,
            self.width,
            self.height,
        )
    }
}

/// Copies a column.
pub(crate) fn copy_column(column: &Vec<Scalar>) -> (ret: Vec<Scalar>)
    ensures
        ret@ == column@,
{
    let mut ret: Vec<Scalar> = Vec::new();
    let mut i: usize = 0;
    while i < column.len()
        invariant
            i <= column.len(),
            ret@ == column@.subrange(0, i as int),
        decreases column.len() - i,
    {
        ret.push(column[i]);
        proof {
            assert(column@.subrange(0, i + 1) =~= column@.subrange(0, i as int).push(
                column@[i as int],
            ));
        }
        i += 1;
    }
    proof {
        assert(column@.subrange(0, column@.len() as int) =~= column@);
    }
    ret
}

/// Copies several columns.
pub(crate) fn copy_columns(columns: &Vec<Vec<Scalar>>) -> (ret: Vec<Vec<Scalar>>)
    ensures
        ret@.len() == columns@.len(),
        forall|i: int| 0 <= i < columns@.len() ==> (#[trigger] ret@[i])@ == columns@[i]@,
{
    let mut ret: Vec<Vec<Scalar>> = Vec::new();
    let mut i: usize = 0;
    while i < columns.len()
        invariant
            i <= columns.len(),
            ret@.len() == i,
            forall|k: int| 0 <= k < i ==> (#[trigger] ret@[k])@ == columns@[k]@,
        decreases columns.len() - i,
    {
        ret.push(copy_column(&columns[i]));
        i += 1;
    }
    ret
}

impl Clone for Witness {
    fn clone(&self) -> (ret: Self)
        ensures
            ret.same_shape(*self),
            ret.table() == self.table(),
    {
        proof {
            use_type_invariant(self);
        }
        let data = copy_columns(&self.data);
        proof {
            assert(column_residues(data@) =~= column_residues(self.data@));
        }
        Witness {
            num_rows: self.num_rows,
            num_blinding_rows: self.num_blinding_rows,
            degree_bound: self.degree_bound,
            data,
        }
    }
}

} // verus!
