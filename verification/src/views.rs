//! Laws about nested views.
use crate::builder::{
    advanced, child_frame, is_circuit_section, next_cell, stepped_frame, BuilderState,
    CircuitBuilder, CircuitSectionBuilder, CircuitView, Frame,
};
use crate::cell::Cell;
use crate::proving::is_blinded;
use crate::witness::{
    child_fits, child_place, is_filled, is_section, place_contains, Place, Witness, WitnessSection,
    WitnessView,
};
use vstd::prelude::*;

verus! {

/// The cell `(r, c)` of a child view is the cell `(row_offset + r, column_offset + c)` of its parent,
/// wherever the parent stands, and no row of a new child is in use.
pub proof fn law_child_cells(
    parent: Frame,
    row_offset: usize,
    column_offset: usize,
    r: int,
    c: int,
)
    ensures
        child_frame(parent, row_offset, column_offset).row + r == parent.row + (row_offset + r),
        child_frame(parent, row_offset, column_offset).column + c == parent.column + (column_offset
            + c),
        child_frame(parent, row_offset, column_offset).counter == 0,
{
}

/// A section that is a child of a view starts at the offsets of its parent plus the given ones, and
/// places its first automatic gate in its first row and column.
pub proof fn law_section_of_view<V: CircuitView>(
    parent: V,
    section: &CircuitSectionBuilder,
    contents: BuilderState,
    row_offset: usize,
    column_offset: usize,
    width: usize,
    s: BuilderState,
)
    requires
        is_circuit_section(
            section,
            contents,
            child_frame(parent.frame_at(parent.contents()), row_offset, column_offset),
            width,
        ),
    ensures
        section.contents() == contents,
        section.row_offset == parent.frame_at(parent.contents()).row + row_offset,
        section.column_offset == parent.frame_at(parent.contents()).column + column_offset,
        section.width == width,
        section.spec_width() == Some(width),
        section.row_counter == 0,
        section.frame_at(s).row == section.row_offset,
        section.frame_at(s).column == section.column_offset,
        section.frame_at(s).counter == section.row_counter,
        next_cell(section.frame_at(s)) == (Cell {
            row: section.row_offset,
            column: section.column_offset,
        }),
{
}

/// A child of a child stands where a child of the first view with the sums of the offsets stands, and
/// a child without offsets stands where its parent stands.
pub proof fn law_nested_sections(
    parent: Frame,
    row_offset: usize,
    column_offset: usize,
    inner_row_offset: usize,
    inner_column_offset: usize,
)
    ensures
        child_frame(
            child_frame(parent, row_offset, column_offset),
            inner_row_offset,
            inner_column_offset,
        ).row == parent.row + row_offset + inner_row_offset,
        child_frame(
            child_frame(parent, row_offset, column_offset),
            inner_row_offset,
            inner_column_offset,
        ).column == parent.column + column_offset + inner_column_offset,
        row_offset + inner_row_offset <= usize::MAX && column_offset + inner_column_offset
            <= usize::MAX ==> child_frame(
            child_frame(parent, row_offset, column_offset),
            inner_row_offset,
            inner_column_offset,
        ) == child_frame(
            parent,
            (row_offset + inner_row_offset) as usize,
            (column_offset + inner_column_offset) as usize,
        ),
        child_frame(parent, 0, 0) == (Frame { counter: 0, ..parent }),
{
}

/// The whole circuit is a view that starts at row 0 and column 0, and its next automatic gate is
/// placed below all rows in use, in column 0.
pub proof fn law_whole_circuit(builder: CircuitBuilder, s: BuilderState)
    requires
        0 <= s.counter <= usize::MAX,
    ensures
        builder.contents() == builder.state(),
        builder.spec_width() is None,
        builder.frame_at(s).row == 0,
        builder.frame_at(s).column == 0,
        next_cell(builder.frame_at(s)).row == s.counter,
        next_cell(builder.frame_at(s)).column == 0,
{
}

/// The automatic gates of a view are placed in consecutive rows, in the first column of the view.
pub proof fn law_next_rows(frame: Frame, n: int)
    requires
        0 <= frame.row,
        0 <= frame.counter,
        0 <= frame.column <= usize::MAX,
        0 <= n,
        frame.row + frame.counter + n <= usize::MAX,
        frame.row + frame.counter < usize::MAX,
    ensures
        next_cell(frame).row == frame.row + frame.counter,
        next_cell(frame).column == frame.column,
        next_cell(stepped_frame(frame)).row == next_cell(frame).row + 1,
        next_cell(stepped_frame(frame)).column == next_cell(frame).column,
        next_cell(Frame { counter: frame.counter + n, ..frame }).row == next_cell(frame).row + n,
        next_cell(Frame { counter: frame.counter + n, ..frame }).column == next_cell(frame).column,
        stepped_frame(frame).row == frame.row,
        stepped_frame(frame).column == frame.column,
{
}

/// When rows of a view come into use, they are in use in the whole circuit: its next automatic gate
/// is placed below them, and not lower than that demands. Nothing else of the circuit changes.
pub proof fn law_rows_in_use(
    builder: CircuitBuilder,
    s: BuilderState,
    frame: Frame,
    n: int,
    row: int,
)
    requires
        0 <= s.counter <= usize::MAX,
        0 <= frame.row,
        0 <= frame.counter,
        0 <= n,
        frame.row + frame.counter + n <= usize::MAX,
    ensures
        s.counter <= advanced(s, frame, n).counter,
        frame.row + frame.counter + n <= advanced(s, frame, n).counter,
        s.counter <= row && frame.row + frame.counter + n <= row ==> advanced(s, frame, n).counter
            <= row,
        frame.row + frame.counter <= row < frame.row + frame.counter + n ==> row < next_cell(
            builder.frame_at(advanced(s, frame, n)),
        ).row,
        advanced(s, frame, n).rows == s.rows,
        advanced(s, frame, n).columns == s.columns,
        advanced(s, frame, n).gates == s.gates,
        advanced(s, frame, n).nodes == s.nodes,
        advanced(s, frame, n).public_rows == s.public_rows,
        advanced(s, builder.frame_at(s), n).counter == s.counter + n,
{
}

/// Rows of a view that come into use at once are as many rows that come into use one after the other.
pub proof fn law_rows_in_use_add_up(s: BuilderState, frame: Frame, m: int, n: int)
    requires
        0 <= m,
        0 <= n,
    ensures
        advanced(advanced(s, frame, m), Frame { counter: frame.counter + m, ..frame }, n)
            == advanced(s, frame, m + n),
{
}

/// A view of a witness contains the cells at the offsets `(r, c)` from its first cell with `r` under
/// its height and `c` under its width, and no others.
pub proof fn law_place_contains(place: Place, cell: Cell)
    ensures
        place_contains(place, cell) <==> exists|r: int, c: int|
            #![trigger place.row + r, place.column + c]
            0 <= r < place.height && 0 <= c < place.width && cell.row == place.row + r
                && cell.column == place.column + c,
{
    if place_contains(place, cell) {
        let r = cell.row - place.row;
        let c = cell.column - place.column;
        assert(cell.row == place.row + r && cell.column == place.column + c);
    }
}

/// The cell `(r, c)` of a child view of a witness view is the cell `(row_offset + r, column_offset +
/// c)` of its parent, wherever the parent stands, and the parent contains it if the child does. The
/// parent contains every cell that the child contains.
pub proof fn law_child_place(
    parent: Place,
    row_offset: usize,
    column_offset: usize,
    width: Option<usize>,
    height: Option<usize>,
    r: int,
    c: int,
    cell: Cell,
)
    requires
        child_fits(parent, row_offset, column_offset, width, height),
    ensures
        child_place(parent, row_offset, column_offset, width, height).row + r == parent.row + (
        row_offset + r),
        child_place(parent, row_offset, column_offset, width, height).column + c == parent.column
            + (column_offset + c),
        place_contains(child_place(parent, row_offset, column_offset, width, height), cell)
            ==> place_contains(parent, cell),
        place_contains(child_place(parent, row_offset, column_offset, width, height), cell)
            ==> parent.row + row_offset <= cell.row && parent.column + column_offset <= cell.column,
{
}

/// A child view of a witness view has the given width and height. Where one is not given, the child
/// contains all that its parent contains from its first column or row on.
pub proof fn law_child_extents(
    parent: Place,
    row_offset: usize,
    column_offset: usize,
    width: Option<usize>,
    height: Option<usize>,
    cell: Cell,
)
    requires
        child_fits(parent, row_offset, column_offset, width, height),
    ensures
        place_contains(child_place(parent, row_offset, column_offset, width, height), cell) <==> {
            &&& place_contains(parent, cell)
            &&& parent.row + row_offset <= cell.row
            &&& parent.column + column_offset <= cell.column
            &&& width matches Some(width) ==> cell.column < parent.column + column_offset + width
            &&& height matches Some(height) ==> cell.row < parent.row + row_offset + height
        },
        width matches Some(width) ==> child_place(
            parent,
            row_offset,
            column_offset,
            Some(width),
            height,
        ).width == width,
        height matches Some(height) ==> child_place(
            parent,
            row_offset,
            column_offset,
            width,
            Some(height),
        ).height == height,
        width is None ==> column_offset + child_place(
            parent,
            row_offset,
            column_offset,
            width,
            height,
        ).width == parent.width,
        height is None ==> row_offset + child_place(
            parent,
            row_offset,
            column_offset,
            width,
            height,
        ).height == parent.height,
{
}

/// A child of a child view of a witness stands where a child of the first view with the sums of the
/// offsets stands, and the child without offsets and extents is its parent.
pub proof fn law_nested_places(
    parent: Place,
    row_offset: usize,
    column_offset: usize,
    width: Option<usize>,
    height: Option<usize>,
    inner_row_offset: usize,
    inner_column_offset: usize,
    inner_width: usize,
    inner_height: usize,
)
    requires
        row_offset + inner_row_offset <= usize::MAX,
        column_offset + inner_column_offset <= usize::MAX,
    ensures
        child_place(
            child_place(parent, row_offset, column_offset, width, height),
            inner_row_offset,
            inner_column_offset,
            Some(inner_width),
            Some(inner_height),
        ) == child_place(
            parent,
            (row_offset + inner_row_offset) as usize,
            (column_offset + inner_column_offset) as usize,
            Some(inner_width),
            Some(inner_height),
        ),
        child_place(
            child_place(parent, row_offset, column_offset, None, None),
            inner_row_offset,
            inner_column_offset,
            None,
            None,
        ) == child_place(
            parent,
            (row_offset + inner_row_offset) as usize,
            (column_offset + inner_column_offset) as usize,
            None,
            None,
        ),
        child_place(parent, 0, 0, None, None) == parent,
{
}

/// Two child views of a witness view whose columns, or whose rows, do not overlap have no cell in
/// common.
pub proof fn law_separate_children(
    parent: Place,
    row1: usize,
    column1: usize,
    width1: usize,
    height1: usize,
    row2: usize,
    column2: usize,
    width2: Option<usize>,
    height2: Option<usize>,
    cell: Cell,
)
    requires
        column1 + width1 <= column2 || row1 + height1 <= row2,
    ensures
        !(place_contains(child_place(parent, row1, column1, Some(width1), Some(height1)), cell)
            && place_contains(child_place(parent, row2, column2, width2, height2), cell)),
{
}

/// A section that is a child of a witness view starts at the offsets of its parent plus the given
/// ones, and shows the same witness.
pub proof fn law_section_of_witness_view<V: WitnessView>(
    parent: V,
    section: &WitnessSection,
    row_offset: usize,
    column_offset: usize,
    width: Option<usize>,
    height: Option<usize>,
)
    requires
        is_section(
            section,
            parent.spec_witness(),
            child_place(parent.place(), row_offset, column_offset, width, height),
        ),
    ensures
        section.spec_witness() == parent.spec_witness(),
        section.row_offset == parent.place().row + row_offset,
        section.column_offset == parent.place().column + column_offset,
        section.width == match width {
            Some(width) => width as int,
            None => parent.place().width - column_offset,
        },
        section.height == match height {
            Some(height) => height as int,
            None => parent.place().height - row_offset,
        },
        section.place().row == section.row_offset,
        section.place().column == section.column_offset,
        section.place().width == section.width,
        section.place().height == section.height,
{
}

/// The view of a whole witness contains the cells of the witness and no others.
pub proof fn law_whole_witness(witness: Witness, cell: Cell)
    ensures
        witness.spec_witness() == witness,
        witness.place().row == 0,
        witness.place().column == 0,
        place_contains(witness.place(), cell) <==> witness.has(cell),
        place_contains(witness.place(), cell) <==> cell.row < witness.spec_degree_bound()
            && cell.column < witness.table().len(),
{
}

/// What a cell of a witness holds after one cell was set: the cell that was set holds the new value,
/// and every other cell holds what it held.
pub proof fn law_set_witness_cell(
    before: Witness,
    after: Witness,
    cell: Cell,
    value: int,
    other: Cell,
)
    requires
        after.same_but(before, cell),
        after.at(cell) == value,
        before.has(cell),
        before.has(other),
    ensures
        after.has(other),
        after.table()[other.column as int][other.row as int] == if other == cell {
            value
        } else {
            before.table()[other.column as int][other.row as int]
        },
        after.at(other) == after.table()[other.column as int][other.row as int],
        after.place() == before.place(),
{
}

/// Filling in the blinding rows writes the given values to the rows right below the circuit's own
/// rows, column by column, and leaves all other cells as they are.
pub proof fn law_filled_cells(
    before: Witness,
    after: Witness,
    values: Seq<Seq<int>>,
    cell: Cell,
)
    requires
        is_filled(after, before, values),
        before.has(cell),
    ensures
        after.table()[cell.column as int][cell.row as int] == if before.spec_num_rows() <= cell.row
            < before.spec_num_rows() + before.spec_num_blinding_rows() {
            values[cell.column as int][cell.row - before.spec_num_rows()]
        } else {
            before.table()[cell.column as int][cell.row as int]
        },
        after.spec_num_rows() == before.spec_num_rows(),
        after.spec_num_blinding_rows() == before.spec_num_blinding_rows(),
        after.spec_degree_bound() == before.spec_degree_bound(),
        after.table().len() == before.table().len(),
{
    assert(after.at(cell) == after.table()[cell.column as int][cell.row as int]);
}

/// Blinding a witness leaves all cells as they are but those of the blinding rows.
pub proof fn law_blinded_cells(before: Witness, after: Witness, cell: Cell)
    requires
        is_blinded(after, before),
        before.has(cell),
        cell.row < before.spec_num_rows() || before.spec_num_rows()
            + before.spec_num_blinding_rows() <= cell.row,
    ensures
        after.table()[cell.column as int][cell.row as int]
            == before.table()[cell.column as int][cell.row as int],
{
    assert(after.at(cell) == before.at(cell));
}

} // verus!
