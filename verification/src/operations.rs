//! Laws about what operations return and change.
use crate::builder::{
    BuilderState, CircuitBuilder, CircuitSectionBuilder, CircuitView, CircuitViewGenerator,
};
use crate::cell::{Cell, CellOffset};
use crate::expr::Constraint;
use crate::field::{Field, Scalar};
use crate::history::consists_of;
use crate::partition::{connected, disjoint, Ordered, Partition};
use crate::placement::law_circuit_grows;
use crate::terms::{terms_have, Terms};
use crate::variable::{variable_less, Variable};
use crate::witness::{CellOrUnconstrained, WitnessSection, WitnessView, WitnessViewGenerator};
use vstd::prelude::*;

verus! {

/// Comparing two variables compares their columns and, where these are the same, their rotations.
pub proof fn law_variable_less(a: Variable, b: Variable, ret: bool)
    requires
        call_ensures(variable_less, (a, b), ret),
    ensures
        ret <==> a.column_index < b.column_index || (a.column_index == b.column_index && a.rotation
            < b.rotation),
{
}

/// A variable maps to the cell that is its rotation below and its column to the right of the root
/// cell.
pub proof fn law_map_to_cell(v: Variable, root: Cell, ret: Cell)
    requires
        call_ensures(Variable::map_to_cell, (&v, root), ret),
        v.has_cell(root),
    ensures
        ret.row == root.row + v.rotation,
        ret.column == root.column + v.column_index,
{
}

/// The variables of a constraint are returned by column, whatever their rotations, and those of one
/// column by rotation, each of them once.
pub proof fn law_free_variables(c: Constraint<Scalar>, ret: Vec<Variable>, i: int, j: int)
    requires
        call_ensures(Constraint::<Scalar>::get_free_variables, (&c,), ret),
        0 <= i < ret@.len(),
        0 <= j < ret@.len(),
    ensures
        ret@[i].column_index < ret@[j].column_index ==> i < j,
        ret@[i].column_index == ret@[j].column_index ==> (ret@[i].rotation < ret@[j].rotation <==> i
            < j),
        terms_have(c@, ret@[i]),
{
    assert(ret@.contains(ret@[i]));
}

/// A child of a view of a circuit starts at the offsets of its parent plus the given ones, has the
/// given width and no rows in use, and shows the same gates and connections.
pub proof fn law_sub<V: CircuitView>(
    view: &mut V,
    row_offset: usize,
    column_offset: usize,
    width: usize,
    ret: CircuitSectionBuilder,
)
    requires
        call_ensures(V::sub, (view, row_offset, column_offset, width), ret),
    ensures
        ret.row_offset == old(view).frame_at(old(view).contents()).row + row_offset,
        ret.column_offset == old(view).frame_at(old(view).contents()).column + column_offset,
        ret.width == width,
        ret.row_counter == 0,
        ret.contents().gates == old(view).contents().gates,
        ret.contents().nodes == old(view).contents().nodes,
        ret.contents().rows == old(view).contents().rows,
        ret.contents().columns == old(view).contents().columns,
{
}

/// The next row of a view is the one below its rows in use, and it is in use afterwards.
pub proof fn law_step_row<V: CircuitView>(view: &mut V, ret: Cell)
    requires
        call_ensures(V::step_row, (view,), ret),
    ensures
        ret.row == old(view).frame_at(old(view).contents()).row + old(view).frame_at(
            old(view).contents(),
        ).counter,
        ret.column == old(view).frame_at(old(view).contents()).column,
        final(view).frame_at(final(view).contents()).row == old(view).frame_at(
            old(view).contents(),
        ).row,
        final(view).frame_at(final(view).contents()).column == old(view).frame_at(
            old(view).contents(),
        ).column,
        final(view).frame_at(final(view).contents()).counter == old(view).frame_at(
            old(view).contents(),
        ).counter + 1,
        final(view).contents().gates == old(view).contents().gates,
        final(view).contents().nodes == old(view).contents().nodes,
{
}

/// Skipping rows brings that many rows of a view into use, and changes nothing else.
pub proof fn law_skip_rows<V: CircuitView>(view: &mut V, n: usize)
    requires
        call_ensures(V::skip_rows, (view, n), ()),
    ensures
        final(view).frame_at(final(view).contents()).counter == old(view).frame_at(
            old(view).contents(),
        ).counter + n,
        final(view).frame_at(final(view).contents()).row == old(view).frame_at(
            old(view).contents(),
        ).row,
        final(view).frame_at(final(view).contents()).column == old(view).frame_at(
            old(view).contents(),
        ).column,
        final(view).contents().gates == old(view).contents().gates,
        final(view).contents().nodes == old(view).contents().nodes,
        final(view).contents().rows == old(view).contents().rows,
        final(view).contents().columns == old(view).contents().columns,
{
}

/// The child views of a generator start in the next unused row of the view that it comes from, and have
/// the given width and number.
pub proof fn law_auto_sub<V: CircuitView>(
    view: &mut V,
    width: usize,
    count: usize,
    generator: CircuitViewGenerator,
)
    requires
        call_ensures(V::auto_sub, (view, width, count), generator),
    ensures
        generator.row_offset == old(view).frame_at(old(view).contents()).row + old(view).frame_at(
            old(view).contents(),
        ).counter,
        generator.width == width,
        generator.count == count,
{
}

/// The child view of a generator with a given index starts in the generator's row, as many widths from
/// the first column of the circuit as the index says.
pub proof fn law_generated_view(
    generator: &mut CircuitViewGenerator,
    index: usize,
    ret: CircuitSectionBuilder,
)
    requires
        call_ensures(CircuitViewGenerator::get, (generator, index), ret),
    ensures
        ret.row_offset == old(generator).row_offset,
        ret.column_offset == old(generator).width * index,
        ret.width == old(generator).width,
        ret.row_counter == 0,
{
}

/// Adding a gate to a view places its constraint at the given row of the view, in the view's first
/// column, and connects nothing. The circuit holds the cells of all variables afterwards.
pub proof fn law_add_gate<V: CircuitView>(
    view: &mut V,
    row: usize,
    constraint: Constraint<Scalar>,
    gates: Seq<(Terms, Cell)>,
    pairs: Seq<(Cell, Cell)>,
    v: Variable,
)
    requires
        call_ensures(V::add_gate, (view, row, constraint), ()),
        consists_of(old(view).contents(), gates, pairs),
        0 <= old(view).frame_at(old(view).contents()).row,
        0 <= old(view).frame_at(old(view).contents()).column <= usize::MAX,
        old(view).frame_at(old(view).contents()).row + row <= usize::MAX,
    ensures
        exists|root: Cell|
            {
                &&& #[trigger] consists_of(
                    final(view).contents(),
                    gates.push((constraint@, root)),
                    pairs,
                )
                &&& root.row == old(view).frame_at(old(view).contents()).row + row
                &&& root.column == old(view).frame_at(old(view).contents()).column
            },
        terms_have(constraint@, v) ==> {
            &&& old(view).frame_at(old(view).contents()).row + row + v.rotation < final(view).contents().rows
            &&& old(view).frame_at(old(view).contents()).column + v.column_index < final(view).contents().columns
        },
{
    let frame = old(view).frame_at(old(view).contents());
    let root = Cell { row: (frame.row + row) as usize, column: frame.column as usize };
    let (before, after) = (old(view).contents(), final(view).contents());
    crate::history::law_history_gate(before, after, gates, pairs, root, constraint@);
    assert(consists_of(after, gates.push((constraint@, root)), pairs));
    law_circuit_grows(before, after, root, constraint@, v, 0, 0);
}

/// Connecting two cells connects them, keeps what was connected, and connects nothing that these two
/// do not link. Connecting to nothing changes nothing.
pub proof fn law_connect_cells<V: CircuitView>(
    view: &mut V,
    a: Option<Cell>,
    b: Option<Cell>,
    x: Cell,
    y: Cell,
)
    requires
        call_ensures(V::connect, (view, a, b), ()),
        disjoint(old(view).contents().nodes),
    ensures
        connected(final(view).contents().nodes, x, y) <==> {
            let nodes = old(view).contents().nodes;
            ||| connected(nodes, x, y)
            ||| (a matches Some(c) && b matches Some(d) && ((connected(nodes, x, c) && connected(
                nodes,
                d,
                y,
            )) || (connected(nodes, x, d) && connected(nodes, c, y))))
        },
        final(view).contents().gates == old(view).contents().gates,
        final(view).contents().rows == old(view).contents().rows,
        final(view).contents().columns == old(view).contents().columns,
        final(view).contents().counter == old(view).contents().counter,
{
    if let (Some(c), Some(d)) = (a, b) {
        crate::partition::law_connect(old(view).contents().nodes, c, d, x, y);
    }
}

/// A new circuit is empty, and its first automatic gate is placed in its first row and column.
pub proof fn law_new_circuit(ret: CircuitBuilder)
    requires
        call_ensures(CircuitBuilder::new, (), ret),
    ensures
        consists_of(ret.contents(), Seq::empty(), Seq::empty()),
        ret.contents().rows == 0,
        ret.contents().columns == 0,
        ret.contents().public_rows.len() == 0,
        ret.frame_at(ret.contents()).row == 0,
        ret.frame_at(ret.contents()).column == 0,
        ret.frame_at(ret.contents()).counter == 0,
{
    crate::history::law_history_starts(ret.contents());
}

/// The rows that are revealed are the given ones, in increasing order and each of them once.
pub proof fn law_declared_rows(builder: &mut CircuitBuilder, rows: Vec<usize>, row: usize, i: int, j: int)
    requires
        call_ensures(CircuitBuilder::declare_public_rows, (builder, &rows), ()),
        0 <= i < j < final(builder).state().public_rows.len(),
    ensures
        final(builder).state().public_rows[i] < final(builder).state().public_rows[j],
        final(builder).state().public_rows.contains(row) <==> rows@.contains(row),
        final(builder).state().gates == old(builder).state().gates,
        final(builder).state().nodes == old(builder).state().nodes,
{
    let s = final(builder).state().public_rows;
    assert(s.to_set().contains(row) <==> rows@.to_set().contains(row));
}

/// A child of a view of a witness starts at the offsets of its parent plus the given ones, has the
/// given extents, or those that are left of its parent's, and shows the same witness.
pub proof fn law_sub_of_witness<V: WitnessView>(
    view: &mut V,
    row_offset: usize,
    column_offset: usize,
    width: Option<usize>,
    height: Option<usize>,
    ret: WitnessSection,
)
    requires
        call_ensures(V::sub, (view, row_offset, column_offset, width, height), ret),
    ensures
        ret.row_offset == old(view).place().row + row_offset,
        ret.column_offset == old(view).place().column + column_offset,
        ret.width == match width {
            Some(width) => width as int,
            None => old(view).place().width - column_offset,
        },
        ret.height == match height {
            Some(height) => height as int,
            None => old(view).place().height - row_offset,
        },
        ret.spec_witness() == old(view).spec_witness(),
{
}

/// A view of a witness contains the cells whose row and column are those of the view plus offsets under
/// its height and width.
pub proof fn law_contains_cell<V: WitnessView>(view: &V, cell: Cell, ret: bool)
    requires
        call_ensures(V::contains_cell, (view, cell), ret),
    ensures
        ret <==> {
            &&& 0 <= cell.row - view.place().row < view.place().height
            &&& 0 <= cell.column - view.place().column < view.place().width
        },
{
}

/// Every cell that a child view of a witness view contains is contained in its parent, if the child
/// does not overflow it.
pub proof fn law_cells_of_child<V: WitnessView>(
    view: &mut V,
    row_offset: usize,
    column_offset: usize,
    width: Option<usize>,
    height: Option<usize>,
    child: WitnessSection,
    cell: Cell,
    inner: bool,
    outer: bool,
)
    requires
        call_ensures(V::sub, (view, row_offset, column_offset, width, height), child),
        call_ensures(WitnessSection::contains_cell, (&child, cell), inner),
        call_ensures(V::contains_cell, (old(view), cell), outer),
        column_offset + child.width <= old(view).place().width,
        row_offset + child.height <= old(view).place().height,
    ensures
        inner ==> outer,
{
    assert(child.place() == child.spec_place());
}

/// Setting a cell of a witness changes that cell and no other.
pub proof fn law_set<V: WitnessView>(view: &mut V, cell: Cell, value: Scalar, other: Cell)
    requires
        call_ensures(V::set, (view, cell, value), ()),
        old(view).spec_witness().has(cell),
        old(view).spec_witness().has(other),
    ensures
        final(view).spec_witness().table()[other.column as int][other.row as int] == if other
            == cell {
            value.value()
        } else {
            old(view).spec_witness().table()[other.column as int][other.row as int]
        },
        final(view).place() == old(view).place(),
{
    assert(final(view).spec_witness().at(other)
        == final(view).spec_witness().table()[other.column as int][other.row as int]);
}

/// Reading a cell of a witness returns what the table holds in the cell's column and row.
pub proof fn law_get<V: WitnessView>(view: &V, cell: Cell, ret: Scalar)
    requires
        call_ensures(V::get_at, (view, cell), ret),
    ensures
        ret.value() == view.spec_witness().table()[cell.column as int][cell.row as int],
{
}

/// Copying to a cell of a witness returns what was copied, writes it to that cell and changes no other.
pub proof fn law_copy<V: WitnessView>(
    view: &mut V,
    source: CellOrUnconstrained,
    target: Cell,
    ret: Scalar,
    other: Cell,
)
    requires
        call_ensures(V::copy, (view, source, target), ret),
        old(view).spec_witness().has(target),
        old(view).spec_witness().has(other),
    ensures
        ret.value() == match source {
            CellOrUnconstrained::Cell(c) => old(view).spec_witness().table()[c.column as int][c.row as int],
            CellOrUnconstrained::Unconstrained(value) => value.value(),
        },
        final(view).spec_witness().table()[other.column as int][other.row as int] == if other
            == target {
            ret.value()
        } else {
            old(view).spec_witness().table()[other.column as int][other.row as int]
        },
{
    assert(final(view).spec_witness().at(other)
        == final(view).spec_witness().table()[other.column as int][other.row as int]);
}

/// The child view of a generator with a given index starts as many widths from the first column of the
/// witness.
pub proof fn law_generated_witness_view(
    generator: &mut WitnessViewGenerator,
    index: usize,
    ret: WitnessSection,
)
    requires
        call_ensures(WitnessViewGenerator::get, (generator, index), ret),
    ensures
        ret.row_offset == old(generator).row_offset,
        ret.column_offset == old(generator).width * index,
        ret.width == old(generator).width,
        ret.height == old(generator).height,
{
}

/// Connecting two elements of a partition joins their nodes and no others.
pub proof fn law_connect_elements<T: Ordered>(
    partition: &mut Partition<T>,
    a: T,
    b: T,
    x: T,
    y: T,
)
    requires
        call_ensures(Partition::<T>::connect, (partition, a, b), ()),
        disjoint(old(partition)@),
    ensures
        connected(final(partition)@, x, y) <==> connected(old(partition)@, x, y) || (connected(
            old(partition)@,
            x,
            a,
        ) && connected(old(partition)@, b, y)) || (connected(old(partition)@, x, b) && connected(
            old(partition)@,
            a,
            y,
        )),
{
    crate::partition::law_connect(old(partition)@, a, b, x, y);
}

/// Offsets are counted as they are, whatever the type that they are given in.
pub proof fn law_offsets(a: isize, b: usize, c: i32)
    ensures
        a.spec_offset() == a,
        b.spec_offset() == b,
        c.spec_offset() == c,
{
}

/// Comparing two cells compares their rows and, where these are the same, their columns.
pub proof fn law_cell_less(a: Cell, b: Cell, ret: bool)
    requires
        call_ensures(crate::cell::cell_less, (a, b), ret),
    ensures
        ret <==> a.row < b.row || (a.row == b.row && a.column < b.column),
{
}

/// Shifting a cell adds the given numbers to its row and column, and remapping it adds those of the
/// root cell.
pub proof fn law_moved_cells(
    cell: Cell,
    rows: isize,
    columns: isize,
    root: Cell,
    shifted: Cell,
    remapped: Cell,
)
    requires
        call_ensures(Cell::shift, (cell, rows, columns), shifted),
        call_ensures(Cell::remap, (cell, root), remapped),
    ensures
        shifted.row == cell.row + rows,
        shifted.column == cell.column + columns,
        remapped.row == cell.row + root.row,
        remapped.column == cell.column + root.column,
{
}

/// Remapping a variable adds the given number to its column and keeps its rotation.
pub proof fn law_remapped_variable(v: Variable, offset: isize, ret: Variable)
    requires
        call_ensures(Variable::remap, (v, offset), ret),
    ensures
        ret.column_index == v.column_index + offset,
        ret.rotation == v.rotation,
{
}

/// A child of a child of a view of a circuit starts at the offsets of the view plus the sums of the
/// given ones.
pub proof fn law_sub_of_sub<V: CircuitView>(
    view: &mut V,
    row_offset: usize,
    column_offset: usize,
    width: usize,
    child: &mut CircuitSectionBuilder,
    inner_row_offset: usize,
    inner_column_offset: usize,
    inner_width: usize,
    ret: CircuitSectionBuilder,
)
    requires
        call_ensures(V::sub, (view, row_offset, column_offset, width), *old(child)),
        call_ensures(
            CircuitSectionBuilder::sub,
            (child, inner_row_offset, inner_column_offset, inner_width),
            ret,
        ),
    ensures
        ret.row_offset == old(view).frame_at(old(view).contents()).row + (row_offset
            + inner_row_offset),
        ret.column_offset == old(view).frame_at(old(view).contents()).column + (column_offset
            + inner_column_offset),
        ret.width == inner_width,
{
    assert(old(child).frame_at(old(child).contents()).row == old(child).row_offset);
    assert(old(child).frame_at(old(child).contents()).column == old(child).column_offset);
}

/// A child of a child of a view of a witness starts at the offsets of the view plus the sums of the
/// given ones.
pub proof fn law_sub_of_witness_sub<V: WitnessView>(
    view: &mut V,
    row_offset: usize,
    column_offset: usize,
    width: Option<usize>,
    height: Option<usize>,
    child: &mut WitnessSection,
    inner_row_offset: usize,
    inner_column_offset: usize,
    inner_width: Option<usize>,
    inner_height: Option<usize>,
    ret: WitnessSection,
)
    requires
        call_ensures(V::sub, (view, row_offset, column_offset, width, height), *old(child)),
        call_ensures(
            WitnessSection::sub,
            (child, inner_row_offset, inner_column_offset, inner_width, inner_height),
            ret,
        ),
    ensures
        ret.row_offset == old(view).place().row + (row_offset + inner_row_offset),
        ret.column_offset == old(view).place().column + (column_offset + inner_column_offset),
        ret.spec_witness() == old(view).spec_witness(),
{
    assert(old(child).place() == old(child).spec_place());
}

/// Reading a cell of a witness after it was set returns the new value, and reading another one returns
/// what it held.
pub proof fn law_get_after_set<V: WitnessView>(
    view: &mut V,
    cell: Cell,
    value: Scalar,
    other: Cell,
    before: Scalar,
    after: Scalar,
)
    requires
        old(view).spec_witness().has(cell),
        old(view).spec_witness().has(other),
        call_ensures(V::get_at, (old(view), other), before),
        call_ensures(V::set, (view, cell, value), ()),
        call_ensures(V::get_at, (final(view), other), after),
    ensures
        other == cell ==> after.value() == value.value(),
        other != cell ==> after.value() == before.value(),
{
}

/// What is written through a child view of a witness view is what its parent shows afterwards.
pub proof fn law_writes_of_child<V: WitnessView>(
    view: &mut V,
    row_offset: usize,
    column_offset: usize,
    width: Option<usize>,
    height: Option<usize>,
    child: WitnessSection,
)
    requires
        call_ensures(V::sub, (view, row_offset, column_offset, width, height), child),
    ensures
        final(view).spec_witness() == *final(child.witness),
        child.spec_witness() == old(view).spec_witness(),
{
}

/// What is built through a child view of a circuit is what its parent shows afterwards, and the parent
/// stays where it is.
pub proof fn law_gates_of_child<V: CircuitView>(
    view: &mut V,
    row_offset: usize,
    column_offset: usize,
    width: usize,
    child: CircuitSectionBuilder,
    s: BuilderState,
)
    requires
        call_ensures(V::sub, (view, row_offset, column_offset, width), child),
    ensures
        final(view).contents() == final(child.builder).state(),
        final(view).frame_at(s) == old(view).frame_at(s),
{
}

} // verus!
