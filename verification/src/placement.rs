//! Laws about where gates are placed and what their variables are connected to.
use crate::builder::{
    auto_gate_added, auto_gate_placeable, gate_added, gate_placeable, is_min_column,
    is_variable_list, min_column, next_cell, nop_gate_added, row_cells, variable_cells,
    BuilderState, Frame,
};
use crate::cell::Cell;
use crate::history::{
    consists_of, input_pairs, law_history_auto_gate, lemma_connect_all, lemma_min_exists,
};
use crate::model::rows_sorted;
use crate::terms::{terms_have, Terms};
use crate::variable::{var_less, Variable};
use vstd::prelude::*;

verus! {

/// Variables are ordered by column, whatever their rotations, and those of one column by rotation.
/// Of two different variables, exactly one comes first.
pub proof fn law_variable_order(a: Variable, b: Variable)
    ensures
        a.column_index < b.column_index ==> var_less(a, b) && !var_less(b, a),
        a.column_index == b.column_index && a.rotation < b.rotation ==> var_less(a, b) && !var_less(
            b,
            a,
        ),
        a == b ==> !var_less(a, b),
{
}

/// In the list of the variables of a constraint, a variable with a lower column stands before one
/// with a higher column, whatever their rotations; among the variables of one column the rotations
/// increase; and no variable stands in the list twice.
pub proof fn law_variables_by_column(s: Seq<Variable>, t: Terms, i: int, j: int)
    requires
        is_variable_list(s, t),
        0 <= i < s.len(),
        0 <= j < s.len(),
    ensures
        s[i].column_index < s[j].column_index ==> i < j,
        s[i].column_index == s[j].column_index && s[i].rotation < s[j].rotation ==> i < j,
        i < j ==> s[i].column_index <= s[j].column_index,
        i < j && s[i].column_index == s[j].column_index ==> s[i].rotation < s[j].rotation,
        s[i] == s[j] ==> i == j,
        terms_have(t, s[i]),
{
    if i < j {
        assert(var_less(s[i], s[j]));
    } else if j < i {
        assert(var_less(s[j], s[i]));
    }
    assert(s.contains(s[i]));
}

/// Every variable of a constraint stands in the list of its variables. If the first `n` variables are
/// inputs and the others are outputs, every input has a column not above that of any output, and in
/// one column the inputs have the lower rotations.
pub proof fn law_inputs_before_outputs(
    s: Seq<Variable>,
    t: Terms,
    n: int,
    a: Variable,
    b: Variable,
)
    requires
        is_variable_list(s, t),
        0 <= n <= s.len(),
        terms_have(t, a),
        terms_have(t, b),
    ensures
        s.subrange(0, n).contains(a) || s.subrange(n, s.len() as int).contains(a),
        s.subrange(0, n).contains(a) && s.subrange(n, s.len() as int).contains(b) ==> {
            &&& a.column_index <= b.column_index
            &&& a.column_index == b.column_index ==> a.rotation < b.rotation
        },
{
    let (x, y) = (s.subrange(0, n), s.subrange(n, s.len() as int));
    assert(s.contains(a) && s.contains(b));
    let i = choose|i: int| 0 <= i < s.len() && s[i] == a;
    if i < n {
        assert(x[i] == a);
    } else {
        assert(y[i - n] == a);
    }
    if x.contains(a) && y.contains(b) {
        let k = choose|k: int| 0 <= k < x.len() && x[k] == a;
        let l = choose|l: int| 0 <= l < y.len() && y[l] == b;
        assert(s[k] == a && s[n + l] == b);
        law_variables_by_column(s, t, k, n + l);
    }
}

/// A variable of a constraint stands for the cell that is its rotation below and its column to the
/// right of the cell where the constraint is placed.
pub proof fn law_variable_cells(t: Terms, s: Seq<Variable>, root: Cell, i: int)
    requires
        gate_placeable(t, root),
        is_variable_list(s, t),
        0 <= i < s.len(),
    ensures
        variable_cells(s, root).len() == s.len(),
        variable_cells(s, root)[i].row == root.row + s[i].rotation,
        variable_cells(s, root)[i].column == root.column + s[i].column_index,
{
    assert(s.contains(s[i]));
    assert(terms_have(t, s[i]));
}

/// The pairs of inputs and cells.
proof fn lemma_input_pairs(inputs: Seq<Option<Cell>>, cells: Seq<Cell>, a: Cell, b: Cell)
    ensures
        input_pairs(inputs, cells).contains((a, b)) <==> exists|i: int|
            0 <= i < inputs.len() && #[trigger] inputs[i] == Some(a) && cells[i] == b,
    decreases inputs.len(),
{
    let all = input_pairs(inputs, cells);
    if inputs.len() > 0 {
        let rest = inputs.drop_last();
        let before = input_pairs(rest, cells);
        lemma_input_pairs(rest, cells, a, b);
        let n = inputs.len() - 1;
        if all.contains((a, b)) {
            let k = choose|k: int| 0 <= k < all.len() && all[k] == (a, b);
            if k < before.len() {
                assert(before[k] == (a, b));
                let i = choose|i: int|
                    0 <= i < rest.len() && #[trigger] rest[i] == Some(a) && cells[i] == b;
                assert(inputs[i] == Some(a));
            } else {
                assert(inputs[n] == Some(a) && cells[n] == b);
            }
        }
        if exists|i: int| 0 <= i < inputs.len() && #[trigger] inputs[i] == Some(a) && cells[i] == b {
            let i = choose|i: int|
                0 <= i < inputs.len() && #[trigger] inputs[i] == Some(a) && cells[i] == b;
            if i < n {
                assert(rest[i] == Some(a));
                let k = choose|k: int| 0 <= k < before.len() && before[k] == (a, b);
                assert(all[k] == (a, b));
            } else {
                assert(all[all.len() - 1] == (a, b));
            }
        }
    }
}

/// The given pairs are the inputs that are present, each with the cell that is the rotation of its
/// variable below and the column of its variable to the right of the cell at `row` and `column`.
pub open spec fn wires_of_gate(
    wires: Seq<(Cell, Cell)>,
    inputs: Seq<Option<Cell>>,
    s: Seq<Variable>,
    row: int,
    column: int,
) -> bool {
    forall|a: Cell, b: Cell| #[trigger]
        wires.contains((a, b)) <==> exists|i: int|
            0 <= i < inputs.len() && #[trigger] inputs[i] == Some(a) && b.row == row + s[i].rotation
                && b.column == column + s[i].column_index
}

/// An automatic gate is placed in the next unused row of its view, and the only cells that it
/// connects are its inputs: the input with a given index is connected to the cell of the variable
/// with that index in the list of the variables.
pub proof fn law_auto_gate(
    before: BuilderState,
    after: BuilderState,
    gates: Seq<(Terms, Cell)>,
    pairs: Seq<(Cell, Cell)>,
    frame: Frame,
    t: Terms,
    inputs: Seq<Option<Cell>>,
    s: Seq<Variable>,
)
    requires
        consists_of(before, gates, pairs),
        auto_gate_placeable(frame, t),
        is_variable_list(s, t),
        inputs.len() <= s.len(),
        auto_gate_added(
            before,
            after,
            frame,
            t,
            inputs,
            variable_cells(s, next_cell(frame)),
        ),
    ensures
        exists|wires: Seq<(Cell, Cell)>, root: Cell|
            {
                &&& #[trigger] consists_of(after, gates.push((t, root)), pairs + wires)
                &&& root.row == frame.row + frame.counter
                &&& root.column == frame.column
                &&& wires_of_gate(wires, inputs, s, frame.row + frame.counter, frame.column)
            },
        after.public_rows == before.public_rows,
        before.counter <= after.counter,
        frame.row + frame.counter < after.counter,
        after.counter == before.counter || after.counter == frame.row + frame.counter + 1,
{
    let root = next_cell(frame);
    let cells = variable_cells(s, root);
    let wires = input_pairs(inputs, cells);
    law_history_auto_gate(before, after, gates, pairs, frame, t, inputs, cells);
    assert forall|a: Cell, b: Cell| #[trigger] wires.contains((a, b)) <==> exists|i: int|
        0 <= i < inputs.len() && #[trigger] inputs[i] == Some(a) && b.row == root.row + s[i].rotation
            && b.column == root.column + s[i].column_index by {
        lemma_input_pairs(inputs, cells, a, b);
        if wires.contains((a, b)) {
            let i = choose|i: int|
                0 <= i < inputs.len() && #[trigger] inputs[i] == Some(a) && cells[i] == b;
            law_variable_cells(t, s, root, i);
        }
        if exists|i: int|
            0 <= i < inputs.len() && #[trigger] inputs[i] == Some(a) && b.row == root.row
                + s[i].rotation && b.column == root.column + s[i].column_index {
            let i = choose|i: int|
                0 <= i < inputs.len() && #[trigger] inputs[i] == Some(a) && b.row == root.row
                    + s[i].rotation && b.column == root.column + s[i].column_index;
            law_variable_cells(t, s, root, i);
            assert(inputs[i] == Some(a) && cells[i] == b);
        }
    }
    assert(consists_of(after, gates.push((t, root)), pairs + wires));
    assert(wires_of_gate(wires, inputs, s, frame.row + frame.counter, frame.column));
}

/// The given pairs are the inputs that are present, each with the cell that is as many columns to the
/// right of the cell at `row` and `column` as the index of the input says.
pub open spec fn wires_of_row(
    wires: Seq<(Cell, Cell)>,
    inputs: Seq<Option<Cell>>,
    row: int,
    column: int,
) -> bool {
    forall|a: Cell, b: Cell| #[trigger]
        wires.contains((a, b)) <==> exists|i: int|
            0 <= i < inputs.len() && #[trigger] inputs[i] == Some(a) && b.row == row && b.column
                == column + i
}

/// A NOP gate is placed at the cell `root` and has no constraint; the input with a given index is
/// connected to the cell that is as many columns to the right of `root`. The circuit grows just as
/// far as needed to hold these cells, and one cell if there are no inputs.
pub proof fn law_nop_gate(
    before: BuilderState,
    after: BuilderState,
    gates: Seq<(Terms, Cell)>,
    pairs: Seq<(Cell, Cell)>,
    root: Cell,
    inputs: Seq<Option<Cell>>,
    rows: int,
    columns: int,
)
    requires
        consists_of(before, gates, pairs),
        root.column + inputs.len() <= usize::MAX,
        nop_gate_added(
            BuilderState {
                nodes: crate::builder::connect_all(
                    before.nodes,
                    inputs,
                    row_cells(root, inputs.len()),
                ),
                ..before
            },
            after,
            root,
            inputs.len() as int,
        ),
    ensures
        exists|wires: Seq<(Cell, Cell)>|
            {
                &&& #[trigger] consists_of(
                    after,
                    gates.push((Seq::empty(), root)),
                    pairs + wires,
                )
                &&& wires_of_row(wires, inputs, root.row as int, root.column as int)
            },
        forall|i: int|
            0 <= i < inputs.len() ==> (#[trigger] row_cells(root, inputs.len())[i]).row == root.row
                && row_cells(root, inputs.len())[i].column == root.column + i,
        before.rows <= after.rows,
        root.row < after.rows,
        before.columns <= after.columns,
        root.column < after.columns,
        root.column + inputs.len() <= after.columns,
        before.rows <= rows && root.row < rows ==> after.rows <= rows,
        before.columns <= columns && root.column < columns && root.column + inputs.len() <= columns
            ==> after.columns <= columns,
        after.counter == before.counter,
        after.public_rows == before.public_rows,
{
    let cells = row_cells(root, inputs.len());
    let wires = input_pairs(inputs, cells);
    lemma_connect_all(pairs, inputs, cells);
    let middle = BuilderState {
        nodes: crate::builder::connect_all(before.nodes, inputs, cells),
        ..before
    };
    assert(consists_of(middle, gates, pairs + wires));
    crate::history::law_history_nop_gate(
        middle,
        after,
        gates,
        pairs + wires,
        root,
        inputs.len() as int,
    );
    assert forall|a: Cell, b: Cell| #[trigger] wires.contains((a, b)) <==> exists|i: int|
        0 <= i < inputs.len() && #[trigger] inputs[i] == Some(a) && b.row == root.row && b.column
            == root.column + i by {
        lemma_input_pairs(inputs, cells, a, b);
        if exists|i: int|
            0 <= i < inputs.len() && #[trigger] inputs[i] == Some(a) && b.row == root.row
                && b.column == root.column + i {
            let i = choose|i: int|
                0 <= i < inputs.len() && #[trigger] inputs[i] == Some(a) && b.row == root.row
                    && b.column == root.column + i;
            assert(inputs[i] == Some(a) && cells[i] == b);
        }
    }
    assert(wires_of_row(wires, inputs, root.row as int, root.column as int));
}

/// A circuit grows just as far as needed to hold the cell where a gate is placed, in the lowest
/// column of its variables, and the cells of the variables. Gates that were placed before stay.
pub proof fn law_circuit_grows(
    before: BuilderState,
    after: BuilderState,
    root: Cell,
    t: Terms,
    v: Variable,
    rows: int,
    columns: int,
)
    requires
        gate_added(before, after, root, t),
    ensures
        before.rows <= after.rows,
        before.columns <= after.columns,
        root.row < after.rows,
        root.column < after.columns,
        terms_have(t, v) ==> root.row + v.rotation < after.rows && root.column + v.column_index
            < after.columns,
        before.rows <= rows && root.row < rows && (forall|u: Variable| #[trigger]
            terms_have(t, u) ==> root.row + u.rotation < rows) ==> after.rows <= rows,
        before.columns <= columns && root.column < columns && (forall|u: Variable| #[trigger]
            terms_have(t, u) ==> root.column + u.column_index < columns) ==> after.columns
            <= columns,
        after.gates.len() == before.gates.len() + 1,
        after.gates.drop_last() == before.gates,
        after.nodes == before.nodes,
        after.counter == before.counter,
        after.public_rows == before.public_rows,
{
    lemma_min_exists(t);
    assert(after.gates.drop_last() =~= before.gates);
    let m = min_column(t);
    if exists|u: Variable| #[trigger] terms_have(t, u) && u.column_index == m {
        let u = choose|u: Variable| #[trigger] terms_have(t, u) && u.column_index == m;
        assert(terms_have(t, u));
    }
}

/// The lowest column of the variables of a constraint is the column of one of them, and not above the
/// column of any; it is 0 where there are no variables.
pub proof fn law_lowest_column(t: Terms, v: Variable)
    ensures
        terms_have(t, v) ==> min_column(t) <= v.column_index,
        terms_have(t, v) ==> exists|u: Variable| #[trigger]
            terms_have(t, u) && u.column_index == min_column(t),
        (forall|u: Variable| !#[trigger] terms_have(t, u)) ==> min_column(t) == 0,
        forall|m: int| #[trigger] is_min_column(t, m) ==> m == min_column(t),
{
    lemma_min_exists(t);
    assert forall|m: int| #[trigger] is_min_column(t, m) implies m == min_column(t) by {
        crate::builder::lemma_min_column_unique(t, m, m);
    }
}

/// The rows that a proof reveals are listed in increasing order, each once.
pub proof fn law_public_rows_increase(rows: Seq<usize>, i: int, j: int)
    requires
        rows_sorted(rows),
        0 <= i < rows.len(),
        0 <= j < rows.len(),
    ensures
        i < j <==> rows[i] < rows[j],
        i == j <==> rows[i] == rows[j],
{
}

} // verus!
