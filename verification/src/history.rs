//! Laws about circuits, in terms of the gates that were placed and the cells that were connected.
use crate::algebra::lemma_weighted_eq;
use crate::arith::invertible;
use crate::builder::{
    auto_gate_added, connect_all, gate_added, gate_placeable, is_min_column,
    lemma_min_column_unique, lemma_shifted_have, min_column, next_cell, nop_gate_added,
    BuilderState, Frame,
};
use crate::cell::Cell;
use crate::checking::{is_check_result, WitnessError};
use crate::compilation::{law_gates_hold, law_wires_hold, lists_agree};
use crate::connections::{
    is_chain, joined, law_nodes_are_chains, law_nodes_partition, linked, mentioned, nodes_of,
};
use crate::evaluation::{mono_defined, terms_defined};
use crate::expr::{is_canonical_form, shiftable};
use crate::field::{Field, Scalar};
use crate::laws::law_canonical_form_value;
use crate::model::{cell_value, gate_holds, gate_valuation, CircuitModel};
use crate::partition::{belongs, connect_sets, connected, present};
use crate::permutation::{lists_fit, lists_sets, stands_at};
use crate::plonk::{compiled_gates, is_build_result, is_compilation, BuildError, Circuit};
use crate::provability::lemma_shift_value;
use crate::terms::{
    is_clearing, mono_has, mono_value, mono_wf, shift_mono, shift_terms, terms_have, terms_value,
    Mono, Terms,
};
use crate::variable::{shift_variable, Variable};
use crate::witness::Witness;
use vstd::prelude::*;

verus! {

/// How a constraint placed at `root` is kept: the columns of its variables are shifted so that the
/// lowest one is 0.
pub open spec fn placed_gate(t: Terms, root: Cell) -> (Terms, Cell) {
    (
        shift_terms(t, -min_column(t)),
        Cell { row: root.row, column: (root.column + min_column(t)) as usize },
    )
}

/// The circuit holds the given constraints, each placed at its cell, and the connections that come
/// from connecting the given pairs.
pub open spec fn consists_of(
    s: BuilderState,
    gates: Seq<(Terms, Cell)>,
    pairs: Seq<(Cell, Cell)>,
) -> bool {
    &&& s.gates.len() == gates.len()
    &&& forall|i: int|
        0 <= i < gates.len() ==> (#[trigger] s.gates[i]) == placed_gate(gates[i].0, gates[i].1)
    &&& s.nodes == nodes_of(pairs)
}

/// The inputs that are present, each with the cell that it is connected to.
pub open spec fn input_pairs(inputs: Seq<Option<Cell>>, cells: Seq<Cell>) -> Seq<(Cell, Cell)>
    decreases inputs.len(),
{
    if inputs.len() == 0 {
        Seq::empty()
    } else {
        let before = input_pairs(inputs.drop_last(), cells);
        match inputs.last() {
            Some(input) => before.push((input, cells[inputs.len() - 1])),
            None => before,
        }
    }
}

/// A new circuit holds no gates and no connections.
pub proof fn law_history_starts(s: BuilderState)
    requires
        s.gates.len() == 0,
        s.nodes.len() == 0,
    ensures
        consists_of(s, Seq::empty(), Seq::empty()),
{
    assert(s.nodes =~= nodes_of(Seq::<(Cell, Cell)>::empty()));
}

/// Adding a gate places its constraint, and connects nothing.
pub proof fn law_history_gate(
    before: BuilderState,
    after: BuilderState,
    gates: Seq<(Terms, Cell)>,
    pairs: Seq<(Cell, Cell)>,
    root: Cell,
    t: Terms,
)
    requires
        consists_of(before, gates, pairs),
        gate_added(before, after, root, t),
    ensures
        consists_of(after, gates.push((t, root)), pairs),
{
}

/// A NOP gate is one without a constraint.
pub proof fn law_history_nop_gate(
    before: BuilderState,
    after: BuilderState,
    gates: Seq<(Terms, Cell)>,
    pairs: Seq<(Cell, Cell)>,
    root: Cell,
    n: int,
)
    requires
        consists_of(before, gates, pairs),
        nop_gate_added(before, after, root, n),
    ensures
        consists_of(after, gates.push((Seq::empty(), root)), pairs),
{
    let t: Terms = Seq::empty();
    assert forall|v: Variable| !#[trigger] terms_have(t, v) by {}
    lemma_min_column_unique(t, 0, 0);
    assert(shift_terms(t, -min_column(t)) =~= t);
    assert(placed_gate(t, root) == (t, root));
}

/// Connecting two cells adds their pair, and places nothing.
pub proof fn law_history_connection(
    before: BuilderState,
    after: BuilderState,
    gates: Seq<(Terms, Cell)>,
    pairs: Seq<(Cell, Cell)>,
    a: Cell,
    b: Cell,
)
    requires
        consists_of(before, gates, pairs),
        after.gates == before.gates,
        after.nodes == connect_sets(before.nodes, a, b),
    ensures
        consists_of(after, gates, pairs.push((a, b))),
{
    assert(pairs.push((a, b)).drop_last() =~= pairs);
}

/// Connecting the inputs that are present adds their pairs.
pub proof fn lemma_connect_all(
    pairs: Seq<(Cell, Cell)>,
    inputs: Seq<Option<Cell>>,
    cells: Seq<Cell>,
)
    ensures
        connect_all(nodes_of(pairs), inputs, cells) == nodes_of(pairs + input_pairs(inputs, cells)),
    decreases inputs.len(),
{
    let all = pairs + input_pairs(inputs, cells);
    if inputs.len() == 0 {
        assert(all =~= pairs);
    } else {
        let before = input_pairs(inputs.drop_last(), cells);
        lemma_connect_all(pairs, inputs.drop_last(), cells);
        if inputs.last() is Some {
            assert(all.drop_last() =~= pairs + before);
            assert(all.last() == (inputs.last()->0, cells[inputs.len() - 1]));
        }
    }
}

/// An automatic gate connects the inputs that are present and places its constraint in the next
/// unused row.
pub proof fn law_history_auto_gate(
    before: BuilderState,
    after: BuilderState,
    gates: Seq<(Terms, Cell)>,
    pairs: Seq<(Cell, Cell)>,
    frame: Frame,
    t: Terms,
    inputs: Seq<Option<Cell>>,
    cells: Seq<Cell>,
)
    requires
        consists_of(before, gates, pairs),
        auto_gate_added(before, after, frame, t, inputs, cells),
    ensures
        consists_of(
            after,
            gates.push((t, next_cell(frame))),
            pairs + input_pairs(inputs, cells),
        ),
{
    lemma_connect_all(pairs, inputs, cells);
}

/// The lowest column index of a shifted constraint.
proof fn lemma_shifted_min(t: Terms, offset: int)
    requires
        shiftable(t, 0),
        shiftable(t, offset),
        exists|v: Variable| terms_have(t, v),
    ensures
        min_column(shift_terms(t, offset)) == min_column(t) + offset,
        is_min_column(t, min_column(t)),
{
    let u = shift_terms(t, offset);
    let some = choose|v: Variable| terms_have(t, v);
    lemma_min_exists(t);
    let m = min_column(t);
    let v = choose|v: Variable| #[trigger] terms_have(t, v) && v.column_index == m;
    assert(terms_have(t, some));
    lemma_shifted_have(t, offset, v);
    let w = shift_variable(v, offset);
    assert(terms_have(u, w) && w.column_index == m + offset);
    assert forall|x: Variable| #[trigger] terms_have(u, x) implies m + offset <= x.column_index by {
        lemma_shifted_have(t, offset, x);
        let y = choose|y: Variable| #[trigger] terms_have(t, y) && x == shift_variable(y, offset);
        assert(m <= y.column_index);
    }
    assert(is_min_column(u, m + offset));
    lemma_min_column_unique(u, m + offset, m + offset);
}

/// Every constraint has a lowest column index.
pub proof fn lemma_min_exists(t: Terms)
    ensures
        is_min_column(t, min_column(t)),
{
    if exists|v: Variable| terms_have(t, v) {
        let v = choose|v: Variable| terms_have(t, v);
        lemma_min_below(t, v, v.column_index as nat);
    } else {
        assert(is_min_column(t, 0));
    }
}

/// A lowest column index is not above that of a given variable.
proof fn lemma_min_below(t: Terms, v: Variable, n: nat)
    requires
        terms_have(t, v),
        v.column_index == n,
    ensures
        is_min_column(t, min_column(t)),
    decreases n,
{
    if exists|u: Variable| #[trigger] terms_have(t, u) && u.column_index < n {
        let u = choose|u: Variable| #[trigger] terms_have(t, u) && u.column_index < n;
        lemma_min_below(t, u, u.column_index as nat);
    } else {
        assert(is_min_column(t, n as int));
    }
}

/// Placing a constraint whose columns are shifted is the same as placing the constraint itself at a
/// cell that is shifted by as many columns. The constraint must have a variable.
pub proof fn law_shifted_gate(
    before: BuilderState,
    shifted: BuilderState,
    raw: BuilderState,
    root: Cell,
    t: Terms,
    offset: int,
)
    requires
        shiftable(t, 0),
        shiftable(t, offset),
        exists|v: Variable| terms_have(t, v),
        0 <= root.column + offset <= usize::MAX,
        gate_added(before, shifted, root, shift_terms(t, offset)),
        gate_added(
            before,
            raw,
            Cell { row: root.row, column: (root.column + offset) as usize },
            t,
        ),
    ensures
        shifted == raw,
{
    let u = shift_terms(t, offset);
    let m = min_column(t);
    lemma_shifted_min(t, offset);
    let (x, y) = (shift_terms(u, -min_column(u)), shift_terms(t, -m));
    assert forall|i: int| 0 <= i < t.len() implies #[trigger] x[i] == y[i] by {
        assert forall|j: int| 0 <= j < t[i].0.len() implies #[trigger] x[i].0[j] == y[i].0[j] by {
            let v = t[i].0[j].0;
            assert(mono_has(t[i].0, v));
            assert(terms_have(t, v));
            assert(u[i].0[j].0 == shift_variable(v, offset));
        }
        assert(x[i].0 =~= y[i].0);
    }
    assert(x =~= y);
    assert forall|v: Variable| #[trigger] terms_have(t, v) implies terms_have(
        u,
        shift_variable(v, offset),
    ) by {
        lemma_shifted_have(t, offset, v);
    }
    assert forall|w: Variable| #[trigger] terms_have(u, w) implies exists|v: Variable| #[trigger]
        terms_have(t, v) && w == shift_variable(v, offset) by {
        lemma_shifted_have(t, offset, w);
    }
    assert(shifted.rows == raw.rows);
    assert(shifted.columns == raw.columns);
    assert(shifted.gates =~= raw.gates);
}

/// Expressions have the same value under assignments that agree on their variables.
pub proof fn lemma_same_value(
    t: Terms,
    s: spec_fn(Variable) -> int,
    u: spec_fn(Variable) -> int,
    p: int,
)
    requires
        forall|v: Variable| #[trigger] terms_have(t, v) ==> s(v) == u(v),
    ensures
        terms_value(t, s, p) == terms_value(t, u, p),
{
    let f = |m: Mono| mono_value(m, s, p);
    let g = |m: Mono| mono_value(m, u, p);
    assert forall|i: int| 0 <= i < t.len() implies f((#[trigger] t[i]).0) == g(t[i].0) by {
        let m = t[i].0;
        assert forall|j: int| 0 <= j < m.len() implies s((#[trigger] m[j]).0) == u(m[j].0) by {
            assert(mono_has(t[i].0, m[j].0));
            assert(terms_have(t, m[j].0));
        }
        lemma_same_mono_value(m, s, u, p);
    }
    lemma_weighted_eq(t, f, g);
}

/// Monomials have the same value under assignments that agree on their variables.
proof fn lemma_same_mono_value(
    m: Mono,
    s: spec_fn(Variable) -> int,
    u: spec_fn(Variable) -> int,
    p: int,
)
    requires
        forall|j: int| 0 <= j < m.len() ==> s((#[trigger] m[j]).0) == u(m[j].0),
    ensures
        mono_value(m, s, p) == mono_value(m, u, p),
    decreases m.len(),
{
    if m.len() > 0 {
        let init = m.drop_last();
        assert forall|j: int| 0 <= j < init.len() implies s((#[trigger] init[j]).0) == u(
            init[j].0,
        ) by {
            assert(init[j] == m[j]);
        }
        lemma_same_mono_value(init, s, u, p);
        assert(s(m[m.len() - 1].0) == u(m[m.len() - 1].0));
    }
}

/// A placed constraint has the value of the constraint itself at the cell where it was placed.
proof fn lemma_placed_value(t: Terms, root: Cell, table: Seq<Seq<int>>)
    requires
        gate_placeable(t, root),
    ensures
        terms_value(
            placed_gate(t, root).0,
            gate_valuation(
                table,
                placed_gate(t, root).1.row as int,
                placed_gate(t, root).1.column as int,
            ),
            Scalar::modulus(),
        ) == terms_value(
            t,
            gate_valuation(table, root.row as int, root.column as int),
            Scalar::modulus(),
        ),
        terms_defined(
            t,
            gate_valuation(table, root.row as int, root.column as int),
            Scalar::modulus(),
        ) ==> terms_defined(
            placed_gate(t, root).0,
            gate_valuation(
                table,
                placed_gate(t, root).1.row as int,
                placed_gate(t, root).1.column as int,
            ),
            Scalar::modulus(),
        ),
{
    let p = Scalar::modulus();
    let m = min_column(t);
    lemma_min_exists(t);
    let (u, cell) = placed_gate(t, root);
    let s = gate_valuation(table, root.row as int, root.column as int);
    let w = gate_valuation(table, cell.row as int, cell.column as int);
    let back = |v: Variable| w(shift_variable(v, -m));
    lemma_shift_value(t, -m, w, p);
    assert forall|v: Variable| #[trigger] terms_have(t, v) implies back(v) == s(v) by {
        assert(m <= v.column_index);
        assert(0 <= m);
    }
    lemma_same_value(t, back, s, p);
    if terms_defined(t, s, p) {
        assert forall|i: int| 0 <= i < u.len() implies mono_defined((#[trigger] u[i]).0, w, p) by {
            assert(mono_defined(t[i].0, s, p));
            assert forall|j: int| 0 <= j < u[i].0.len() implies (#[trigger] u[i].0[j]).1 >= 0
                || invertible(w(u[i].0[j].0), p) by {
                let v = t[i].0[j].0;
                assert(mono_has(t[i].0, v));
                assert(terms_have(t, v));
                assert(back(v) == s(v));
            }
        }
    }
}

/// What a circuit asks of a constraint placed at `root`: the compiled constraint, which is the
/// canonical form where constraints are canonicalized, is satisfied there.
pub open spec fn gate_demanded(
    t: Terms,
    root: Cell,
    table: Seq<Seq<int>>,
    canonicalize: bool,
) -> bool {
    let (u, cell) = placed_gate(t, root);
    if canonicalize {
        forall|r: Terms| #[trigger]
            is_canonical_form(r, u, Scalar::modulus()) ==> gate_holds(
                r,
                table,
                cell.row as int,
                cell.column as int,
            )
    } else {
        gate_holds(u, table, cell.row as int, cell.column as int)
    }
}

/// The constraint has a canonical form.
pub open spec fn has_canonical_form(t: Terms) -> bool {
    exists|r: Terms| is_canonical_form(r, t, Scalar::modulus())
}

/// Where a constraint is defined, a circuit asks that the constraint itself is satisfied.
pub proof fn law_gate_demanded(
    t: Terms,
    root: Cell,
    table: Seq<Seq<int>>,
    canonicalize: bool,
)
    requires
        gate_placeable(t, root),
        canonicalize ==> {
            &&& has_canonical_form(placed_gate(t, root).0)
            &&& forall|i: int| 0 <= i < t.len() ==> mono_wf((#[trigger] t[i]).0)
            &&& terms_defined(
                t,
                gate_valuation(table, root.row as int, root.column as int),
                Scalar::modulus(),
            )
        },
    ensures
        gate_demanded(t, root, table, canonicalize) <==> gate_holds(
            t,
            table,
            root.row as int,
            root.column as int,
        ),
{
    let p = Scalar::modulus();
    Scalar::lemma_modulus();
    let (u, cell) = placed_gate(t, root);
    lemma_placed_value(t, root, table);
    if canonicalize {
        let w = gate_valuation(table, cell.row as int, cell.column as int);
        lemma_min_exists(t);
        let m = min_column(t);
        assert forall|i: int| 0 <= i < u.len() implies mono_wf((#[trigger] u[i]).0) by {
            assert(mono_wf(t[i].0));
            lemma_shift_mono_wf(t, i, -m);
        }
        assert forall|r: Terms| #[trigger] is_canonical_form(r, u, p) implies (gate_holds(
            r,
            table,
            cell.row as int,
            cell.column as int,
        ) <==> gate_holds(u, table, cell.row as int, cell.column as int)) by {
            let k = choose|k: Mono| is_clearing(k, u);
            assert(is_clearing(k, u));
            law_canonical_form_value(r, u, k, w, p);
        }
        let r = choose|r: Terms| is_canonical_form(r, u, p);
        assert(is_canonical_form(r, u, p));
    }
}

/// Shifting the columns of a monomial keeps it well-formed.
proof fn lemma_shift_mono_wf(t: Terms, i: int, offset: int)
    requires
        0 <= i < t.len(),
        mono_wf(t[i].0),
        shiftable(t, 0),
        shiftable(t, offset),
    ensures
        mono_wf(shift_mono(t[i].0, offset)),
{
    let m = t[i].0;
    let r = shift_mono(m, offset);
    assert forall|j: int| 0 <= j < m.len() implies terms_have(t, (#[trigger] m[j]).0) by {
        assert(mono_has(t[i].0, m[j].0));
    }
    assert forall|j: int, k: int| 0 <= j < k < r.len() implies crate::variable::var_less(
        (#[trigger] r[j]).0,
        (#[trigger] r[k]).0,
    ) by {
        assert(crate::variable::var_less(m[j].0, m[k].0));
        assert(terms_have(t, m[j].0) && terms_have(t, m[k].0));
    }
}

/// The two cells of every pair have the same value.
pub open spec fn pairs_agree(pairs: Seq<(Cell, Cell)>, table: Seq<Seq<int>>) -> bool {
    forall|k: int|
        0 <= k < pairs.len() ==> cell_value(table, (#[trigger] pairs[k]).0) == cell_value(
            table,
            pairs[k].1,
        )
}

/// The cells of all pairs are in the given number of rows.
pub open spec fn pairs_within(pairs: Seq<(Cell, Cell)>, rows: int) -> bool {
    forall|k: int|
        0 <= k < pairs.len() ==> (#[trigger] pairs[k]).0.row < rows && pairs[k].1.row < rows
}

/// The ends of a chain have the same value if the cells of every pair have.
proof fn lemma_chain_agrees(
    pairs: Seq<(Cell, Cell)>,
    table: Seq<Seq<int>>,
    path: Seq<Cell>,
    n: int,
)
    requires
        pairs_agree(pairs, table),
        0 <= n < path.len(),
        forall|i: int|
            0 <= i < path.len() - 1 ==> joined(pairs, #[trigger] path[i], path[i + 1]),
    ensures
        cell_value(table, path[0]) == cell_value(table, path[n]),
    decreases n,
{
    if n > 0 {
        lemma_chain_agrees(pairs, table, path, n - 1);
        let (x, y) = (path[n - 1], path[n - 1 + 1]);
        assert(joined(pairs, x, y));
        let k = choose|k: int|
            0 <= k < pairs.len() && (#[trigger] pairs[k] == (x, y) || pairs[k] == (y, x));
        assert(cell_value(table, pairs[k].0) == cell_value(table, pairs[k].1));
    }
}

/// The lists of the cells that were connected, directly or not, agree if and only if all pairs do.
proof fn lemma_lists_agree(
    pairs: Seq<(Cell, Cell)>,
    lists: Seq<Seq<Cell>>,
    table: Seq<Seq<int>>,
)
    requires
        lists_sets(lists, nodes_of(pairs)),
    ensures
        lists_agree(lists, table) <==> pairs_agree(pairs, table),
{
    let nodes = nodes_of(pairs);
    law_nodes_partition(pairs);
    if pairs_agree(pairs, table) {
        assert forall|i: int, j: int, k: int, c: Cell, d: Cell|
            #[trigger] stands_at(lists, i, j, c) && #[trigger] stands_at(
                lists,
                i,
                k,
                d,
            ) implies cell_value(table, c) == cell_value(table, d) by {
            lemma_listed(lists, nodes, i, j, c);
            lemma_listed(lists, nodes, i, k, d);
            assert(connected(nodes, c, d));
            law_nodes_are_chains(pairs, c, d);
            let path = choose|path: Seq<Cell>| #[trigger] is_chain(pairs, path, c, d);
            lemma_chain_agrees(pairs, table, path, path.len() - 1);
        }
    }
    if lists_agree(lists, table) {
        assert forall|k: int| 0 <= k < pairs.len() implies cell_value(
            table,
            (#[trigger] pairs[k]).0,
        ) == cell_value(table, pairs[k].1) by {
            let (c, d) = pairs[k];
            let path = seq![c, d];
            assert(joined(pairs, c, d));
            assert(is_chain(pairs, path, c, d));
            assert(linked(pairs, c, d));
            law_nodes_are_chains(pairs, c, d);
            if c != d {
                let i = choose|i: int| #[trigger] belongs(nodes, i, c) && belongs(nodes, i, d);
                assert(lists[i].to_set().contains(c) && lists[i].to_set().contains(d));
                let x = choose|x: int| 0 <= x < lists[i].len() && lists[i][x] == c;
                let y = choose|y: int| 0 <= y < lists[i].len() && lists[i][y] == d;
                assert(stands_at(lists, i, x, c) && stands_at(lists, i, y, d));
            }
        }
    }
}

/// A listed cell belongs to the node with the same index.
proof fn lemma_listed(lists: Seq<Seq<Cell>>, nodes: Seq<Set<Cell>>, i: int, j: int, c: Cell)
    requires
        lists_sets(lists, nodes),
        stands_at(lists, i, j, c),
    ensures
        belongs(nodes, i, c),
        present(nodes, c),
{
    assert(lists[i].contains(c));
    assert(lists[i].to_set().contains(c));
    assert(belongs(nodes, i, c));
}

/// What a compiled circuit asks of a table.
proof fn lemma_satisfied(
    state: BuilderState,
    gates: Seq<(Terms, Cell)>,
    pairs: Seq<(Cell, Cell)>,
    canonicalize: bool,
    circuit: Circuit,
    table: Seq<Seq<int>>,
)
    requires
        consists_of(state, gates, pairs),
        pairs_within(pairs, state.rows),
        exists|lists: Seq<Seq<Cell>>| #[trigger]
            lists_sets(lists, state.nodes) && is_build_result(
                Ok::<Circuit, BuildError>(circuit),
                state.rows,
                state.columns,
                state.gates,
                lists,
                state.public_rows,
                canonicalize,
            ),
    ensures
        circuit.model().gates_hold(table) <==> forall|i: int|
            0 <= i < gates.len() ==> gate_demanded(
                (#[trigger] gates[i]).0,
                gates[i].1,
                table,
                canonicalize,
            ),
        circuit.model().wires_hold(table) <==> pairs_agree(pairs, table),
        circuit.model().wires_within(),
        circuit.model().rows == state.rows,
        circuit.model().columns == state.columns,
        canonicalize ==> forall|i: int|
            0 <= i < gates.len() ==> has_canonical_form(
                placed_gate((#[trigger] gates[i]).0, gates[i].1).0,
            ),
{
    let p = Scalar::modulus();
    Scalar::lemma_modulus();
    let m = circuit.model();
    let lists = choose|lists: Seq<Seq<Cell>>| #[trigger]
        lists_sets(lists, state.nodes) && is_build_result(
            Ok::<Circuit, BuildError>(circuit),
            state.rows,
            state.columns,
            state.gates,
            lists,
            state.public_rows,
            canonicalize,
        );
    let compiled = choose|compiled: Seq<(Terms, Cell)>| #[trigger]
        compiled_gates(state.gates, compiled, canonicalize) && is_compilation(
            m,
            state.rows,
            state.columns,
            compiled,
            lists,
            state.public_rows,
        );
    law_gates_hold(m, compiled, table);
    assert forall|i: int| 0 <= i < gates.len() implies (gate_demanded(
        (#[trigger] gates[i]).0,
        gates[i].1,
        table,
        canonicalize,
    ) <==> gate_holds(
        compiled[i].0,
        table,
        compiled[i].1.row as int,
        compiled[i].1.column as int,
    )) && (canonicalize ==> has_canonical_form(placed_gate(gates[i].0, gates[i].1).0)) by {
        assert(state.gates[i] == placed_gate(gates[i].0, gates[i].1));
        let u = state.gates[i].0;
        assert(compiled[i].1 == state.gates[i].1);
        if canonicalize {
            assert(is_canonical_form(compiled[i].0, u, p));
            assert forall|r: Terms| #[trigger] is_canonical_form(r, u, p) implies r
                == compiled[i].0 by {
                let k = choose|k: Mono| is_clearing(k, u);
                assert(is_clearing(k, u));
                crate::laws::law_normal_form_unique(
                    r,
                    compiled[i].0,
                    crate::terms::product_terms(u, seq![(k, 1int)]),
                    p,
                );
            }
        }
    }
    if forall|i: int|
        0 <= i < gates.len() ==> gate_demanded(
            (#[trigger] gates[i]).0,
            gates[i].1,
            table,
            canonicalize,
        ) {
        assert forall|i: int| 0 <= i < compiled.len() implies gate_holds(
            (#[trigger] compiled[i]).0,
            table,
            compiled[i].1.row as int,
            compiled[i].1.column as int,
        ) by {
            assert(gate_demanded(gates[i].0, gates[i].1, table, canonicalize));
        }
    }
    assert(lists_fit(lists, m.rows, m.columns)) by {
        assert forall|i: int, j: int, c: Cell| #[trigger] stands_at(lists, i, j, c) implies c.row
            < m.rows && c.column < m.columns by {
            lemma_listed(lists, state.nodes, i, j, c);
            law_nodes_partition(pairs);
            assert(present(nodes_of(pairs), c));
            assert(mentioned(pairs, c));
            let k = choose|k: int|
                0 <= k < pairs.len() && ((#[trigger] pairs[k]).0 == c || pairs[k].1 == c);
            assert(pairs[k].0.row < state.rows && pairs[k].1.row < state.rows);
        }
    }
    law_wires_hold(m, lists, table);
    lemma_lists_agree(pairs, lists, table);
}

/// A circuit that is built has the dimensions and the revealed rows of the builder, and no cell in the
/// blinding rows or the padding is connected to another one if all connected cells are in the
/// circuit's rows.
pub proof fn law_built_circuit(
    state: BuilderState,
    gates: Seq<(Terms, Cell)>,
    pairs: Seq<(Cell, Cell)>,
    canonicalize: bool,
    circuit: Circuit,
)
    requires
        consists_of(state, gates, pairs),
        pairs_within(pairs, state.rows),
        exists|lists: Seq<Seq<Cell>>| #[trigger]
            lists_sets(lists, state.nodes) && is_build_result(
                Ok::<Circuit, BuildError>(circuit),
                state.rows,
                state.columns,
                state.gates,
                lists,
                state.public_rows,
                canonicalize,
            ),
    ensures
        circuit.model().wf(),
        circuit.model().rows == state.rows,
        circuit.model().columns == state.columns,
        circuit.model().public_rows == state.public_rows,
        circuit.model().wires_within(),
{
    lemma_satisfied(state, gates, pairs, canonicalize, circuit, Seq::empty());
    let lists = choose|lists: Seq<Seq<Cell>>| #[trigger]
        lists_sets(lists, state.nodes) && is_build_result(
            Ok::<Circuit, BuildError>(circuit),
            state.rows,
            state.columns,
            state.gates,
            lists,
            state.public_rows,
            canonicalize,
        );
}

/// The dimensions of a witness are those of a circuit.
pub open spec fn dimensions_match(m: CircuitModel, witness: Witness) -> bool {
    &&& witness.spec_num_rows() == m.rows
    &&& witness.table().len() == m.columns
    &&& witness.spec_degree_bound() == m.size
}

/// A witness passes the check if and only if it has the dimensions of the circuit, every constraint
/// that was placed in the circuit is satisfied as the circuit asks for, and the two cells of every
/// pair that was connected have the same value. The connected cells must be in the circuit's rows.
pub proof fn law_check_witness(
    state: BuilderState,
    gates: Seq<(Terms, Cell)>,
    pairs: Seq<(Cell, Cell)>,
    canonicalize: bool,
    circuit: Circuit,
    witness: Witness,
    ret: Result<(), WitnessError>,
)
    requires
        consists_of(state, gates, pairs),
        pairs_within(pairs, state.rows),
        exists|lists: Seq<Seq<Cell>>| #[trigger]
            lists_sets(lists, state.nodes) && is_build_result(
                Ok::<Circuit, BuildError>(circuit),
                state.rows,
                state.columns,
                state.gates,
                lists,
                state.public_rows,
                canonicalize,
            ),
        is_check_result(ret, circuit.model(), witness),
    ensures
        ret is Ok <==> {
            &&& dimensions_match(circuit.model(), witness)
            &&& forall|i: int|
                0 <= i < gates.len() ==> gate_demanded(
                    (#[trigger] gates[i]).0,
                    gates[i].1,
                    witness.table(),
                    canonicalize,
                )
            &&& pairs_agree(pairs, witness.table())
        },
{
    let m = circuit.model();
    let table = witness.table();
    lemma_satisfied(state, gates, pairs, canonicalize, circuit, table);
    match ret {
        Ok(_) => {},
        Err(WitnessError::Gate { constraint, row, column }) => {
            if dimensions_match(m, witness) && m.gates_hold(table) {
                let (g, i) = choose|g: int, i: int|
                    0 <= g < m.gates.len() && 0 <= i < m.active[m.gates[g].selector].len()
                        && !#[trigger] crate::checking::gate_passes(m, table, g, i);
                assert(gate_holds(
                    m.gates[g].terms,
                    table,
                    m.active[m.gates[g].selector][i] as int,
                    m.gates[g].column,
                ));
            }
        },
        Err(WitnessError::Wire { source, source_value, target, target_value }) => {
            if dimensions_match(m, witness) && m.wires_hold(table) {
                assert(cell_value(table, source) == cell_value(table, m.target(source)));
            }
        },
        Err(_) => {},
    }
}

/// A witness under which all constraints are defined passes the check if and only if it has the
/// dimensions of the circuit, every constraint is satisfied at the cell where it was placed, and the
/// two cells of every pair that was connected have the same value.
pub proof fn law_check_witness_constraints(
    state: BuilderState,
    gates: Seq<(Terms, Cell)>,
    pairs: Seq<(Cell, Cell)>,
    canonicalize: bool,
    circuit: Circuit,
    witness: Witness,
    ret: Result<(), WitnessError>,
)
    requires
        consists_of(state, gates, pairs),
        pairs_within(pairs, state.rows),
        forall|i: int|
            0 <= i < gates.len() ==> {
                &&& gate_placeable((#[trigger] gates[i]).0, gates[i].1)
                &&& forall|j: int| 0 <= j < gates[i].0.len() ==> mono_wf((#[trigger] gates[i].0[j]).0)
                &&& terms_defined(
                    gates[i].0,
                    gate_valuation(
                        witness.table(),
                        gates[i].1.row as int,
                        gates[i].1.column as int,
                    ),
                    Scalar::modulus(),
                )
            },
        exists|lists: Seq<Seq<Cell>>| #[trigger]
            lists_sets(lists, state.nodes) && is_build_result(
                Ok::<Circuit, BuildError>(circuit),
                state.rows,
                state.columns,
                state.gates,
                lists,
                state.public_rows,
                canonicalize,
            ),
        is_check_result(ret, circuit.model(), witness),
    ensures
        ret is Ok <==> {
            &&& dimensions_match(circuit.model(), witness)
            &&& forall|i: int|
                0 <= i < gates.len() ==> gate_holds(
                    (#[trigger] gates[i]).0,
                    witness.table(),
                    gates[i].1.row as int,
                    gates[i].1.column as int,
                )
            &&& pairs_agree(pairs, witness.table())
        },
{
    let table = witness.table();
    lemma_satisfied(state, gates, pairs, canonicalize, circuit, table);
    law_check_witness(state, gates, pairs, canonicalize, circuit, witness, ret);
    assert forall|i: int| 0 <= i < gates.len() implies (gate_demanded(
        (#[trigger] gates[i]).0,
        gates[i].1,
        table,
        canonicalize,
    ) <==> gate_holds(gates[i].0, table, gates[i].1.row as int, gates[i].1.column as int)) by {
        law_gate_demanded(gates[i].0, gates[i].1, table, canonicalize);
    }
}

} // verus!
