//! Construction of circuits.
use crate::cell::{Cell, CellOffset};
use crate::expr::{shiftable, variables_sorted, Constraint};
use crate::field::{Field, Scalar};
use crate::grouping::copy_rows;
use crate::model::gate_fits;
use crate::partition::{connect_sets, node_sets, sorted, Partition};
use crate::permutation::{lemma_no_repeats, lists_sets, node_lists};
use crate::plonk::{compile, is_build_result, BuildError, Circuit, CompilationOptions};
use crate::terms::{mono_has, shift_terms, terms_have, terms_wf, Mono, Terms};
use crate::variable::{shift_variable, Variable};
use crate::witness::Partitioner;
use vstd::array::array_fill_for_copy_types;
use vstd::prelude::*;

verus! {

/// `m` is the lowest column index of the variables of `t`, or 0 if there are none.
pub open spec fn is_min_column(t: Terms, m: int) -> bool {
    &&& forall|v: Variable| #[trigger] terms_have(t, v) ==> m <= v.column_index
    &&& (exists|v: Variable| #[trigger] terms_have(t, v) && v.column_index == m) || (m == 0
        && forall|v: Variable| !#[trigger] terms_have(t, v))
}

/// The lowest column index of the variables of `t`, or 0 if there are none.
pub open spec fn min_column(t: Terms) -> int {
    choose|m: int| is_min_column(t, m)
}

/// `r` is the smallest number of rows that is not smaller than `before` and holds a gate placed at
/// `row`.
pub open spec fn is_row_extent(r: int, before: int, row: int, t: Terms) -> bool {
    &&& before <= r
    &&& row < r
    &&& forall|v: Variable| #[trigger] terms_have(t, v) ==> row + v.rotation < r
    &&& r == before || r == row + 1 || exists|v: Variable| #[trigger]
        terms_have(t, v) && r == row + v.rotation + 1
}

/// `r` is the smallest number of columns that is not smaller than `before` and holds a gate placed
/// at `column`.
pub open spec fn is_column_extent(r: int, before: int, column: int, t: Terms) -> bool {
    &&& before <= r
    &&& column + min_column(t) < r
    &&& forall|v: Variable| #[trigger] terms_have(t, v) ==> column + v.column_index < r
    &&& r == before || r == column + min_column(t) + 1 || exists|v: Variable| #[trigger]
        terms_have(t, v) && r == column + v.column_index + 1
}

/// A gate can be placed at `root`.
pub open spec fn gate_placeable(t: Terms, root: Cell) -> bool {
    &&& shiftable(t, 0)
    &&& root.row < usize::MAX
    &&& root.column + min_column(t) < isize::MAX
    &&& forall|v: Variable| #[trigger]
        terms_have(t, v) ==> 0 <= root.row + v.rotation < usize::MAX && root.column + v.column_index
            < isize::MAX
}

/// The contents of a circuit that is being built.
pub ghost struct BuilderState {
    /// The number of rows.
    pub rows: int,
    /// The number of columns.
    pub columns: int,
    /// The row at which the next automatic gate is placed.
    pub counter: int,
    /// The gates, each with the cell where it is placed. The lowest column index of every constraint
    /// is 0.
    pub gates: Seq<(Terms, Cell)>,
    /// The sets of connected cells.
    pub nodes: Seq<Set<Cell>>,
    /// The rows that are revealed in the proofs, in order.
    pub public_rows: Seq<usize>,
}

/// `after` is `before` with a gate placed at `root`.
pub open spec fn gate_added(before: BuilderState, after: BuilderState, root: Cell, t: Terms) -> bool {
    &&& after.gates == before.gates.push(
        (
            shift_terms(t, -min_column(t)),
            Cell { row: root.row, column: (root.column + min_column(t)) as usize },
        ),
    )
    &&& is_row_extent(after.rows, before.rows, root.row as int, t)
    &&& is_column_extent(after.columns, before.columns, root.column as int, t)
    &&& after.counter == before.counter
    &&& after.nodes == before.nodes
    &&& after.public_rows == before.public_rows
}

/// The nodes after cells were connected to others; cells that are missing are not connected.
pub open spec fn connect_all(
    nodes: Seq<Set<Cell>>,
    inputs: Seq<Option<Cell>>,
    cells: Seq<Cell>,
) -> Seq<Set<Cell>>
    decreases inputs.len(),
{
    if inputs.len() == 0 {
        nodes
    } else {
        let before = connect_all(nodes, inputs.drop_last(), cells);
        match inputs.last() {
            Some(input) => connect_sets(before, input, cells[inputs.len() - 1]),
            None => before,
        }
    }
}

/// `s` is the ordered list of the variables of `t`.
pub open spec fn is_variable_list(s: Seq<Variable>, t: Terms) -> bool {
    &&& variables_sorted(s)
    &&& forall|v: Variable| #[trigger] s.contains(v) <==> terms_have(t, v)
}

/// The cells that variables stand for when a gate is placed at `root`.
pub open spec fn variable_cells(s: Seq<Variable>, root: Cell) -> Seq<Cell> {
    Seq::new(s.len(), |i: int| s[i].spec_map_to_cell(root))
}

/// The number of rows and columns that a gate's shifted constraint spans.
pub proof fn lemma_shifted_have(t: Terms, offset: int, v: Variable)
    requires
        shiftable(t, offset),
        shiftable(t, 0),
    ensures
        terms_have(shift_terms(t, offset), v) ==> exists|u: Variable| #[trigger]
            terms_have(t, u) && v == shift_variable(u, offset),
        terms_have(t, v) ==> terms_have(shift_terms(t, offset), shift_variable(v, offset)),
{
    let s = shift_terms(t, offset);
    if terms_have(s, v) {
        let i = choose|i: int| 0 <= i < s.len() && mono_has((#[trigger] s[i]).0, v);
        let m = s[i].0;
        let j = choose|j: int| 0 <= j < m.len() && (#[trigger] m[j]).0 == v;
        let u = t[i].0[j].0;
        assert(mono_has(t[i].0, u));
        assert(terms_have(t, u));
        assert(v == shift_variable(u, offset));
    }
    if terms_have(t, v) {
        let i = choose|i: int| 0 <= i < t.len() && mono_has((#[trigger] t[i]).0, v);
        let m = t[i].0;
        let j = choose|j: int| 0 <= j < m.len() && (#[trigger] m[j]).0 == v;
        let w = shift_variable(v, offset);
        assert(s[i].0[j].0 == w);
        assert(mono_has(s[i].0, w));
        assert(terms_have(s, w));
    }
}

/// Allows building PLONK circuits.
#[derive(Debug)]
pub struct CircuitBuilder {
    /// Current number of rows in the circuit.
    num_rows: usize,
    /// Current number of columns in the circuit.
    num_columns: usize,
    /// Used by [`CircuitView::auto_gate`] to keep track of the current row.
    row_counter: usize,
    /// The gates of the circuit, each with its "root cell": the row of the root cell corresponds to
    /// rotation 0 of all variables referenced by the constraint, and the column is that of the
    /// variables with column index 0.
    ///
    /// NOTE: in order to minimize the number of different gate types stored in a circuit, the
    /// lowest column index of every constraint is 0.
    gates: Vec<(Constraint<Scalar>, Cell)>,
    /// Cell partitioning inferred from the connections made with [`CircuitView::connect`].
    partitioner: Partitioner,
    /// List of rows that are revealed in the proofs.
    public_rows: Vec<usize>,
}

/// The constraints and root cells of a list of gates.
pub open spec fn gates_of(gates: Seq<(Constraint<Scalar>, Cell)>) -> Seq<(Terms, Cell)> {
    Seq::new(gates.len(), |i: int| (gates[i].0@, gates[i].1))
}

/// A gate is in normal form and spans rows and columns that the circuit has.
pub open spec fn built_gate_wf(g: (Terms, Cell), rows: int, columns: int) -> bool {
    &&& terms_wf(g.0, Scalar::modulus())
    &&& shiftable(g.0, 0)
    &&& shiftable(g.0, g.1.column as int)
    &&& g.1.row < rows
    &&& g.1.column < columns
    &&& g.1.column < isize::MAX
    &&& gate_fits(g.0, g.1.row as int, g.1.column as int, rows, columns)
}

impl CircuitBuilder {
    /// The contents of the circuit.
    pub closed spec fn state(self) -> BuilderState {
        BuilderState {
            rows: self.num_rows as int,
            columns: self.num_columns as int,
            counter: self.row_counter as int,
            gates: gates_of(self.gates@),
            nodes: self.partitioner@,
            public_rows: self.public_rows@,
        }
    }

    /// All gates span rows and columns that the circuit has, and the revealed rows are ordered.
    #[verifier::type_invariant]
    pub closed spec fn wf(self) -> bool {
        &&& forall|i: int|
            0 <= i < self.gates@.len() ==> built_gate_wf(
                #[trigger] gates_of(self.gates@)[i],
                self.num_rows as int,
                self.num_columns as int,
            )
        &&& crate::model::rows_sorted(self.public_rows@)
    }

    /// Makes an empty circuit.
    pub fn new() -> (ret: Self)
        ensures
            ret.state() == (BuilderState {
                rows: 0,
                columns: 0,
                counter: 0,
                gates: seq![],
                nodes: seq![],
                public_rows: seq![],
            }),
    {
        let ret = CircuitBuilder {
            num_rows: 0,
            num_columns: 0,
            row_counter: 0,
            gates: Vec::new(),
            partitioner: Partition::new(),
            public_rows: Vec::new(),
        };
        proof {
            assert(gates_of(ret.gates@) =~= seq![]);
        }
        ret
    }

    /// Current number of rows in the circuit.
    pub fn num_rows(&self) -> (ret: usize)
        ensures
            ret == self.state().rows,
    {
        self.num_rows
    }

    /// Current number of columns in the circuit.
    pub fn num_columns(&self) -> (ret: usize)
        ensures
            ret == self.state().columns,
    {
        self.num_columns
    }

    /// Adds a gate to the circuit.
    fn add_gate_internal(&mut self, root_cell: Cell, constraint: Constraint<Scalar>)
        requires
            gate_placeable(constraint@, root_cell),
        ensures
            gate_added(old(self).state(), final(self).state(), root_cell, constraint@),
    {
        let ghost t = constraint@;
        let ghost before = self.state();
        let min_column_index: usize = constraint.get_min_column_index();
        let ghost m = min_column_index as int;
        proof {
            use_type_invariant(&*self);
            use_type_invariant(&constraint);
            assert(is_min_column(t, m));
            lemma_min_column_unique(t, m, min_column(t));
            if exists|v: Variable| #[trigger] terms_have(t, v) && v.column_index == m {
                let v = choose|v: Variable| #[trigger] terms_have(t, v) && v.column_index == m;
                assert(m <= isize::MAX);
            }
            assert forall|v: Variable| #[trigger] terms_have(t, v) implies v.column_index
                <= isize::MAX && 0 <= v.column_index + (-m) <= isize::MAX by {
                assert(m <= v.column_index);
            }
        }
        let root_cell = Cell::new(0, min_column_index).remap(root_cell);
        let variables = constraint.get_free_variables();
        let constraint = constraint.remap_variables(-(min_column_index as isize));
        let row: usize = root_cell.row();
        let column: usize = root_cell.column();
        let ghost base = column - m;
        let mut num_rows: usize = if self.num_rows < row + 1 {
            row + 1
        } else {
            self.num_rows
        };
        let mut num_columns: usize = if self.num_columns < column + 1 {
            column + 1
        } else {
            self.num_columns
        };
        let mut i: usize = 0;
        while i < variables.len()
            invariant
                i <= variables.len(),
                is_variable_list(variables@, t),
                row < usize::MAX,
                column < isize::MAX,
                m == min_column_index,
                base == column - m,
                0 <= base,
                forall|v: Variable| #[trigger]
                    terms_have(t, v) ==> 0 <= row + v.rotation < usize::MAX && base
                        + v.column_index < isize::MAX,
                before.rows <= num_rows,
                row < num_rows,
                forall|k: int| 0 <= k < i ==> row + (#[trigger] variables@[k]).rotation < num_rows,
                num_rows == before.rows || num_rows == row + 1 || exists|v: Variable| #[trigger]
                    terms_have(t, v) && num_rows == row + v.rotation + 1,
                before.columns <= num_columns,
                column < num_columns,
                forall|k: int|
                    0 <= k < i ==> base + (#[trigger] variables@[k]).column_index < num_columns,
                num_columns == before.columns || num_columns == column + 1 || exists|v: Variable|
                    #[trigger]
                    terms_have(t, v) && num_columns == base + v.column_index + 1,
            decreases variables.len() - i,
        {
            let variable = variables[i];
            proof {
                assert(variables@.contains(variable));
                assert(terms_have(t, variable));
            }
            let last_row: usize = if variable.rotation() < 0 {
                row - crate::variable::magnitude(variable.rotation())
            } else {
                row + crate::variable::magnitude(variable.rotation())
            };
            if num_rows < last_row + 1 {
                num_rows = last_row + 1;
            }
            let last_column: usize = (column - min_column_index) + variable.column_index();
            if num_columns < last_column + 1 {
                num_columns = last_column + 1;
            }
            i += 1;
        }
        let ghost shifted = constraint@;
        proof {
            use_type_invariant(&constraint);
            assert forall|v: Variable| #[trigger] terms_have(t, v) implies row + v.rotation
                < num_rows && base + v.column_index < num_columns by {
                assert(variables@.contains(v));
                let k = choose|k: int| 0 <= k < variables@.len() && variables@[k] == v;
                assert(row + variables@[k].rotation < num_rows);
            }
            assert forall|v: Variable| #[trigger] terms_have(shifted, v) implies v.column_index
                <= isize::MAX && v.column_index + column <= isize::MAX && 0 <= row + v.rotation
                < num_rows && column + v.column_index < num_columns by {
                lemma_shifted_have(t, -m, v);
                let u = choose|u: Variable| #[trigger] terms_have(t, u) && v == shift_variable(
                    u,
                    -m,
                );
                assert(terms_have(t, u));
            }
            assert(shiftable(shifted, 0));
            assert(shiftable(shifted, column as int));
            assert(gate_fits(shifted, row as int, column as int, num_rows as int, num_columns as int));
        }
        let ghost old_gates = gates_of(self.gates@);
        proof {
            assert forall|k: int| 0 <= k < self.gates@.len() implies built_gate_wf(
                #[trigger] gates_of(self.gates@)[k],
                num_rows as int,
                num_columns as int,
            ) by {
                assert(built_gate_wf(
                    old_gates[k],
                    self.num_rows as int,
                    self.num_columns as int,
                ));
                let g = old_gates[k];
                assert forall|v: Variable| #[trigger] terms_have(g.0, v) implies 0 <= g.1.row
                    + v.rotation < num_rows && g.1.column + v.column_index < num_columns by {}
            }
            assert forall|k: int| 0 <= k < self.gates@.len() implies built_gate_wf(
                #[trigger] gates_of(self.gates@)[k],
                num_rows as int,
                self.num_columns as int,
            ) by {
                assert(built_gate_wf(
                    old_gates[k],
                    self.num_rows as int,
                    self.num_columns as int,
                ));
                let g = old_gates[k];
                assert forall|v: Variable| #[trigger] terms_have(g.0, v) implies 0 <= g.1.row
                    + v.rotation < num_rows && g.1.column + v.column_index < self.num_columns by {}
            }
        }
        self.num_rows = num_rows;
        self.num_columns = num_columns;
        let mut gates: Vec<(Constraint<Scalar>, Cell)> = Vec::new();
        core::mem::swap(&mut self.gates, &mut gates);
        gates.push((constraint, root_cell));
        proof {
            assert(gates_of(gates@) =~= old_gates.push((shifted, root_cell)));
            assert forall|k: int| 0 <= k < gates@.len() implies built_gate_wf(
                #[trigger] gates_of(gates@)[k],
                num_rows as int,
                num_columns as int,
            ) by {
                if k < old_gates.len() {
                    assert(gates_of(gates@)[k] == old_gates[k]);
                }
            }
        }
        self.gates = gates;
    }

    /// Adds a NOP gate that spans `n` columns.
    fn add_nop_gate_internal(&mut self, root_cell: Cell, n: usize)
        requires
            root_cell.row < usize::MAX,
            root_cell.column < isize::MAX,
            root_cell.column + n <= usize::MAX,
        ensures
            nop_gate_added(old(self).state(), final(self).state(), root_cell, n as int),
    {
        let ghost before = self.state();
        let nop: Constraint<Scalar> = Constraint::nop();
        let ghost t = nop@;
        proof {
            assert(t =~= seq![]);
            assert(is_min_column(t, 0));
            lemma_min_column_unique(t, 0, min_column(t));
        }
        self.add_gate_internal(root_cell, nop);
        proof {
            assert(shift_terms(t, -min_column(t)) =~= Seq::<(Mono, int)>::empty());
            use_type_invariant(&*self);
        }
        let last: usize = root_cell.column() + n;
        if self.num_columns < last {
            let ghost gates = gates_of(self.gates@);
            proof {
                assert forall|k: int| 0 <= k < self.gates@.len() implies built_gate_wf(
                    #[trigger] gates_of(self.gates@)[k],
                    self.num_rows as int,
                    last as int,
                ) by {
                    let g = gates[k];
                    assert(built_gate_wf(g, self.num_rows as int, self.num_columns as int));
                    assert forall|v: Variable| #[trigger] terms_have(g.0, v) implies 0 <= g.1.row
                        + v.rotation < self.num_rows && g.1.column + v.column_index < last by {}
                }
            }
            self.num_columns = last;
        }
    }

    /// Connects two cells, unless one of them is missing.
    fn connect_internal(&mut self, cell1: Option<Cell>, cell2: Option<Cell>)
        ensures
            final(self).state() == (BuilderState {
                nodes: match (cell1, cell2) {
                    (Some(a), Some(b)) => connect_sets(old(self).state().nodes, a, b),
                    _ => old(self).state().nodes,
                },
                ..old(self).state()
            }),
    {
        proof {
            use_type_invariant(&*self);
        }
        match (cell1, cell2) {
            (Some(cell1), Some(cell2)) => {
                let mut partitioner: Partitioner = Partition::new();
                core::mem::swap(&mut self.partitioner, &mut partitioner);
                partitioner.connect(cell1, cell2);
                self.partitioner = partitioner;
            },
            _ => {},
        }
    }

    /// Compiles the circuit built so far into a [`Circuit`] object.
    pub fn build(self, options: CompilationOptions) -> (ret: Result<Circuit, BuildError>)
        ensures
            exists|lists: Seq<Seq<Cell>>| #[trigger]
                lists_sets(lists, self.state().nodes) && is_build_result(
                    ret,
                    self.state().rows,
                    self.state().columns,
                    self.state().gates,
                    lists,
                    self.state().public_rows,
                    options.canonicalize_constraints,
                ),
    {
        proof {
            use_type_invariant(&self);
        }
        let nodes = self.partitioner.iter_nodes();
        let ghost lists = node_lists(nodes@);
        proof {
            let sets = self.partitioner@;
            assert forall|i: int| 0 <= i < lists.len() implies sorted(#[trigger] lists[i])
                && lists[i].to_set() == sets[i] by {
                assert(sorted(nodes@[i]@));
                assert(node_sets(nodes@)[i] == nodes@[i]@.to_set());
            }
            assert(lists_sets(lists, sets));
            lemma_no_repeats(lists, sets);
        }
        let ret = compile(
            self.num_rows,
            self.num_columns,
            &self.gates,
            nodes,
            &self.public_rows,
            options,
        );
        proof {
            assert(lists_sets(lists, self.state().nodes));
        }
        ret
    }

    /// Updates the list of witness rows that are revealed.
    ///
    /// This method drops any previously provided lists, so if it's called multiple times only the
    /// list provided in the last call is used.
    ///
    /// Ideally you should call this method only once after adding all gates, right before
    /// [`Self::build`].
    pub fn declare_public_rows(&mut self, rows: &Vec<usize>)
        ensures
            crate::model::rows_sorted(final(self).state().public_rows),
            final(self).state().public_rows.to_set() == rows@.to_set(),
            final(self).state() == (BuilderState {
                public_rows: final(self).state().public_rows,
                ..old(self).state()
            }),
    {
        let mut set: Vec<usize> = Vec::new();
        let mut i: usize = 0;
        proof {
            assert(set@.to_set() =~= rows@.subrange(0, 0).to_set());
        }
        while i < rows.len()
            invariant
                i <= rows.len(),
                crate::model::rows_sorted(set@),
                set@.to_set() == rows@.subrange(0, i as int).to_set(),
            decreases rows.len() - i,
        {
            insert_row(&mut set, rows[i]);
            proof {
                lemma_prefix_set(rows@, i as int);
            }
            i += 1;
        }
        proof {
            use_type_invariant(&*self);
            assert(rows@.subrange(0, rows@.len() as int) =~= rows@);
        }
        self.public_rows = set;
    }
}

/// The set of the elements of a growing prefix.
pub proof fn lemma_prefix_set<T>(s: Seq<T>, i: int)
    requires
        0 <= i < s.len(),
    ensures
        s.subrange(0, i + 1).to_set() == s.subrange(0, i).to_set().insert(s[i]),
{
    let a = s.subrange(0, i);
    let b = s.subrange(0, i + 1);
    assert forall|v: T| b.to_set().contains(v) <==> a.to_set().insert(s[i]).contains(v) by {
        if b.contains(v) {
            let k = choose|k: int| 0 <= k < b.len() && b[k] == v;
            if k < i {
                assert(a[k] == v);
            }
        }
        if a.contains(v) {
            let k = choose|k: int| 0 <= k < a.len() && a[k] == v;
            assert(b[k] == v);
        }
        if v == s[i] {
            assert(b[i] == v);
        }
    }
    assert(b.to_set() =~= a.to_set().insert(s[i]));
}

/// Inserts a row into an ordered list unless it is already there.
pub fn insert_row(set: &mut Vec<usize>, row: usize)
    requires
        crate::model::rows_sorted(old(set)@),
    ensures
        crate::model::rows_sorted(final(set)@),
        final(set)@.to_set() == old(set)@.to_set().insert(row),
{
    let ghost s = set@;
    let mut i: usize = 0;
    while i < set.len() && set[i] < row
        invariant
            i <= set.len(),
            set@ == s,
            crate::model::rows_sorted(s),
            forall|j: int| 0 <= j < i ==> (#[trigger] s[j]) < row,
        decreases set.len() - i,
    {
        i += 1;
    }
    if i < set.len() && set[i] == row {
        proof {
            assert(s.contains(row)) by {
                assert(s[i as int] == row);
            }
            assert(s.to_set().insert(row) =~= s.to_set());
        }
        return;
    }
    set.insert(i, row);
    proof {
        let r = set@;
        assert forall|j: int, k: int| 0 <= j < k < r.len() implies (#[trigger] r[j]) < (
        #[trigger] r[k]) by {
            assert(r[j] == if j < i {
                s[j]
            } else if j == i {
                row
            } else {
                s[j - 1]
            });
            assert(r[k] == if k < i {
                s[k]
            } else if k == i {
                row
            } else {
                s[k - 1]
            });
            if j == i && k - 1 > i {
                assert(s[i as int] < s[k - 1]);
            }
        }
        assert forall|v: usize| r.to_set().contains(v) <==> s.to_set().insert(row).contains(v) by {
            if r.contains(v) {
                let k = choose|k: int| 0 <= k < r.len() && r[k] == v;
                if k < i {
                    assert(s[k] == v);
                } else if k > i {
                    assert(s[k - 1] == v);
                }
            }
            if s.contains(v) {
                let k = choose|k: int| 0 <= k < s.len() && s[k] == v;
                if k < i {
                    assert(r[k] == v);
                } else {
                    assert(r[k + 1] == v);
                }
            }
            if v == row {
                assert(r[i as int] == v);
            }
        }
        assert(r.to_set() =~= s.to_set().insert(row));
    }
}

/// The lowest column index is unique.
pub proof fn lemma_min_column_unique(t: Terms, a: int, b: int)
    requires
        is_min_column(t, a),
    ensures
        is_min_column(t, b) ==> a == b,
        is_min_column(t, min_column(t)),
        min_column(t) == a,
{
    assert forall|c: int| is_min_column(t, c) implies c == a by {
        if exists|v: Variable| #[trigger] terms_have(t, v) && v.column_index == a {
            let v = choose|v: Variable| #[trigger] terms_have(t, v) && v.column_index == a;
            assert(c <= v.column_index);
            let u = choose|u: Variable| #[trigger] terms_have(t, u) && u.column_index == c;
            assert(terms_have(t, u));
            assert(a <= u.column_index);
        }
    }
}

/// The place of a view in a circuit, and the number of rows of the view that are in use.
pub ghost struct Frame {
    /// The first row.
    pub row: int,
    /// The first column.
    pub column: int,
    /// The number of rows in use.
    pub counter: int,
}

/// The cell in the next unused row of a view.
pub open spec fn next_cell(frame: Frame) -> Cell {
    Cell { row: (frame.row + frame.counter) as usize, column: frame.column as usize }
}

/// The circuit after `n` more rows of a view came into use.
pub open spec fn advanced(s: BuilderState, frame: Frame, n: int) -> BuilderState {
    BuilderState {
        counter: if s.counter < frame.row + frame.counter + n {
            frame.row + frame.counter + n
        } else {
            s.counter
        },
        ..s
    }
}

/// `after` is `before` with an automatic gate in the next unused row of a view, whose variables
/// stand for cells that are connected to the inputs.
pub open spec fn auto_gate_added(
    before: BuilderState,
    after: BuilderState,
    frame: Frame,
    t: Terms,
    inputs: Seq<Option<Cell>>,
    cells: Seq<Cell>,
) -> bool {
    let stepped = advanced(before, frame, 1);
    gate_added(
        BuilderState { nodes: connect_all(stepped.nodes, inputs, cells), ..stepped },
        after,
        next_cell(frame),
        t,
    )
}

/// The place of a view after one more row came into use.
pub open spec fn stepped_frame(frame: Frame) -> Frame {
    Frame { counter: frame.counter + 1, ..frame }
}

/// `after` is `before` with a NOP gate at `root` that spans `n` columns, or one if `n` is 0.
pub open spec fn nop_gate_added(before: BuilderState, after: BuilderState, root: Cell, n: int) -> bool {
    let columns = root.column + if n < 1 {
        1
    } else {
        n
    };
    &&& after.gates == before.gates.push((Seq::<(Mono, int)>::empty(), root))
    &&& after.rows == if before.rows < root.row + 1 {
        root.row + 1
    } else {
        before.rows
    }
    &&& after.columns == if before.columns < columns {
        columns
    } else {
        before.columns
    }
    &&& after.counter == before.counter
    &&& after.nodes == before.nodes
    &&& after.public_rows == before.public_rows
}

/// The cells of consecutive columns, starting at `root`.
pub open spec fn row_cells(root: Cell, n: nat) -> Seq<Cell> {
    Seq::new(n, |i: int| Cell { row: root.row, column: (root.column + i) as usize })
}

/// An automatic gate can be placed in a view.
pub open spec fn auto_gate_placeable(frame: Frame, t: Terms) -> bool {
    &&& 0 <= frame.row + frame.counter < usize::MAX
    &&& 0 <= frame.column <= usize::MAX
    &&& gate_placeable(t, next_cell(frame))
}

/// A rectangular part of a circuit, or all of it.
pub trait CircuitView: Sized {
    /// The contents of the circuit.
    spec fn contents(&self) -> BuilderState;

    /// The place of the view, if the circuit has the given contents.
    spec fn frame_at(&self, s: BuilderState) -> Frame;

    /// The number of columns included in the view.
    spec fn spec_width(&self) -> Option<usize>;

    /// The place of the view only depends on the number of rows of the circuit that are in use.
    proof fn lemma_frame(&self, a: BuilderState, b: BuilderState)
        requires
            a.counter == b.counter,
        ensures
            self.frame_at(a) == self.frame_at(b),
    ;

    /// Returns a reference to the [`CircuitBuilder`].
    fn builder(&self) -> (ret: &CircuitBuilder)
        ensures
            ret.state() == self.contents(),
    ;

    /// Returns a mutable reference to the [`CircuitBuilder`].
    fn builder_mut(&mut self) -> (ret: &mut CircuitBuilder)
        ensures
            ret.state() == old(self).contents(),
            final(self).contents() == final(ret).state(),
            forall|s: BuilderState| #[trigger] final(self).frame_at(s) == old(self).frame_at(s),
            final(self).spec_width() == old(self).spec_width(),
    ;

    /// Returns the row offset of the view (0 for the [`CircuitBuilder`] itself).
    ///
    /// This is always an absolute value even for transitive sub-views. It is not relative to
    /// the parent view.
    fn row_offset(&self) -> (ret: usize)
        ensures
            ret == self.frame_at(self.contents()).row,
    ;

    /// Returns the column offset of the view (0 for the [`CircuitBuilder`] itself).
    ///
    /// This is always an absolute value even for transitive sub-views. It is not relative to
    /// the parent view.
    fn column_offset(&self) -> (ret: usize)
        ensures
            ret == self.frame_at(self.contents()).column,
    ;

    /// Returns [`Self::row_offset()`] and [`Self::column_offset()`] as a [`Cell`].
    fn root_cell(&self) -> (ret: Cell)
        ensures
            ret.row == self.frame_at(self.contents()).row,
            ret.column == self.frame_at(self.contents()).column,
    {
        Cell::new(self.row_offset(), self.column_offset())
    }

    /// Returns the number of columns included in the view.
    ///
    /// If this is the root view, that is the raw [`CircuitBuilder`] instance, the width is
    /// unbounded and `None` is returned.
    fn width(&self) -> (ret: Option<usize>)
        ensures
            ret == self.spec_width(),
    ;

    /// Returns the next root cell where an [auto gate](`CircuitView::auto_gate`) can be placed,
    /// advancing the internal state to the next row.
    fn step_row(&mut self) -> (ret: Cell)
        requires
            old(self).frame_at(old(self).contents()).row + old(self).frame_at(
                old(self).contents(),
            ).counter < usize::MAX,
        ensures
            ret == next_cell(old(self).frame_at(old(self).contents())),
            ret.row == old(self).frame_at(old(self).contents()).row + old(self).frame_at(
                old(self).contents(),
            ).counter,
            ret.column == old(self).frame_at(old(self).contents()).column,
            final(self).contents() == advanced(
                old(self).contents(),
                old(self).frame_at(old(self).contents()),
                1,
            ),
            final(self).frame_at(final(self).contents()) == (Frame {
                counter: old(self).frame_at(old(self).contents()).counter + 1,
                ..old(self).frame_at(old(self).contents())
            }),
            final(self).spec_width() == old(self).spec_width(),
    ;

    /// Skips `n` rows, advancing the internal row counter by `n`.
    ///
    /// This is useful between [`Self::auto_gate`] / [`Self::auto_constraint`] calls because it
    /// allows the caller to place auto-gates at the correct position and satisfy assumptions about
    /// rotated variables accessed by the constraint. For example:
    ///
    /// ```ignore
    /// let [sum] = view.auto_gate(rvar(0, 0) + rvar(0, 1) - rvar(0, 2), [x, y]);
    /// view.skip_rows(2);
    /// let [result] = view.auto_constraint(var(0) - 42, [sum.into()]);
    /// ```
    ///
    /// The above circuit proves knowledge of two numbers whose sum is 42, and the `skip_rows` call
    /// is required because the second gate must be placed three rows after the first.
    fn skip_rows(&mut self, n: usize)
        requires
            old(self).frame_at(old(self).contents()).row + old(self).frame_at(
                old(self).contents(),
            ).counter + n <= usize::MAX,
        ensures
            final(self).contents() == advanced(
                old(self).contents(),
                old(self).frame_at(old(self).contents()),
                n as int,
            ),
            final(self).frame_at(final(self).contents()) == (Frame {
                counter: old(self).frame_at(old(self).contents()).counter + n,
                ..old(self).frame_at(old(self).contents())
            }),
            final(self).spec_width() == old(self).spec_width(),
    ;

    /// Creates a [`Cell`] relative to this view.
    ///
    /// For example, if this view is at row offset 3 and column offset 5, then `cell(6, 2)` will
    /// return the cell at row 9 and column 7.
    fn cell<R: CellOffset, C: CellOffset>(&self, row_offset: R, column_offset: C) -> (ret: Cell)
        requires
            self.frame_at(self.contents()).row <= isize::MAX,
            self.frame_at(self.contents()).column <= isize::MAX,
            isize::MIN <= row_offset.spec_offset() <= isize::MAX,
            isize::MIN <= column_offset.spec_offset() <= isize::MAX,
            0 <= self.frame_at(self.contents()).row + row_offset.spec_offset() <= isize::MAX,
            0 <= self.frame_at(self.contents()).column + column_offset.spec_offset() <= isize::MAX,
        ensures
            ret.row == self.frame_at(self.contents()).row + row_offset.spec_offset(),
            ret.column == self.frame_at(self.contents()).column + column_offset.spec_offset(),
    {
        let row: isize = self.row_offset() as isize + row_offset.into_offset();
        let column: isize = self.column_offset() as isize + column_offset.into_offset();
        Cell::new(row as usize, column as usize)
    }

    /// Adds a gate to the circuit.
    fn add_gate(&mut self, row: usize, constraint: Constraint<Scalar>)
        requires
            old(self).frame_at(old(self).contents()).row + row <= usize::MAX,
            gate_placeable(
                constraint@,
                Cell {
                    row: (old(self).frame_at(old(self).contents()).row + row) as usize,
                    column: old(self).frame_at(old(self).contents()).column as usize,
                },
            ),
        ensures
            gate_added(
                old(self).contents(),
                final(self).contents(),
                Cell {
                    row: (old(self).frame_at(old(self).contents()).row + row) as usize,
                    column: old(self).frame_at(old(self).contents()).column as usize,
                },
                constraint@,
            ),
            forall|s: BuilderState| #[trigger] final(self).frame_at(s) == old(self).frame_at(s),
            final(self).spec_width() == old(self).spec_width(),
    {
        let root_cell = Cell::new(self.row_offset() + row, self.column_offset());
        self.builder_mut().add_gate_internal(root_cell, constraint);
    }

    /// "Connects" two circuit [`Cell`]s, meaning they will be constrained to have the same value.
    fn connect(&mut self, cell1: Option<Cell>, cell2: Option<Cell>)
        ensures
            final(self).contents() == (BuilderState {
                nodes: match (cell1, cell2) {
                    (Some(a), Some(b)) => connect_sets(old(self).contents().nodes, a, b),
                    _ => old(self).contents().nodes,
                },
                ..old(self).contents()
            }),
            forall|s: BuilderState| #[trigger] final(self).frame_at(s) == old(self).frame_at(s),
            final(self).spec_width() == old(self).spec_width(),
    {
        self.builder_mut().connect_internal(cell1, cell2);
    }

    /// Adds a gate with `N` inputs and `M` outputs.
    ///
    /// The provided `constraint` must use exactly `N+M` variables. The provided input cells are
    /// wrapped in `Option`s because `None` means the corresponding input is unconstrained.
    ///
    /// The first `N` variables used in the constraint (those with the lowest column numbers) will
    /// be automatically connected to the specified `inputs` unless they're unconstrained / None,
    /// while the last `M` variables (those with the highest column numbers) will be returned as
    /// outputs.
    ///
    /// NOTE: variables with the same column number but different rotations are considered different
    /// variables for the purpose of counting against `N` and `M`. For example, the constraint
    /// `var(0,+1) == var(0,-1) + var(0)` uses three variables, not one. Variables with the same
    /// column number are ordered by rotation, so for example if you set `N=2` and `M=1` the above
    /// constraint would associate the 2 inputs to `var(0,-1)` and `var(0)`, and the output to
    /// `var(0,+1)`.
    fn auto_gate<const N: usize, const M: usize>(
        &mut self,
        constraint: Constraint<Scalar>,
        inputs: [Option<Cell>; N],
    ) -> (ret: [Cell; M])
        requires
            auto_gate_placeable(old(self).frame_at(old(self).contents()), constraint@),
            forall|s: Seq<Variable>| #[trigger]
                is_variable_list(s, constraint@) ==> s.len() == N + M,
        ensures
            forall|s: Seq<Variable>| #[trigger]
                is_variable_list(s, constraint@) ==> auto_gate_added(
                    old(self).contents(),
                    final(self).contents(),
                    old(self).frame_at(old(self).contents()),
                    constraint@,
                    inputs@,
                    variable_cells(s, next_cell(old(self).frame_at(old(self).contents()))),
                ) && ret@ == variable_cells(
                    s,
                    next_cell(old(self).frame_at(old(self).contents())),
                ).subrange(N as int, N + M),
            forall|s: Seq<Variable>, k: int|
                #[trigger] is_variable_list(s, constraint@) && 0 <= k < M ==> {
                    &&& (#[trigger] ret@[k]).row == old(self).frame_at(old(self).contents()).row
                        + old(self).frame_at(old(self).contents()).counter + s[N + k].rotation
                    &&& ret@[k].column == old(self).frame_at(old(self).contents()).column + s[N
                        + k].column_index
                },
            exists|s: Seq<Variable>| is_variable_list(s, constraint@),
            final(self).frame_at(final(self).contents()) == stepped_frame(
                old(self).frame_at(old(self).contents()),
            ),
            final(self).spec_width() == old(self).spec_width(),
    {
        let ghost frame = self.frame_at(self.contents());
        let ghost t = constraint@;
        let variables = constraint.get_free_variables();
        let root_cell = self.step_row();
        let ghost stepped = self.contents();
        let ghost cells = variable_cells(variables@, root_cell);
        let mut i: usize = 0;
        proof {
            assert(is_variable_list(variables@, t));
            assert(inputs@.subrange(0, 0) =~= seq![]);
        }
        while i < N
            invariant
                i <= N,
                variables@.len() == N + M,
                is_variable_list(variables@, t),
                root_cell == next_cell(frame),
                cells == variable_cells(variables@, root_cell),
                gate_placeable(t, root_cell),
                self.contents() == (BuilderState {
                    nodes: connect_all(stepped.nodes, inputs@.subrange(0, i as int), cells),
                    ..stepped
                }),
                self.frame_at(self.contents()) == stepped_frame(frame),
                self.spec_width() == old(self).spec_width(),
            decreases N - i,
        {
            let variable = variables[i];
            proof {
                assert(variables@.contains(variable));
                assert(terms_have(t, variable));
                let prefix = inputs@.subrange(0, i + 1);
                assert(prefix.drop_last() =~= inputs@.subrange(0, i as int));
                assert(prefix.last() == inputs@[i as int]);
            }
            let cell = variable.map_to_cell(root_cell);
            let ghost before = self.contents();
            match inputs[i] {
                Some(input) => {
                    self.builder_mut().connect_internal(Some(input), Some(cell));
                },
                None => {},
            }
            proof {
                self.lemma_frame(before, self.contents());
            }
            i += 1;
        }
        proof {
            assert(inputs@.subrange(0, N as int) =~= inputs@);
        }
        let ghost before = self.contents();
        self.builder_mut().add_gate_internal(root_cell, constraint);
        proof {
            self.lemma_frame(before, self.contents());
        }
        let total: usize = variables.len();
        let mut outputs: [Cell; M] = array_fill_for_copy_types(root_cell);
        let mut j: usize = 0;
        while j < M
            invariant
                j <= M,
                total == N + M,
                variables@.len() == N + M,
                is_variable_list(variables@, t),
                cells == variable_cells(variables@, root_cell),
                gate_placeable(t, root_cell),
                forall|k: int| 0 <= k < j ==> (#[trigger] outputs@[k]) == cells[N + k],
            decreases M - j,
        {
            let variable = variables[N + j];
            proof {
                assert(variables@.contains(variable));
                assert(terms_have(t, variable));
            }
            outputs[j] = variable.map_to_cell(root_cell);
            j += 1;
        }
        proof {
            assert(outputs@ =~= cells.subrange(N as int, N + M));
            assert forall|k: int| 0 <= k < M implies (#[trigger] outputs@[k]).row == frame.row
                + frame.counter + variables@[N + k].rotation && outputs@[k].column == frame.column
                + variables@[N + k].column_index by {
                let variable = variables@[N + k];
                assert(variables@.contains(variable));
                assert(terms_have(t, variable));
                assert(outputs@[k] == cells[N + k]);
            }
            assert forall|s: Seq<Variable>| #[trigger] is_variable_list(s, t) implies s
                == variables@ by {
                lemma_variable_list_unique(s, variables@, t);
            }
        }
        outputs
    }

    /// Adds a gate with `N` terminations.
    ///
    /// Unlike [`Self::auto_gate`] this method doesn't make a distinction between input and output
    /// terminations; it simply enforces a polynomial relation among `N` terminations.
    ///
    /// The provided `constraint` must use exactly `N` variables. The provided input cells are
    /// wrapped in `Option`s because `None` means the corresponding input is unconstrained.
    ///
    /// The `N` variables used in the constraint will be automatically connected to the specified
    /// `inputs` unless they're unconstrained / None.
    ///
    /// NOTE: variables with the same column number but different rotations are considered different
    /// variables for the purpose of counting against `N`. For example, the constraint
    /// `var(0,+1) == var(0,-1) + var(0)` uses three variables, not one. Variables with the same
    /// column number are ordered by rotation, so for example the above constraint would associate
    /// the 3 inputs to `var(0,-1)`, `var(0)`, and `var(0,+1)`, respectively.
    fn auto_constraint<const N: usize>(
        &mut self,
        constraint: Constraint<Scalar>,
        inputs: [Option<Cell>; N],
    ) -> (ret: [Cell; N])
        requires
            auto_gate_placeable(old(self).frame_at(old(self).contents()), constraint@),
            forall|s: Seq<Variable>| #[trigger] is_variable_list(s, constraint@) ==> s.len() == N,
        ensures
            forall|s: Seq<Variable>| #[trigger]
                is_variable_list(s, constraint@) ==> auto_gate_added(
                    old(self).contents(),
                    final(self).contents(),
                    old(self).frame_at(old(self).contents()),
                    constraint@,
                    inputs@,
                    variable_cells(s, next_cell(old(self).frame_at(old(self).contents()))),
                ) && ret@ == variable_cells(
                    s,
                    next_cell(old(self).frame_at(old(self).contents())),
                ),
            forall|s: Seq<Variable>, k: int|
                #[trigger] is_variable_list(s, constraint@) && 0 <= k < N ==> {
                    &&& (#[trigger] ret@[k]).row == old(self).frame_at(old(self).contents()).row
                        + old(self).frame_at(old(self).contents()).counter + s[k].rotation
                    &&& ret@[k].column == old(self).frame_at(old(self).contents()).column
                        + s[k].column_index
                },
            exists|s: Seq<Variable>| is_variable_list(s, constraint@),
            final(self).frame_at(final(self).contents()) == stepped_frame(
                old(self).frame_at(old(self).contents()),
            ),
            final(self).spec_width() == old(self).spec_width(),
    {
        let ghost frame = self.frame_at(self.contents());
        let ghost t = constraint@;
        let variables = constraint.get_free_variables();
        let root_cell = self.step_row();
        let ghost stepped = self.contents();
        let ghost cells = variable_cells(variables@, root_cell);
        let mut outputs: [Cell; N] = array_fill_for_copy_types(root_cell);
        let mut i: usize = 0;
        proof {
            assert(is_variable_list(variables@, t));
            assert(inputs@.subrange(0, 0) =~= seq![]);
        }
        while i < N
            invariant
                i <= N,
                variables@.len() == N,
                is_variable_list(variables@, t),
                root_cell == next_cell(frame),
                cells == variable_cells(variables@, root_cell),
                gate_placeable(t, root_cell),
                self.contents() == (BuilderState {
                    nodes: connect_all(stepped.nodes, inputs@.subrange(0, i as int), cells),
                    ..stepped
                }),
                self.frame_at(self.contents()) == stepped_frame(frame),
                self.spec_width() == old(self).spec_width(),
                forall|k: int| 0 <= k < i ==> (#[trigger] outputs@[k]) == cells[k],
            decreases N - i,
        {
            let variable = variables[i];
            proof {
                assert(variables@.contains(variable));
                assert(terms_have(t, variable));
                let prefix = inputs@.subrange(0, i + 1);
                assert(prefix.drop_last() =~= inputs@.subrange(0, i as int));
                assert(prefix.last() == inputs@[i as int]);
            }
            let cell = variable.map_to_cell(root_cell);
            let ghost before = self.contents();
            match inputs[i] {
                Some(input) => {
                    self.builder_mut().connect_internal(Some(input), Some(cell));
                },
                None => {},
            }
            proof {
                self.lemma_frame(before, self.contents());
            }
            outputs[i] = cell;
            i += 1;
        }
        proof {
            assert(inputs@.subrange(0, N as int) =~= inputs@);
            assert(outputs@ =~= cells);
        }
        let ghost before = self.contents();
        self.builder_mut().add_gate_internal(root_cell, constraint);
        proof {
            assert forall|k: int| 0 <= k < N implies (#[trigger] outputs@[k]).row == frame.row
                + frame.counter + variables@[k].rotation && outputs@[k].column == frame.column
                + variables@[k].column_index by {
                let variable = variables@[k];
                assert(variables@.contains(variable));
                assert(terms_have(t, variable));
                assert(outputs@[k] == cells[k]);
            }
            self.lemma_frame(before, self.contents());
            assert forall|s: Seq<Variable>| #[trigger] is_variable_list(s, t) implies s
                == variables@ by {
                lemma_variable_list_unique(s, variables@, t);
            }
        }
        outputs
    }

    /// Adds a NOP gate with `N` terminations; its constraint is `0 == 0`.
    ///
    /// This is conceptually equivalent to calling:
    ///
    /// ```ignore
    /// witness.auto_constraint::<N>(Constraint::nop(), inputs);
    /// ```
    ///
    /// except that the above call wouldn't work because the nop constraint uses 0 variables, and
    /// `0 != N`.
    fn add_nop_gate<const N: usize>(&mut self, inputs: [Option<Cell>; N]) -> (ret: [Cell; N])
        requires
            0 <= old(self).frame_at(old(self).contents()).row + old(self).frame_at(
                old(self).contents(),
            ).counter < usize::MAX,
            0 <= old(self).frame_at(old(self).contents()).column < isize::MAX,
            old(self).frame_at(old(self).contents()).column + N <= usize::MAX,
        ensures
            ret@ == row_cells(next_cell(old(self).frame_at(old(self).contents())), N as nat),
            forall|k: int|
                0 <= k < N ==> (#[trigger] ret@[k]).row == old(self).frame_at(
                    old(self).contents(),
                ).row + old(self).frame_at(old(self).contents()).counter && ret@[k].column == old(
                    self,
                ).frame_at(old(self).contents()).column + k,
            nop_gate_added(
                BuilderState {
                    nodes: connect_all(old(self).contents().nodes, inputs@, ret@),
                    ..advanced(
                        old(self).contents(),
                        old(self).frame_at(old(self).contents()),
                        1,
                    )
                },
                final(self).contents(),
                next_cell(old(self).frame_at(old(self).contents())),
                N as int,
            ),
            final(self).frame_at(final(self).contents()) == stepped_frame(
                old(self).frame_at(old(self).contents()),
            ),
            final(self).spec_width() == old(self).spec_width(),
    {
        let ghost frame = self.frame_at(self.contents());
        let root_cell = self.step_row();
        let ghost stepped = self.contents();
        let ghost cells = row_cells(root_cell, N as nat);
        let mut outputs: [Cell; N] = array_fill_for_copy_types(root_cell);
        let mut i: usize = 0;
        proof {
            assert(inputs@.subrange(0, 0) =~= seq![]);
        }
        while i < N
            invariant
                i <= N,
                root_cell == next_cell(frame),
                root_cell.row < usize::MAX,
                root_cell.column < isize::MAX,
                root_cell.column + N <= usize::MAX,
                cells == row_cells(root_cell, N as nat),
                self.contents() == (BuilderState {
                    nodes: connect_all(stepped.nodes, inputs@.subrange(0, i as int), cells),
                    ..stepped
                }),
                self.frame_at(self.contents()) == stepped_frame(frame),
                self.spec_width() == old(self).spec_width(),
                forall|k: int| 0 <= k < i ==> (#[trigger] outputs@[k]) == cells[k],
            decreases N - i,
        {
            proof {
                let prefix = inputs@.subrange(0, i + 1);
                assert(prefix.drop_last() =~= inputs@.subrange(0, i as int));
                assert(prefix.last() == inputs@[i as int]);
            }
            let cell = Cell::new(0, i).remap(root_cell);
            let ghost before = self.contents();
            match inputs[i] {
                Some(input) => {
                    self.builder_mut().connect_internal(Some(input), Some(cell));
                },
                None => {},
            }
            proof {
                self.lemma_frame(before, self.contents());
            }
            outputs[i] = cell;
            i += 1;
        }
        proof {
            assert(inputs@.subrange(0, N as int) =~= inputs@);
            assert(outputs@ =~= cells);
        }
        let ghost before = self.contents();
        self.builder_mut().add_nop_gate_internal(root_cell, N);
        proof {
            self.lemma_frame(before, self.contents());
        }
        outputs
    }

    /// Spawns a child `CircuitView` at the given coordinates.
    fn sub(
        &mut self,
        row_offset: usize,
        column_offset: usize,
        width: usize,
    ) -> (ret: CircuitSectionBuilder<'_>)
        requires
            old(self).frame_at(old(self).contents()).row + row_offset <= usize::MAX,
            old(self).frame_at(old(self).contents()).column + column_offset <= usize::MAX,
        ensures
            ret.builder.state() == advanced(
                old(self).contents(),
                child_frame(old(self).frame_at(old(self).contents()), row_offset, column_offset),
                0,
            ),
            ret.section_frame() == child_frame(
                old(self).frame_at(old(self).contents()),
                row_offset,
                column_offset,
            ),
            ret.row_offset == old(self).frame_at(old(self).contents()).row + row_offset,
            ret.column_offset == old(self).frame_at(old(self).contents()).column + column_offset,
            ret.row_counter == 0,
            ret.width == width,
            final(self).contents() == final(ret.builder).state(),
            forall|s: BuilderState| #[trigger] final(self).frame_at(s) == old(self).frame_at(s),
            final(self).spec_width() == old(self).spec_width(),
    {
        let row_offset: usize = self.row_offset() + row_offset;
        let column_offset: usize = self.column_offset() + column_offset;
        CircuitSectionBuilder::new(self.builder_mut(), row_offset, column_offset, width)
    }

    /// Spawns a child `CircuitView` at the given coordinates and runs the provided `callback` on
    /// it.
    ///
    /// `sub_fn` returns `self`, not the child view. The child view is only valid for the duration
    /// of the callback, while `self` is returned to make `sub_fn` chainable.
    fn sub_fn<C: FnOnce(&mut CircuitSectionBuilder)>(
        &mut self,
        row_offset: usize,
        column_offset: usize,
        width: usize,
        callback: C,
    ) -> (ret: &mut Self)
        requires
            old(self).frame_at(old(self).contents()).row + row_offset <= usize::MAX,
            old(self).frame_at(old(self).contents()).column + column_offset <= usize::MAX,
            forall|view: &mut CircuitSectionBuilder|
                is_circuit_section(
                    view,
                    advanced(
                        old(self).contents(),
                        child_frame(
                            old(self).frame_at(old(self).contents()),
                            row_offset,
                            column_offset,
                        ),
                        0,
                    ),
                    child_frame(
                        old(self).frame_at(old(self).contents()),
                        row_offset,
                        column_offset,
                    ),
                    width,
                ) ==> #[trigger] call_requires(callback, (view,)),
        ensures
            exists|view: &mut CircuitSectionBuilder|
                is_circuit_section(
                    view,
                    advanced(
                        old(self).contents(),
                        child_frame(
                            old(self).frame_at(old(self).contents()),
                            row_offset,
                            column_offset,
                        ),
                        0,
                    ),
                    child_frame(
                        old(self).frame_at(old(self).contents()),
                        row_offset,
                        column_offset,
                    ),
                    width,
                ) && #[trigger] call_ensures(callback, (view,), ()) && ret.contents() == final(view.builder).state()
                    && *final(final(view).builder) == *final(view).builder,
            forall|s: BuilderState| #[trigger] ret.frame_at(s) == old(self).frame_at(s),
            ret.spec_width() == old(self).spec_width(),
            *final(self) == *final(ret),
    {
        let mut section = self.sub(row_offset, column_offset, width);
        let view = &mut section;
        callback(view);
        self
    }

    /// Returns a generator of child views that stand side by side, starting at the next unused row.
    fn auto_sub<'a>(&'a mut self, width: usize, count: usize) -> (ret: CircuitViewGenerator<'a>)
        requires
            old(self).frame_at(old(self).contents()).row + old(self).frame_at(
                old(self).contents(),
            ).counter <= usize::MAX,
        ensures
            ret.builder.state() == old(self).contents(),
            ret.row_offset == old(self).frame_at(old(self).contents()).row + old(self).frame_at(
                old(self).contents(),
            ).counter,
            ret.width == width,
            ret.count == count,
            final(self).contents() == final(ret.builder).state(),
            forall|s: BuilderState| #[trigger] final(self).frame_at(s) == old(self).frame_at(s),
            final(self).spec_width() == old(self).spec_width(),
    ;
}

/// The place of a child view.
pub open spec fn child_frame(parent: Frame, row_offset: usize, column_offset: usize) -> Frame {
    Frame { row: parent.row + row_offset, column: parent.column + column_offset, counter: 0 }
}

/// The section is a view of a circuit with the given contents, at the given place.
pub open spec fn is_circuit_section(
    section: &CircuitSectionBuilder,
    contents: BuilderState,
    frame: Frame,
    width: usize,
) -> bool {
    &&& section.builder.state() == contents
    &&& section.section_frame() == frame
    &&& section.width == width
}

/// The list of variables is unique.
pub proof fn lemma_variable_list_unique(a: Seq<Variable>, b: Seq<Variable>, t: Terms)
    requires
        is_variable_list(a, t),
        is_variable_list(b, t),
    ensures
        a == b,
{
    lemma_sorted_unique(a, b);
}

/// An ordered list is determined by its elements.
proof fn lemma_sorted_unique(a: Seq<Variable>, b: Seq<Variable>)
    requires
        variables_sorted(a),
        variables_sorted(b),
        forall|v: Variable| #[trigger] a.contains(v) <==> b.contains(v),
    ensures
        a == b,
    decreases a.len() + b.len(),
{
    if a.len() == 0 {
        if b.len() > 0 {
            assert(b.contains(b[0]));
            assert(a.contains(b[0]));
        }
        assert(a =~= b);
    } else if b.len() == 0 {
        assert(a.contains(a[0]));
        assert(b.contains(a[0]));
    } else {
        let x = a.last();
        let y = b.last();
        assert(a[a.len() - 1] == x && b[b.len() - 1] == y);
        assert(a.contains(x) && b.contains(y));
        assert(b.contains(x) && a.contains(y));
        let i = choose|i: int| 0 <= i < b.len() && b[i] == x;
        let j = choose|j: int| 0 <= j < a.len() && a[j] == y;
        if i < b.len() - 1 {
            assert(crate::variable::var_less(b[i], b[b.len() - 1]));
        }
        if j < a.len() - 1 {
            assert(crate::variable::var_less(a[j], a[a.len() - 1]));
        }
        assert(x == y);
        let a1 = a.drop_last();
        let b1 = b.drop_last();
        assert forall|v: Variable| #[trigger] a1.contains(v) <==> b1.contains(v) by {
            lemma_contains_drop_last(a, v);
            lemma_contains_drop_last(b, v);
            assert(a.contains(v) <==> b.contains(v));
        }
        assert forall|p: int, q: int| 0 <= p < q < a1.len() implies crate::variable::var_less(
            #[trigger] a1[p],
            #[trigger] a1[q],
        ) by {
            assert(a1[p] == a[p] && a1[q] == a[q]);
        }
        assert forall|p: int, q: int| 0 <= p < q < b1.len() implies crate::variable::var_less(
            #[trigger] b1[p],
            #[trigger] b1[q],
        ) by {
            assert(b1[p] == b[p] && b1[q] == b[q]);
        }
        lemma_sorted_unique(a1, b1);
        assert(a =~= a1.push(x));
        assert(b =~= b1.push(y));
    }
}

/// The elements of an ordered list but the last.
proof fn lemma_contains_drop_last(s: Seq<Variable>, v: Variable)
    requires
        variables_sorted(s),
        s.len() > 0,
    ensures
        s.drop_last().contains(v) <==> (s.contains(v) && v != s.last()),
{
    if s.drop_last().contains(v) {
        let k = choose|k: int| 0 <= k < s.drop_last().len() && s.drop_last()[k] == v;
        assert(s[k] == v);
        assert(crate::variable::var_less(s[k], s[s.len() - 1]));
    }
    if s.contains(v) && v != s.last() {
        let k = choose|k: int| 0 <= k < s.len() && s[k] == v;
        assert(k < s.len() - 1);
        assert(s.drop_last()[k] == v);
    }
}

impl CircuitBuilder {
    /// Makes sure that automatic gates are placed at the given row or after it.
    fn raise_counter(&mut self, row: usize)
        ensures
            final(self).state() == (BuilderState {
                counter: if old(self).state().counter < row {
                    row as int
                } else {
                    old(self).state().counter
                },
                ..old(self).state()
            }),
    {
        proof {
            use_type_invariant(&*self);
        }
        if self.row_counter < row {
            self.row_counter = row;
        }
    }
}

impl CircuitView for CircuitBuilder {
    open spec fn contents(&self) -> BuilderState {
        self.state()
    }

    open spec fn frame_at(&self, s: BuilderState) -> Frame {
        Frame { row: 0, column: 0, counter: s.counter }
    }

    open spec fn spec_width(&self) -> Option<usize> {
        None
    }

    proof fn lemma_frame(&self, a: BuilderState, b: BuilderState) {
    }

    fn builder(&self) -> (ret: &CircuitBuilder) {
        self
    }

    fn builder_mut(&mut self) -> (ret: &mut CircuitBuilder) {
        self
    }

    fn row_offset(&self) -> (ret: usize) {
        0
    }

    fn column_offset(&self) -> (ret: usize) {
        0
    }

    fn width(&self) -> (ret: Option<usize>) {
        None
    }

    fn step_row(&mut self) -> (ret: Cell) {
        let root_cell = Cell::new(self.row_counter, 0);
        self.raise_counter(root_cell.row() + 1);
        root_cell
    }

    fn skip_rows(&mut self, n: usize) {
        let row: usize = self.row_counter + n;
        self.raise_counter(row);
    }

    fn auto_sub<'a>(&'a mut self, width: usize, count: usize) -> (ret: CircuitViewGenerator<'a>) {
        let row_offset: usize = self.row_counter;
        CircuitViewGenerator { builder: self, row_offset, width, count }
    }
}

/// Implements [`CircuitView`] for a sub-section of the circuit.
#[derive(Debug)]
pub struct CircuitSectionBuilder<'a> {
    /// Reference to the parent [`CircuitBuilder`].
    pub builder: &'a mut CircuitBuilder,
    /// Row offset of the sub-section.
    pub row_offset: usize,
    /// Column offset of the sub-section.
    pub column_offset: usize,
    /// Width (number of columns) of the sub-section.
    pub width: usize,
    /// Row counter for [`CircuitView::auto_gate`].
    pub row_counter: usize,
}

impl<'a> CircuitSectionBuilder<'a> {
    /// The place of the section.
    pub open spec fn section_frame(&self) -> Frame {
        Frame {
            row: self.row_offset as int,
            column: self.column_offset as int,
            counter: self.row_counter as int,
        }
    }

    /// Makes a section. The rows of a section that are in use are in use in the whole circuit too.
    fn new(
        builder: &'a mut CircuitBuilder,
        row_offset: usize,
        column_offset: usize,
        width: usize,
    ) -> (ret: Self)
        ensures
            ret.builder.state() == advanced(
                old(builder).state(),
                Frame { row: row_offset as int, column: column_offset as int, counter: 0 },
                0,
            ),
            *final(ret.builder) == *final(builder),
            ret.row_offset == row_offset,
            ret.column_offset == column_offset,
            ret.width == width,
            ret.row_counter == 0,
    {
        builder.raise_counter(row_offset);
        CircuitSectionBuilder { builder, row_offset, column_offset, width, row_counter: 0 }
    }
}

impl<'a> CircuitView for CircuitSectionBuilder<'a> {
    open spec fn contents(&self) -> BuilderState {
        self.builder.state()
    }

    open spec fn frame_at(&self, s: BuilderState) -> Frame {
        self.section_frame()
    }

    open spec fn spec_width(&self) -> Option<usize> {
        Some(self.width)
    }

    proof fn lemma_frame(&self, a: BuilderState, b: BuilderState) {
    }

    fn builder(&self) -> (ret: &CircuitBuilder) {
        &*self.builder
    }

    fn builder_mut(&mut self) -> (ret: &mut CircuitBuilder)
        ensures
            *final(final(self).builder) == *final(old(self).builder),
    {
        &mut *self.builder
    }

    fn row_offset(&self) -> (ret: usize) {
        self.row_offset
    }

    fn column_offset(&self) -> (ret: usize) {
        self.column_offset
    }

    fn width(&self) -> (ret: Option<usize>) {
        Some(self.width)
    }

    fn step_row(&mut self) -> (ret: Cell)
        ensures
            *final(final(self).builder) == *final(old(self).builder),
    {
        let root_cell = Cell::new(self.row_offset + self.row_counter, self.column_offset);
        self.row_counter = self.row_counter + 1;
        self.builder.raise_counter(root_cell.row() + 1);
        root_cell
    }

    fn skip_rows(&mut self, n: usize)
        ensures
            *final(final(self).builder) == *final(old(self).builder),
    {
        self.row_counter = self.row_counter + n;
        let row: usize = self.row_offset + self.row_counter;
        self.builder.raise_counter(row);
    }

    fn auto_sub<'b>(&'b mut self, width: usize, count: usize) -> (ret: CircuitViewGenerator<'b>)
        ensures
            *final(final(self).builder) == *final(old(self).builder),
    {
        let row_offset: usize = self.row_offset + self.row_counter;
        CircuitViewGenerator { builder: &mut *self.builder, row_offset, width, count }
    }
}

/// Generates child views that stand side by side.
#[derive(Debug)]
pub struct CircuitViewGenerator<'a> {
    /// Reference to the [`CircuitBuilder`].
    pub builder: &'a mut CircuitBuilder,
    /// Row offset where all sub-sections are rooted.
    pub row_offset: usize,
    /// Width of each sub-section.
    pub width: usize,
    /// Number of sub-sections to generate.
    pub count: usize,
}

impl<'a> CircuitViewGenerator<'a> {
    /// Returns the sub-section with the given index.
    pub fn get<'b>(&'b mut self, index: usize) -> (ret: CircuitSectionBuilder<'b>)
        requires
            index < old(self).count,
            old(self).width * index <= usize::MAX,
        ensures
            ret.builder.state() == advanced(
                old(self).builder.state(),
                Frame {
                    row: old(self).row_offset as int,
                    column: old(self).width * index,
                    counter: 0,
                },
                0,
            ),
            ret.row_offset == old(self).row_offset,
            ret.column_offset == old(self).width * index,
            ret.width == old(self).width,
            ret.row_counter == 0,
            *final(self).builder == *final(ret.builder),
            *final(final(self).builder) == *final(old(self).builder),
            final(self).row_offset == old(self).row_offset,
            final(self).width == old(self).width,
            final(self).count == old(self).count,
    {
        let column_offset: usize = self.width * index;
        CircuitSectionBuilder::new(&mut *self.builder, self.row_offset, column_offset, self.width)
    }
}

impl Default for CircuitBuilder {
    fn default() -> (ret: Self)
        ensures
            ret.state() == (BuilderState {
                rows: 0,
                columns: 0,
                counter: 0,
                gates: seq![],
                nodes: seq![],
                public_rows: seq![],
            }),
    {
        CircuitBuilder::new()
    }
}

/// Copies a list of gates.
fn copy_built_gates(gates: &Vec<(Constraint<Scalar>, Cell)>) -> (ret: Vec<
    (Constraint<Scalar>, Cell),
>)
    ensures
        gates_of(ret@) == gates_of(gates@),
{
    let mut ret: Vec<(Constraint<Scalar>, Cell)> = Vec::new();
    let mut i: usize = 0;
    while i < gates.len()
        invariant
            i <= gates.len(),
            ret@.len() == i,
            forall|k: int|
                0 <= k < i ==> (#[trigger] ret@[k]).0@ == gates@[k].0@ && ret@[k].1 == gates@[k].1,
        decreases gates.len() - i,
    {
        ret.push((gates[i].0.copy(), gates[i].1));
        i += 1;
    }
    proof {
        assert(gates_of(ret@) =~= gates_of(gates@));
    }
    ret
}

impl Clone for CircuitBuilder {
    fn clone(&self) -> (ret: Self)
        ensures
            ret.state() == self.state(),
    {
        proof {
            use_type_invariant(self);
        }
        let gates = copy_built_gates(&self.gates);
        let public_rows = copy_rows(&self.public_rows);
        proof {
            assert(gates_of(gates@).len() == gates@.len());
            assert(gates_of(self.gates@).len() == self.gates@.len());
        }
        CircuitBuilder {
            num_rows: self.num_rows,
            num_columns: self.num_columns,
            row_counter: self.row_counter,
            gates,
            partitioner: self.partitioner.copy(),
            public_rows,
        }
    }
}

} // verus!
