//! Checks of witnesses against circuits.
use crate::assignment::Assignment;
use crate::cell::Cell;
use crate::compose::lemma_terms_value_cong;
use crate::expr::{valuation, Constraint};
use crate::field::{decimal, scalar_text, equal, is_zero, Field, Scalar};
use crate::model::{cell_value, gate_fits, gate_holds, gate_valuation, CircuitModel};
use crate::plonk::Circuit;
use crate::terms::{terms_have, terms_value};
use crate::text::{decimal_text, expression_text};
use crate::variable::Variable;
use crate::witness::{Witness, WitnessView};
use vstd::prelude::*;

verus! {

/// Why a witness doesn't satisfy a circuit.
#[derive(Debug)]
pub enum WitnessError {
    /// The numbers of rows differ.
    Rows {
        got: usize,
        want: usize,
    },
    /// The numbers of columns differ.
    Columns {
        got: usize,
        want: usize,
    },
    /// The padded numbers of rows differ.
    DegreeBound {
        got: usize,
        want: usize,
    },
    /// A gate is violated.
    Gate {
        constraint: Constraint<Scalar>,
        row: usize,
        column: usize,
    },
    /// Two connected cells have different values.
    Wire {
        source: Cell,
        source_value: Scalar,
        target: Cell,
        target_value: Scalar,
    },
}

/// The text of a cell with its value.
pub open spec fn cell_text(cell: Cell, value: int) -> Seq<char> {
    "cell("@ + decimal(cell.row as nat) + ", "@ + decimal(cell.column as nat) + ") = "@
        + scalar_text(value)
}

/// The text of two numbers that should be the same.
pub open spec fn mismatch_text(got: usize, want: usize) -> Seq<char> {
    "got "@ + decimal(got as nat) + ", want "@ + decimal(want as nat)
}

/// Describes a cell with its value.
fn describe_cell(cell: Cell, value: Scalar) -> (ret: String)
    ensures
        ret@ == cell_text(cell, value.value()),
{
    let mut text = "cell(".to_owned();
    text.append(decimal_text(cell.row() as u64).as_str());
    text.append(", ");
    text.append(decimal_text(cell.column() as u64).as_str());
    text.append(") = ");
    text.append(value.to_string().as_str());
    text
}

/// Describes two numbers that should be the same.
pub(crate) fn describe_mismatch(got: usize, want: usize) -> (ret: String)
    ensures
        ret@ == mismatch_text(got, want),
{
    let mut text = "got ".to_owned();
    text.append(decimal_text(got as u64).as_str());
    text.append(", want ");
    text.append(decimal_text(want as u64).as_str());
    text
}

impl WitnessError {
    /// Describes the error.
    pub fn to_string(&self) -> (ret: String)
        ensures
            ret@ == match *self {
                WitnessError::Rows { got, want } => "wrong number of rows: "@ + mismatch_text(
                    got,
                    want,
                ),
                WitnessError::Columns { got, want } => "wrong number of columns: "@ + mismatch_text(
                    got,
                    want,
                ),
                WitnessError::DegreeBound { got, want } => "incorrect degree bound: "@
                    + mismatch_text(got, want),
                WitnessError::Gate { constraint, row, column } => "gate constraint `"@
                    + expression_text(constraint@, Scalar::modulus()) + "` violated at row "@
                    + decimal(row as nat) + ", column "@ + decimal(column as nat),
                WitnessError::Wire { source, source_value, target, target_value } =>
                "wire constraint violated: "@ + cell_text(source, source_value.value()) + ", "@
                    + cell_text(target, target_value.value()),
            },
    {
        match self {
            WitnessError::Rows { got, want } => {
                let mut text = "wrong number of rows: ".to_owned();
                text.append(describe_mismatch(*got, *want).as_str());
                text
            },
            WitnessError::Columns { got, want } => {
                let mut text = "wrong number of columns: ".to_owned();
                text.append(describe_mismatch(*got, *want).as_str());
                text
            },
            WitnessError::DegreeBound { got, want } => {
                let mut text = "incorrect degree bound: ".to_owned();
                text.append(describe_mismatch(*got, *want).as_str());
                text
            },
            WitnessError::Gate { constraint, row, column } => {
                let mut text = "gate constraint `".to_owned();
                text.append(constraint.to_string().as_str());
                text.append("` violated at row ");
                text.append(decimal_text(*row as u64).as_str());
                text.append(", column ");
                text.append(decimal_text(*column as u64).as_str());
                text
            },
            WitnessError::Wire { source, source_value, target, target_value } => {
                let mut text = "wire constraint violated: ".to_owned();
                text.append(describe_cell(*source, *source_value).as_str());
                text.append(", ");
                text.append(describe_cell(*target, *target_value).as_str());
                text
            },
        }
    }
}

/// Gate number `g` is satisfied at row number `i` of its selector.
pub open spec fn gate_passes(m: CircuitModel, table: Seq<Seq<int>>, g: int, i: int) -> bool {
    gate_holds(
        m.gates[g].terms,
        table,
        m.active[m.gates[g].selector][i] as int,
        m.gates[g].column,
    )
}

/// All gates before row number `i` of gate number `g` are satisfied.
pub open spec fn gates_pass_before(
    m: CircuitModel,
    table: Seq<Seq<int>>,
    g: int,
    i: int,
) -> bool {
    forall|x: int, y: int|
        0 <= x < m.gates.len() && 0 <= y < m.active[m.gates[x].selector].len() && (x < g || (x == g
            && y < i)) ==> #[trigger] gate_passes(m, table, x, y)
}

/// All wires that start before the given cell, column by column, are satisfied.
pub open spec fn wires_pass_before(m: CircuitModel, table: Seq<Seq<int>>, cell: Cell) -> bool {
    forall|c: Cell|
        m.has(c) && c.row < m.rows && (c.column < cell.column || (c.column == cell.column && c.row
            < cell.row)) ==> cell_value(table, c) == cell_value(table, #[trigger] m.target(c))
}

/// The error is the first gate that is violated.
pub open spec fn is_first_gate_failure(
    m: CircuitModel,
    table: Seq<Seq<int>>,
    t: crate::terms::Terms,
    row: usize,
    column: usize,
) -> bool {
    exists|g: int, i: int|
        0 <= g < m.gates.len() && 0 <= i < m.active[m.gates[g].selector].len()
            && !#[trigger] gate_passes(m, table, g, i) && gates_pass_before(m, table, g, i)
            && m.gates[g].terms == t && m.gates[g].column == column
            && m.active[m.gates[g].selector][i] == row
}

/// What checking a witness results in.
pub open spec fn is_check_result(
    ret: Result<(), WitnessError>,
    m: CircuitModel,
    witness: Witness,
) -> bool {
    let table = witness.table();
    if witness.spec_num_rows() != m.rows {
        ret matches Err(WitnessError::Rows { got, want }) && got == witness.spec_num_rows() && want
            == m.rows
    } else if table.len() != m.columns {
        ret matches Err(WitnessError::Columns { got, want }) && got == table.len() && want
            == m.columns
    } else if witness.spec_degree_bound() != m.size {
        ret matches Err(WitnessError::DegreeBound { got, want }) && got
            == witness.spec_degree_bound() && want == m.size
    } else {
        match ret {
            Ok(()) => m.satisfied(table),
            Err(WitnessError::Gate { constraint, row, column }) => is_first_gate_failure(
                m,
                table,
                constraint@,
                row,
                column,
            ),
            Err(WitnessError::Wire { source, source_value, target, target_value }) => {
                &&& m.gates_hold(table)
                &&& wires_pass_before(m, table, source)
                &&& m.has(source)
                &&& source.row < m.rows
                &&& target == m.target(source)
                &&& source_value.value() == cell_value(table, source)
                &&& target_value.value() == cell_value(table, target)
                &&& source_value.value() != target_value.value()
            },
            Err(_) => false,
        }
    }
}

/// The value of a gate's constraint at a given place of a witness.
fn evaluate_gate(
    constraint: &Constraint<Scalar>,
    variables: &Vec<Variable>,
    witness: &Witness,
    root_cell: Cell,
) -> (ret: Scalar)
    requires
        crate::expr::canonical(constraint@),
        forall|v: Variable| #[trigger] variables@.contains(v) <==> terms_have(constraint@, v),
        gate_fits(
            constraint@,
            root_cell.row as int,
            root_cell.column as int,
            witness.spec_degree_bound(),
            witness.table().len() as int,
        ),
    ensures
        ret.value() == terms_value(
            constraint@,
            gate_valuation(witness.table(), root_cell.row as int, root_cell.column as int),
            Scalar::modulus(),
        ) % Scalar::modulus(),
{
    let ghost t = constraint@;
    let ghost expected = gate_valuation(
        witness.table(),
        root_cell.row as int,
        root_cell.column as int,
    );
    let num_rows: usize = witness.degree_bound();
    let num_columns: usize = witness.num_columns();
    let mut substitution: Assignment<Scalar> = Assignment::new();
    let mut i: usize = 0;
    while i < variables.len()
        invariant
            i <= variables.len(),
            t == constraint@,
            num_rows == witness.spec_degree_bound(),
            num_columns == witness.table().len(),
            forall|v: Variable| #[trigger] variables@.contains(v) <==> terms_have(t, v),
            gate_fits(
                t,
                root_cell.row as int,
                root_cell.column as int,
                witness.spec_degree_bound(),
                witness.table().len() as int,
            ),
            expected == gate_valuation(
                witness.table(),
                root_cell.row as int,
                root_cell.column as int,
            ),
            forall|k: int|
                0 <= k < i ==> substitution@.contains_key(#[trigger] variables@[k])
                    && substitution@[variables@[k]].value() == expected(variables@[k]),
        decreases variables.len() - i,
    {
        let variable = variables[i];
        proof {
            assert(variables@.contains(variable));
            assert(terms_have(t, variable));
        }
        let value = witness.get_at(variable.map_to_cell(root_cell));
        substitution.insert(variable, value);
        i += 1;
    }
    proof {
        let p = Scalar::modulus();
        Scalar::lemma_modulus();
        assert forall|v: Variable| #[trigger] terms_have(t, v) implies substitution@.contains_key(v)
            && valuation(substitution@)(v) % p == expected(v) % p by {
            assert(variables@.contains(v));
            let k = choose|k: int| 0 <= k < variables@.len() && variables@[k] == v;
            assert(substitution@.contains_key(variables@[k]));
        }
        lemma_terms_value_cong(t, valuation(substitution@), expected, p);
    }
    constraint.evaluate(&substitution)
}

impl Circuit {
    /// Checks all gates.
    fn check_gates(&self, witness: &Witness) -> (ret: Result<(), WitnessError>)
        requires
            witness.table().len() == self.model().columns,
            witness.spec_degree_bound() == self.model().size,
        ensures
            match ret {
                Ok(()) => self.model().gates_hold(witness.table()),
                Err(WitnessError::Gate { constraint, row, column }) => is_first_gate_failure(
                    self.model(),
                    witness.table(),
                    constraint@,
                    row,
                    column,
                ),
                Err(_) => false,
            },
    {
        let ghost m = self.model();
        let ghost table = witness.table();
        proof {
            use_type_invariant(self);
        }
        let mut g: usize = 0;
        while g < self.gates.len()
            invariant
                g <= self.gates.len(),
                m == self.model(),
                m.wf(),
                table == witness.table(),
                table.len() == m.columns,
                witness.spec_degree_bound() == m.size,
                gates_pass_before(m, table, g as int, 0),
            decreases self.gates.len() - g,
        {
            let gate = &self.gates[g];
            let variables = gate.constraint.get_free_variables();
            proof {
                assert(m.placement_wf(m.gates[g as int]));
            }
            let rows = &self.active_rows[gate.selector_index];
            proof {
                assert(rows@ == m.active[m.gates[g as int].selector]);
            }
            let mut i: usize = 0;
            while i < rows.len()
                invariant
                    g < self.gates.len(),
                    gate == &self.gates@[g as int],
                    i <= rows.len(),
                    m == self.model(),
                    m.wf(),
                    m.placement_wf(m.gates[g as int]),
                    rows@ == m.active[m.gates[g as int].selector],
                    table == witness.table(),
                    table.len() == m.columns,
                    witness.spec_degree_bound() == m.size,
                    forall|v: Variable| #[trigger]
                        variables@.contains(v) <==> terms_have(gate.constraint@, v),
                    gates_pass_before(m, table, g as int, i as int),
                decreases rows.len() - i,
            {
                let row: usize = rows[i];
                let root_cell = Cell::new(row, gate.column_index);
                proof {
                    let t = gate.constraint@;
                    assert(m.gates[g as int].terms == t);
                    assert(gate_fits(
                        t,
                        m.active[m.gates[g as int].selector][i as int] as int,
                        gate.column_index as int,
                        m.rows,
                        m.columns,
                    ));
                    assert(gate_fits(t, row as int, gate.column_index as int, m.size, m.columns));
                }
                let value = evaluate_gate(&gate.constraint, &variables, witness, root_cell);
                if !is_zero(value) {
                    proof {
                        assert(!gate_passes(m, table, g as int, i as int));
                    }
                    return Err(
                        WitnessError::Gate {
                            constraint: gate.constraint.copy(),
                            row,
                            column: gate.column_index,
                        },
                    );
                }
                proof {
                    assert(gate_passes(m, table, g as int, i as int));
                }
                i += 1;
            }
            g += 1;
        }
        proof {
            assert forall|x: int, y: int|
                0 <= x < m.gates.len() && 0 <= y < m.active[m.gates[x].selector].len() implies gate_holds(
                (#[trigger] m.gates[x]).terms,
                table,
                (#[trigger] m.active[m.gates[x].selector][y]) as int,
                m.gates[x].column,
            ) by {
                assert(gate_passes(m, table, x, y));
            }
        }
        Ok(())
    }

    /// Performs various checks to verify that the provided `witness` is compatible with this
    /// circuit and doesn't violate any constraints.
    pub fn check_witness(&self, witness: &Witness) -> (ret: Result<(), WitnessError>)
        ensures
            self.model().wf(),
            is_check_result(ret, self.model(), *witness),
    {
        let ghost m = self.model();
        let ghost table = witness.table();
        proof {
            use_type_invariant(self);
        }
        if witness.num_rows() != self.num_rows {
            return Err(WitnessError::Rows { got: witness.num_rows(), want: self.num_rows });
        }
        if witness.num_columns() != self.num_columns {
            return Err(
                WitnessError::Columns { got: witness.num_columns(), want: self.num_columns },
            );
        }
        if witness.degree_bound() != self.degree_bound {
            return Err(
                WitnessError::DegreeBound { got: witness.degree_bound(), want: self.degree_bound },
            );
        }
        match self.check_gates(witness) {
            Ok(()) => {},
            Err(error) => {
                return Err(error);
            },
        }
        let mut column: usize = 0;
        while column < self.num_columns
            invariant
                column <= self.num_columns,
                m == self.model(),
                m.permutation_wf(),
                m.rows <= m.size,
                table == witness.table(),
                table.len() == m.columns,
                witness.spec_degree_bound() == m.size,
                witness.spec_num_rows() == m.rows,
                m.gates_hold(table),
                wires_pass_before(m, table, Cell { row: 0, column }),
            decreases self.num_columns - column,
        {
            let mut row: usize = 0;
            while row < self.num_rows
                invariant
                    column < self.num_columns,
                    row <= self.num_rows,
                    m == self.model(),
                    m.permutation_wf(),
                    m.rows <= m.size,
                    table == witness.table(),
                    table.len() == m.columns,
                    witness.spec_degree_bound() == m.size,
                    witness.spec_num_rows() == m.rows,
                    m.gates_hold(table),
                    wires_pass_before(m, table, Cell { row, column }),
                decreases self.num_rows - row,
            {
                let source = Cell::new(row, column);
                proof {
                    assert(m.has(source));
                    assert(m.targets[column as int].len() == m.size);
                    assert(m.has(m.target(source)));
                }
                let target = self.targets[column][row];
                let source_value = witness.get_at(source);
                let target_value = witness.get_at(target);
                if !equal(source_value, target_value) {
                    proof {
                        use_type_invariant(self);
                    }
                    return Err(WitnessError::Wire { source, source_value, target, target_value });
                }
                row += 1;
            }
            column += 1;
        }
        Ok(())
    }
}

} // verus!
