//! What circuits are and what it means to satisfy them.
use crate::cell::Cell;
use crate::expr::{canonical, shiftable, terms_degree};
use crate::field::{Field, Scalar};
use crate::poly::{domain_root, max_domain_size, poly_eval};
use crate::terms::{terms_have, terms_less, terms_value, terms_wf, Terms};
use crate::utils::is_next_power_of_two;
use crate::variable::Variable;
use vstd::arithmetic::power::pow;
use vstd::prelude::*;

verus! {

/// A gate type that is placed at a column, and activated at the rows of a selector.
pub ghost struct Placement {
    /// The constraint, with variables relative to the column.
    pub terms: Terms,
    /// The column.
    pub column: int,
    /// The index of the selector.
    pub selector: int,
}

/// A compiled circuit.
pub ghost struct CircuitModel {
    /// The number of rows, without blinding rows and padding.
    pub rows: int,
    /// The number of blinding rows.
    pub blinding: int,
    /// The number of rows, with blinding rows and padding.
    pub size: int,
    /// The number of columns.
    pub columns: int,
    /// The rows at which each selector is active, in order.
    pub active: Seq<Seq<usize>>,
    /// The placements of gates.
    pub gates: Seq<Placement>,
    /// For every cell, column-first, the next cell of its node.
    pub targets: Seq<Seq<Cell>>,
    /// The rows that are revealed in the proofs, in order.
    pub public_rows: Seq<usize>,
    /// The coefficients of the selectors.
    pub selectors: Seq<Seq<int>>,
    /// The coefficients of the permutation polynomials.
    pub sigma: Seq<Seq<int>>,
}

/// The value of a field element or of a column at a cell.
pub open spec fn cell_value(table: Seq<Seq<int>>, cell: Cell) -> int {
    table[cell.column as int][cell.row as int]
}

/// The values that the variables of a gate have when it is placed at the given row and column.
pub open spec fn gate_valuation(table: Seq<Seq<int>>, row: int, column: int) -> spec_fn(
    Variable,
) -> int {
    |v: Variable| table[column + v.column_index][row + v.rotation]
}

/// A gate placed at the given row and column is satisfied.
pub open spec fn gate_holds(t: Terms, table: Seq<Seq<int>>, row: int, column: int) -> bool {
    terms_value(t, gate_valuation(table, row, column), Scalar::modulus()) % Scalar::modulus() == 0
}

/// All variables of a gate placed at the given row and column stand for cells of the table.
pub open spec fn gate_fits(t: Terms, row: int, column: int, rows: int, columns: int) -> bool {
    forall|v: Variable| #[trigger]
        terms_have(t, v) ==> 0 <= row + v.rotation < rows && column + v.column_index < columns
}

/// The value that stands for a cell in the permutation argument.
pub open spec fn cell_identity(cell: Cell, size: int) -> int {
    (pow(5, cell.column as nat) * pow(domain_root(size), cell.row as nat)) % Scalar::modulus()
}

/// The rows strictly increase.
pub open spec fn rows_sorted(s: Seq<usize>) -> bool {
    forall|i: int, j: int| 0 <= i < j < s.len() ==> (#[trigger] s[i]) < (#[trigger] s[j])
}

/// The order of row sets: lexicographic.
pub open spec fn rows_less(a: Seq<usize>, b: Seq<usize>) -> bool
    decreases a.len(),
{
    if b.len() == 0 {
        false
    } else if a.len() == 0 {
        true
    } else if a[0] == b[0] {
        rows_less(a.drop_first(), b.drop_first())
    } else {
        a[0] < b[0]
    }
}

/// The order of placements: by constraint, then by column.
pub open spec fn placement_less(a: Terms, acol: int, b: Terms, bcol: int) -> bool {
    terms_less(a, b) || (a == b && acol < bcol)
}

/// The polynomial with the given coefficients takes the given residues on the evaluation domain.
pub open spec fn interpolates(c: Seq<int>, values: Seq<int>) -> bool {
    &&& c.len() <= values.len()
    &&& forall|i: nat|
        i < values.len() ==> #[trigger] poly_eval(c, pow(domain_root(values.len() as int), i))
            % Scalar::modulus() == values[i as int]
}

/// The values of a selector.
pub open spec fn selector_values(active: Seq<usize>, size: int) -> Seq<int> {
    Seq::new(
        size as nat,
        |i: int|
            if active.contains(i as usize) {
                1int
            } else {
                0int
            },
    )
}

/// The values of a permutation polynomial.
pub open spec fn sigma_values(targets: Seq<Cell>, size: int) -> Seq<int> {
    Seq::new(size as nat, |i: int| cell_identity(targets[i], size))
}

/// The highest degree of the gates.
pub open spec fn max_gate_degree(gates: Seq<Placement>) -> int
    decreases gates.len(),
{
    if gates.len() == 0 {
        0
    } else if max_gate_degree(gates.drop_last()) < terms_degree(gates.last().terms) {
        terms_degree(gates.last().terms)
    } else {
        max_gate_degree(gates.drop_last())
    }
}

/// The degree bound of the quotient: `(N - 1) * max(max_gate_degree, num_columns)`.
pub open spec fn quotient_bound(size: int, columns: int, gates: Seq<Placement>) -> int {
    (size - 1) * if max_gate_degree(gates) < columns {
        columns
    } else {
        max_gate_degree(gates)
    }
}

/// The number of chunks that the quotient is split into.
pub open spec fn quotient_chunks(size: int, columns: int, gates: Seq<Placement>) -> int {
    (quotient_bound(size, columns, gates) + size - 1) / size
}

/// The degree bound of the quotient and the numbers of its chunks and of all polynomials are in the
/// range of [`usize`].
pub open spec fn counts_fit(size: int, columns: int, gates: Seq<Placement>, selectors: int) -> bool {
    &&& max_gate_degree(gates) <= usize::MAX
    &&& quotient_bound(size, columns, gates) <= usize::MAX
    &&& selectors + 2 * columns + 1 + quotient_chunks(size, columns, gates) <= usize::MAX
}

/// The rotations of the variables of `t`.
pub open spec fn terms_rotations(t: Terms) -> Set<isize> {
    Set::new(|r: isize| exists|v: Variable| #[trigger] terms_have(t, v) && v.rotation == r)
}

/// `r` is a rotation at which the columns of a circuit with the given gates are opened.
pub open spec fn is_opened_rotation(gates: Seq<Placement>, r: isize) -> bool {
    r == 0 || r == 1 || exists|i: int|
        0 <= i < gates.len() && terms_rotations((#[trigger] gates[i]).terms).contains(r)
}

/// The rotations at which the columns of a circuit with the given gates are opened.
pub open spec fn opened_set(gates: Seq<Placement>) -> Set<isize> {
    Set::new(|r: isize| is_opened_rotation(gates, r))
}

/// Some gate is activated by the selector with index `i`.
pub open spec fn selector_used(gates: Seq<Placement>, i: int) -> bool {
    exists|g: int| 0 <= g < gates.len() && (#[trigger] gates[g]).selector == i
}

impl CircuitModel {
    /// Two gates placed at the same column have different constraints, and placements are ordered.
    pub open spec fn gates_sorted(self) -> bool {
        forall|i: int, j: int|
            0 <= i < j < self.gates.len() ==> placement_less(
                (#[trigger] self.gates[i]).terms,
                self.gates[i].column,
                (#[trigger] self.gates[j]).terms,
                self.gates[j].column,
            )
    }

    /// A placement is one of a canonical constraint, whose variables stand for cells of the circuit
    /// wherever it is active.
    pub open spec fn placement_wf(self, g: Placement) -> bool {
        &&& terms_wf(g.terms, Scalar::modulus())
        &&& canonical(g.terms)
        &&& shiftable(g.terms, 0)
        &&& shiftable(g.terms, g.column)
        &&& 0 <= g.column <= isize::MAX
        &&& 0 <= g.selector < self.active.len()
        &&& forall|i: int|
            0 <= i < self.active[g.selector].len() ==> gate_fits(
                g.terms,
                (#[trigger] self.active[g.selector][i]) as int,
                g.column,
                self.rows,
                self.columns,
            )
        &&& forall|v: Variable| #[trigger]
            terms_have(g.terms, v) ==> g.column + v.column_index < self.columns
    }

    /// The cell is in the padded table.
    pub open spec fn has(self, cell: Cell) -> bool {
        cell.row < self.size && cell.column < self.columns
    }

    /// The next cell of a cell's node.
    pub open spec fn target(self, cell: Cell) -> Cell {
        self.targets[cell.column as int][cell.row as int]
    }

    /// The sizes are consistent and can be handled, and there is an evaluation domain with as many
    /// elements as there are rows.
    pub open spec fn sizes_wf(self) -> bool {
        &&& 0 <= self.rows
        &&& 2 <= self.blinding
        &&& self.rows + self.blinding <= self.size
        &&& is_next_power_of_two(self.size, self.rows + self.blinding)
        &&& self.blinding == opened_set(self.gates).len() + 1
        &&& 4 <= self.size <= usize::MAX
        &&& self.size <= max_domain_size()
        &&& pow(domain_root(self.size), self.size as nat) % Scalar::modulus() == 1
        &&& 0 <= self.columns <= usize::MAX
    }

    /// The quotient can be handled: it can be calculated within the largest evaluation domain, and
    /// its chunks can be counted.
    pub open spec fn quotient_fits(self) -> bool {
        &&& counts_fit(self.size, self.columns, self.gates, self.active.len() as int)
        &&& self.size * (max_gate_degree(self.gates) + self.columns + 4) <= max_domain_size()
    }

    /// The selectors have ordered rows, take the right values and are all used.
    pub open spec fn selectors_wf(self) -> bool {
        &&& self.selectors.len() == self.active.len()
        &&& forall|i: int|
            0 <= i < self.active.len() ==> rows_sorted(#[trigger] self.active[i])
        &&& forall|i: int, j: int|
            0 <= i < self.active.len() && 0 <= j < self.active[i].len() ==> (
            #[trigger] self.active[i][j]) < self.rows
        &&& forall|i: int, j: int|
            0 <= i < j < self.active.len() ==> rows_less(
                #[trigger] self.active[i],
                #[trigger] self.active[j],
            )
        &&& forall|i: int|
            0 <= i < self.selectors.len() ==> interpolates(
                #[trigger] self.selectors[i],
                selector_values(self.active[i], self.size),
            )
        &&& forall|i: int| 0 <= i < self.active.len() ==> #[trigger] selector_used(self.gates, i)
    }

    /// The targets are a permutation of the cells, and the permutation polynomials take the values
    /// that stand for the targets.
    pub open spec fn permutation_wf(self) -> bool {
        &&& self.targets.len() == self.columns
        &&& self.sigma.len() == self.columns
        &&& forall|j: int|
            0 <= j < self.columns ==> (#[trigger] self.targets[j]).len() == self.size
        &&& forall|c: Cell| self.has(c) ==> self.has(#[trigger] self.target(c))
        &&& forall|a: Cell, b: Cell|
            self.has(a) && self.has(b) && #[trigger] self.target(a) == #[trigger] self.target(b)
                ==> a == b
        &&& forall|j: int|
            0 <= j < self.columns ==> interpolates(
                #[trigger] self.sigma[j],
                sigma_values(self.targets[j], self.size),
            )
    }

    /// The circuit is well-formed.
    pub open spec fn wf(self) -> bool {
        &&& self.sizes_wf()
        &&& self.selectors_wf()
        &&& self.permutation_wf()
        &&& self.gates_sorted()
        &&& forall|i: int|
            0 <= i < self.gates.len() ==> self.placement_wf(#[trigger] self.gates[i])
        &&& rows_sorted(self.public_rows)
    }

    /// A table of residues has the dimensions of the padded circuit.
    pub open spec fn fits_table(self, table: Seq<Seq<int>>) -> bool {
        &&& table.len() == self.columns
        &&& forall|j: int| 0 <= j < table.len() ==> (#[trigger] table[j]).len() == self.size
    }

    /// All gates are satisfied.
    pub open spec fn gates_hold(self, table: Seq<Seq<int>>) -> bool {
        forall|g: int, i: int|
            0 <= g < self.gates.len() && 0 <= i < self.active[self.gates[g].selector].len()
                ==> gate_holds(
                (#[trigger] self.gates[g]).terms,
                table,
                (#[trigger] self.active[self.gates[g].selector][i]) as int,
                self.gates[g].column,
            )
    }

    /// All connected cells, of which one is not in the blinding rows or the padding, have the same
    /// value.
    pub open spec fn wires_hold(self, table: Seq<Seq<int>>) -> bool {
        forall|c: Cell|
            self.has(c) && c.row < self.rows ==> cell_value(table, c) == cell_value(
                table,
                #[trigger] self.target(c),
            )
    }

    /// All connected cells have the same value.
    pub open spec fn connections_agree(self, table: Seq<Seq<int>>) -> bool {
        forall|c: Cell|
            self.has(c) ==> cell_value(table, c) == cell_value(table, #[trigger] self.target(c))
    }

    /// No cell in the blinding rows or the padding is connected to another one.
    pub open spec fn wires_within(self) -> bool {
        forall|c: Cell| self.has(c) && c.row >= self.rows ==> #[trigger] self.target(c) == c
    }

    /// The witness satisfies the circuit.
    pub open spec fn satisfied(self, table: Seq<Seq<int>>) -> bool {
        self.gates_hold(table) && self.wires_hold(table)
    }
}

} // verus!
