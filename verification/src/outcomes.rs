//! Laws about what circuits and their views return.
use crate::argument::{challenges, rotated_point, row_point};
use crate::builder::{gate_placeable, CircuitBuilder};
use crate::cell::Cell;
use crate::checking::WitnessError;
use crate::circuits::law_gate_holds;
use crate::evaluation::terms_defined;
use crate::field::{Field, Scalar};
use crate::history::{consists_of, law_check_witness_constraints, pairs_agree, pairs_within};
use crate::model::{gate_valuation, is_opened_rotation};
use crate::pcs::{opening_accepted, opening_points, opening_roots, opening_setup, HashBackend};
use crate::plonk::{BuildError, Circuit, CompilationOptions};
use crate::proving::Proof;
use crate::terms::{mono_wf, terms_value, Terms};
use crate::utils::blinding_rows;
use crate::variable::Variable;
use crate::verification::{law_accepted_proofs, law_revealed_values};
use crate::verifying::{CompressedCircuit, VerificationError};
use crate::witness::Witness;
use vstd::arithmetic::power2::pow2;
use crate::placement::wires_of_gate;
use vstd::prelude::*;

verus! {

/// The constraint evaluates to zero at the given row and column, where every variable has the value of
/// the cell that is its rotation below and its column to the right.
pub open spec fn is_zero_at(t: Terms, table: Seq<Seq<int>>, row: int, column: int) -> bool {
    forall|s: spec_fn(Variable) -> int|
        (forall|v: Variable| #[trigger] s(v) == table[column + v.column_index][row + v.rotation])
            ==> #[trigger] terms_value(t, s, Scalar::modulus()) % Scalar::modulus() == 0
}

/// The two cells of a pair have the same value.
pub open spec fn is_equal_in(pair: (Cell, Cell), table: Seq<Seq<int>>) -> bool {
    table[pair.0.column as int][pair.0.row as int] == table[pair.1.column as int][pair.1.row as int]
}

/// A witness passes the check of a circuit that was built if and only if it has the dimensions of the
/// circuit, every constraint that was placed evaluates to zero at its place, and the two cells of every
/// pair that was connected have the same value. The connected cells must be in the circuit's rows, and
/// the constraints must be defined.
pub proof fn law_build_and_check(
    builder: CircuitBuilder,
    options: CompilationOptions,
    gates: Seq<(Terms, Cell)>,
    pairs: Seq<(Cell, Cell)>,
    circuit: Circuit,
    witness: Witness,
    ret: Result<(), WitnessError>,
)
    requires
        call_ensures(
            CircuitBuilder::build,
            (builder, options),
            Ok::<Circuit, BuildError>(circuit),
        ),
        call_ensures(Circuit::check_witness, (&circuit, &witness), ret),
        consists_of(builder.state(), gates, pairs),
        pairs_within(pairs, builder.state().rows),
        forall|i: int|
            0 <= i < gates.len() ==> {
                &&& gate_placeable((#[trigger] gates[i]).0, gates[i].1)
                &&& forall|j: int| 0 <= j < gates[i].0.len() ==> mono_wf((#[trigger] gates[i].0[j]).0)
                &&& terms_defined(
                    gates[i].0,
                    gate_valuation(
                        witness.table(),
                        gates[i].1.row as int,
                        gates[i].1.column as int,
                    ),
                    Scalar::modulus(),
                )
            },
    ensures
        ret is Ok <==> {
            &&& witness.spec_num_rows() == builder.state().rows
            &&& witness.table().len() == builder.state().columns
            &&& witness.spec_degree_bound() == circuit.model().size
            &&& forall|i: int|
                0 <= i < gates.len() ==> is_zero_at(
                    (#[trigger] gates[i]).0,
                    witness.table(),
                    gates[i].1.row as int,
                    gates[i].1.column as int,
                )
            &&& forall|k: int|
                0 <= k < pairs.len() ==> is_equal_in(#[trigger] pairs[k], witness.table())
        },
        circuit.model().public_rows == builder.state().public_rows,
{
    let table = witness.table();
    let canonicalize = options.canonicalize_constraints;
    law_check_witness_constraints(
        builder.state(),
        gates,
        pairs,
        canonicalize,
        circuit,
        witness,
        ret,
    );
    crate::history::law_built_circuit(builder.state(), gates, pairs, canonicalize, circuit);
    assert forall|i: int| 0 <= i < gates.len() implies (is_zero_at(
        (#[trigger] gates[i]).0,
        table,
        gates[i].1.row as int,
        gates[i].1.column as int,
    ) <==> crate::model::gate_holds(
        gates[i].0,
        table,
        gates[i].1.row as int,
        gates[i].1.column as int,
    )) by {
        lemma_zero_at(gates[i].0, table, gates[i].1.row as int, gates[i].1.column as int);
    }
    if pairs_agree(pairs, table) {
        assert forall|k: int| 0 <= k < pairs.len() implies is_equal_in(#[trigger] pairs[k], table) by {}
    }
    if forall|k: int| 0 <= k < pairs.len() ==> is_equal_in(#[trigger] pairs[k], table) {
        assert forall|k: int| 0 <= k < pairs.len() implies crate::model::cell_value(
            table,
            (#[trigger] pairs[k]).0,
        ) == crate::model::cell_value(table, pairs[k].1) by {
            assert(is_equal_in(pairs[k], table));
        }
        assert(pairs_agree(pairs, table));
    }
}

/// Evaluating to zero at a place.
proof fn lemma_zero_at(t: Terms, table: Seq<Seq<int>>, row: int, column: int)
    ensures
        is_zero_at(t, table, row, column) <==> crate::model::gate_holds(t, table, row, column),
{
    let u = gate_valuation(table, row, column);
    assert(forall|v: Variable| #[trigger] u(v) == table[column + v.column_index][row + v.rotation]);
    assert forall|s: spec_fn(Variable) -> int|
        (forall|v: Variable| #[trigger] s(v) == table[column + v.column_index][row + v.rotation])
            && crate::model::gate_holds(t, table, row, column) implies #[trigger] terms_value(
        t,
        s,
        Scalar::modulus(),
    ) % Scalar::modulus() == 0 by {
        law_gate_holds(t, table, row, column, s);
    }
}

/// A proof is verified against the circuit: it must have four root hashes, the first of which is that
/// of the circuit, must be made with the circuit's degree bound, and must open all polynomials for all
/// rotations and revealed rows; its opening must be correct, and its values must satisfy the equation.
/// The revealed cells are returned row by row, each with the value of its column at the position of
/// the row.
pub proof fn law_verify<H: HashBackend>(
    circuit: CompressedCircuit<H>,
    proof: Proof<H>,
    ret: Result<Vec<(Cell, Scalar)>, VerificationError>,
    i: int,
    j: int,
    r: isize,
)
    requires
        call_ensures(CompressedCircuit::<H>::verify, (&circuit, &proof), ret),
        ret is Ok,
        0 <= i < circuit.model().public_rows.len(),
        0 <= j < circuit.model().columns,
        is_opened_rotation(circuit.model().gates, r),
    ensures
        opening_roots(proof.opening()).len() == 4,
        opening_roots(proof.opening())[0] == circuit.model().root,
        opening_setup(proof.opening()).degree_bound == circuit.model().size,
        opening_setup(proof.opening()).blowup_log2 == circuit.model().setup.blowup_log2,
        opening_accepted(proof.opening()),
        opening_points(proof.opening()).contains_key(
            rotated_point(
                circuit.model().size,
                challenges(circuit.model().setup, opening_roots(proof.opening())).xi,
                r,
            ),
        ),
        opening_points(proof.opening()).contains_key(
            row_point(circuit.model().size, circuit.model().public_rows[i]),
        ),
        circuit.model().equation_holds(
            challenges(circuit.model().setup, opening_roots(proof.opening())),
            proof.opening(),
        ),
        ret->Ok_0@[i * circuit.model().columns + j].0.row == circuit.model().public_rows[i],
        ret->Ok_0@[i * circuit.model().columns + j].0.column == j,
        ret->Ok_0@[i * circuit.model().columns + j].1.value() == opening_points(
            proof.opening(),
        )[row_point(
            circuit.model().size,
            circuit.model().public_rows[i],
        )][circuit.model().selectors + circuit.model().columns + j],
{
    law_accepted_proofs(ret, circuit.model(), proof.opening());
    law_revealed_values(ret, circuit.model(), proof.opening(), i, j);
}

/// A new witness has the given rows and columns, a power of two of rows in all, as few as hold the
/// blinding rows too, and zeros everywhere.
pub proof fn law_new_witness(
    rows: usize,
    columns: usize,
    rotations: Vec<isize>,
    ret: Witness,
    cell: Cell,
    k: nat,
)
    requires
        call_ensures(Witness::new, (rows, columns, &rotations), ret),
    ensures
        ret.spec_num_rows() == rows,
        ret.table().len() == columns,
        ret.spec_num_blinding_rows() == blinding_rows::<Scalar>(rotations@),
        rows + ret.spec_num_blinding_rows() <= ret.spec_degree_bound(),
        rows + ret.spec_num_blinding_rows() <= pow2(k) ==> ret.spec_degree_bound() <= pow2(k),
        exists|n: nat| ret.spec_degree_bound() == #[trigger] pow2(n),
        cell.column < columns && cell.row < ret.spec_degree_bound()
            ==> ret.table()[cell.column as int][cell.row as int] == 0,
{
    if cell.column < columns && cell.row < ret.spec_degree_bound() {
        assert(ret.has(cell));
        assert(ret.at(cell) == 0);
    }
}

/// The witness that a circuit makes has the circuit's dimensions and zeros everywhere.
pub proof fn law_made_witness(circuit: Circuit, ret: Witness, cell: Cell)
    requires
        call_ensures(Circuit::make_witness, (&circuit,), ret),
    ensures
        ret.spec_num_rows() == circuit.model().rows,
        ret.table().len() == circuit.model().columns,
        ret.spec_num_blinding_rows() == circuit.model().blinding,
        ret.spec_degree_bound() == circuit.model().size,
        cell.column < ret.table().len() && cell.row < ret.spec_degree_bound()
            ==> ret.table()[cell.column as int][cell.row as int] == 0,
{
    if cell.column < ret.table().len() && cell.row < ret.spec_degree_bound() {
        assert(ret.has(cell));
        assert(ret.at(cell) == 0);
    }
}

/// In a witness in which connected cells have the same value, an input of an automatic gate has the
/// value of the cell of its variable.
pub proof fn law_wired_inputs(
    wires: Seq<(Cell, Cell)>,
    inputs: Seq<Option<Cell>>,
    s: Seq<Variable>,
    row: int,
    column: int,
    table: Seq<Seq<int>>,
    i: int,
)
    requires
        wires_of_gate(wires, inputs, s, row, column),
        forall|k: int| 0 <= k < wires.len() ==> is_equal_in(#[trigger] wires[k], table),
        0 <= i < inputs.len(),
        inputs[i] is Some,
        0 <= row + s[i].rotation <= usize::MAX,
        0 <= column + s[i].column_index <= usize::MAX,
    ensures
        table[inputs[i]->0.column as int][inputs[i]->0.row as int] == table[column
            + s[i].column_index][row + s[i].rotation],
{
    let a = inputs[i]->0;
    let b = Cell {
        row: (row + s[i].rotation) as usize,
        column: (column + s[i].column_index) as usize,
    };
    assert(inputs[i] == Some(a));
    assert(wires.contains((a, b)));
    let k = choose|k: int| 0 <= k < wires.len() && wires[k] == (a, b);
    assert(is_equal_in(wires[k], table));
}

} // verus!
